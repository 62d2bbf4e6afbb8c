//! Rounding an exact non-negative ratio to the nearest binary64 magnitude.
//!
//! A magnitude is the bit pattern of a number without its sign bit. Values are
//! counted in units of 2^-1074, the smallest positive binary64 number, so that
//! every finite magnitude stands for a whole number of units.
use vstd::arithmetic::div_mod::{
    lemma_div_denominator, lemma_fundamental_div_mod, lemma_fundamental_div_mod_converse,
    lemma_mod_breakdown,
};
use vstd::arithmetic::power2::{lemma_pow2_adds, lemma_pow2_pos, lemma_pow2_unfold, pow2};
use vstd::prelude::*;

verus! {

/// 2^52, the weight of the hidden bit.
pub const HIDDEN_BIT: u64 = 0x10_0000_0000_0000;

/// The magnitude of infinity; every smaller magnitude is finite.
pub const INFINITE_MAGNITUDE: u64 = 0x7ff0_0000_0000_0000;

/// The value of a magnitude, in units of 2^-1074.
pub open spec fn units(magnitude: nat) -> nat {
    let exponent = magnitude / (HIDDEN_BIT as nat);
    let fraction = magnitude % (HIDDEN_BIT as nat);
    if exponent == 0 {
        fraction
    } else {
        (HIDDEN_BIT + fraction) as nat * pow2((exponent - 1) as nat)
    }
}

/// `n / d` rounded to the nearest whole number, a tie going to the even one.
pub open spec fn half_even(n: nat, d: nat) -> nat {
    let q = n / d;
    let r = n % d;
    if 2 * r < d || (2 * r == d && q % 2 == 0) {
        q
    } else {
        q + 1
    }
}

/// The magnitude nearest to `n / d` units, a tie going to the even fraction,
/// with the exponent left unbounded above.
///
/// Below 2^53 units the magnitudes are the whole numbers themselves. From there
/// on each doubling of the value doubles the spacing and adds one to the
/// exponent field, that is 2^52 to the magnitude.
pub open spec fn nearest(n: nat, d: nat) -> nat
    decreases n - d,
{
    if d == 0 || n < d * (2 * HIDDEN_BIT) {
        half_even(n, d)
    } else {
        proof {
            assert(n >= 2 * d && d > 0) by (nonlinear_arith)
                requires
                    d != 0,
                    n >= d * (2 * HIDDEN_BIT),
                    HIDDEN_BIT == 0x10_0000_0000_0000,
            ;
        }
        HIDDEN_BIT as nat + nearest(n, 2 * d)
    }
}

/// `nearest`, with everything past the largest finite magnitude infinite.
pub open spec fn rounded(n: nat, d: nat) -> nat {
    if nearest(n, d) >= INFINITE_MAGNITUDE {
        INFINITE_MAGNITUDE as nat
    } else {
        nearest(n, d)
    }
}

/// Enough spare binary places for every intermediate exponent.
pub(crate) open spec fn places() -> nat {
    4096
}

/// `m` is `n / d` cut down to a whole number of 2^e half units, and `sticky`
/// says whether anything was cut off.
pub(crate) open spec fn truncates(n: nat, d: nat, m: nat, e: int, sticky: bool) -> bool {
    let whole = 2 * n * pow2(places());
    let unit = d * pow2((e + places()) as nat);
    &&& d > 0
    &&& e + places() >= 0
    &&& m == whole / unit
    &&& sticky == (whole % unit != 0)
}

proof fn lemma_unit_positive(d: nat, k: nat)
    requires
        d > 0,
    ensures
        d * pow2(k) > 0,
{
    lemma_pow2_pos(k);
    assert(d * pow2(k) > 0) by (nonlinear_arith)
        requires
            d > 0,
            pow2(k) > 0,
    ;
}

/// Dropping the lowest bit into the sticky flag.
proof fn lemma_truncates_halve(n: nat, d: nat, m: nat, e: int, sticky: bool)
    requires
        truncates(n, d, m, e, sticky),
    ensures
        truncates(n, d, m / 2, e + 1, sticky || m % 2 == 1),
{
    let k = (e + places()) as nat;
    let whole = 2 * n * pow2(places());
    let unit = d * pow2(k);
    lemma_unit_positive(d, k);
    lemma_pow2_unfold(k + 1);
    assert(d * pow2(k + 1) == unit * 2) by (nonlinear_arith)
        requires
            pow2(k + 1) == 2 * pow2(k),
            unit == d * pow2(k),
    ;
    lemma_div_denominator(whole as int, unit as int, 2);
    lemma_mod_breakdown(whole as int, unit as int, 2);
    assert(whole % (unit * 2) == unit * (m % 2) + whole % unit);
    assert(m % 2 == 1 ==> unit * (m % 2) == unit);
    assert(m % 2 == 0 ==> unit * (m % 2) == 0);
    assert((e + 1 + places()) as nat == k + 1);
}

/// With nothing cut off, a place can be given back.
proof fn lemma_truncates_double(n: nat, d: nat, m: nat, e: int)
    requires
        truncates(n, d, m, e, false),
        e + places() >= 1,
    ensures
        truncates(n, d, 2 * m, e - 1, false),
{
    let k = (e + places()) as nat;
    let whole = 2 * n * pow2(places());
    let unit = d * pow2(k);
    let half = d * pow2((k - 1) as nat);
    lemma_unit_positive(d, k);
    lemma_unit_positive(d, (k - 1) as nat);
    lemma_pow2_unfold(k);
    assert(unit == 2 * half) by (nonlinear_arith)
        requires
            pow2(k) == 2 * pow2((k - 1) as nat),
            unit == d * pow2(k),
            half == d * pow2((k - 1) as nat),
    ;
    lemma_fundamental_div_mod(whole as int, unit as int);
    assert(whole == (2 * m) * half) by (nonlinear_arith)
        requires
            whole == unit * m,
            unit == 2 * half,
    ;
    lemma_fundamental_div_mod_converse(whole as int, half as int, 2 * m as int, 0);
    assert((e - 1 + places()) as nat == (k - 1) as nat);
}

/// A ratio that is a whole number of 2^e half units.
pub(crate) proof fn lemma_truncates_exact(n: nat, d: nat, m: nat, e: int)
    requires
        d > 0,
        e + places() >= 0,
        2 * n * pow2(places()) == m * (d * pow2((e + places()) as nat)),
    ensures
        truncates(n, d, m, e, false),
{
    let unit = d * pow2((e + places()) as nat);
    lemma_unit_positive(d, (e + places()) as nat);
    lemma_fundamental_div_mod_converse((2 * n * pow2(places())) as int, unit as int, m as int, 0);
}

/// A ratio `a / b` of 2^e half units, cut down to a whole number of them.
pub(crate) proof fn lemma_truncates_ratio(n: nat, d: nat, a: nat, b: nat, p: nat, e: int)
    requires
        d > 0,
        b > 0,
        p > 0,
        e + places() >= 0,
        2 * n * pow2(places()) == a * p,
        d * pow2((e + places()) as nat) == b * p,
    ensures
        truncates(n, d, a / b, e, a % b != 0),
{
    let q = a / b;
    let r = a % b;
    lemma_fundamental_div_mod(a as int, b as int);
    assert(a * p == (b * p) * q + r * p) by (nonlinear_arith)
        requires
            a == b * q + r,
    ;
    assert(0 <= r * p < b * p) by (nonlinear_arith)
        requires
            0 <= r < b,
            p > 0,
    ;
    lemma_fundamental_div_mod_converse((a * p) as int, (b * p) as int, q as int, (r * p) as int);
    assert((r != 0) == (r * p != 0)) by (nonlinear_arith)
        requires
            p > 0,
            r >= 0,
    ;
}

/// Half a number rounded to a whole one, a tie going to the even one; `sticky`
/// says that the number is a little more than `m`.
pub(crate) open spec fn half_rounded(m: nat, sticky: bool) -> nat {
    if m % 2 == 1 && (sticky || (m / 2) % 2 == 1) {
        m / 2 + 1
    } else {
        m / 2
    }
}

/// `half_even` in terms of the doubled ratio cut down to a whole number.
proof fn lemma_half_even(n: nat, d: nat)
    requires
        d > 0,
    ensures
        half_even(n, d) == half_rounded(2 * n / d, (2 * n) % d != 0),
{
    let q = n / d;
    let r = n % d;
    lemma_fundamental_div_mod(n as int, d as int);
    if 2 * r < d {
        assert(2 * n == (2 * q) * d + 2 * r) by (nonlinear_arith)
            requires
                n == d * q + r,
        ;
        lemma_fundamental_div_mod_converse(2 * n as int, d as int, 2 * q as int, 2 * r as int);
    } else {
        assert(2 * n == (2 * q + 1) * d + (2 * r - d)) by (nonlinear_arith)
            requires
                n == d * q + r,
        ;
        lemma_fundamental_div_mod_converse(2 * n as int, d as int, 2 * q as int + 1, 2 * r - d);
    }
}

/// Where the truncation keeps one bit below the spacing, it decides the rounding.
proof fn lemma_truncates_decides(n: nat, d: nat, m: nat, e: nat, sticky: bool)
    requires
        truncates(n, d, m, e as int, sticky),
        m < 4 * HIDDEN_BIT,
        e == 0 || m >= 2 * HIDDEN_BIT,
    ensures
        nearest(n, d) == e * HIDDEN_BIT + half_rounded(m, sticky),
    decreases e,
{
    let big = pow2(places());
    let whole = 2 * n * big;
    let unit = d * pow2((e + places()) as nat);
    lemma_pow2_pos(places());
    lemma_unit_positive(d, (e + places()) as nat);
    if e == 0 {
        assert(unit == d * big);
        let q = (2 * n) / d;
        let r = (2 * n) % d;
        lemma_truncates_ratio(n, d, 2 * n, d, big, 0);
        lemma_half_even(n, d);
        lemma_fundamental_div_mod(2 * n as int, d as int);
        assert(n < d * (2 * HIDDEN_BIT)) by (nonlinear_arith)
            requires
                2 * n == d * q + r,
                q < 4 * HIDDEN_BIT,
                r < d,
        ;
    } else {
        lemma_pow2_adds(e, places());
        lemma_pow2_unfold(e);
        lemma_pow2_pos((e - 1) as nat);
        lemma_fundamental_div_mod(whole as int, unit as int);
        assert(unit == d * pow2(e) * big) by (nonlinear_arith)
            requires
                unit == d * pow2((e + places()) as nat),
                pow2((e + places()) as nat) == pow2(e) * big,
        ;
        assert(n >= d * (2 * HIDDEN_BIT)) by {
            let w = whole % unit;
            assert(2 * n * big >= (d * pow2(e) * big) * (2 * HIDDEN_BIT)) by (nonlinear_arith)
                requires
                    2 * n * big == unit * m + w,
                    w >= 0,
                    m >= 2 * HIDDEN_BIT,
                    unit == d * pow2(e) * big,
                    unit > 0,
            ;
            assert(2 * n >= (d * pow2(e)) * (2 * HIDDEN_BIT)) by (nonlinear_arith)
                requires
                    2 * n * big >= (d * pow2(e) * big) * (2 * HIDDEN_BIT),
                    big > 0,
            ;
            assert(n >= d * (2 * HIDDEN_BIT)) by (nonlinear_arith)
                requires
                    2 * n >= (d * pow2(e)) * (2 * HIDDEN_BIT),
                    pow2(e) >= 2,
                    d > 0,
            ;
        }
        let f = (e - 1) as nat;
        lemma_pow2_unfold((e + places()) as nat);
        assert((2 * d) * pow2((f + places()) as nat) == unit) by (nonlinear_arith)
            requires
                unit == d * pow2((e + places()) as nat),
                pow2((e + places()) as nat) == 2 * pow2((f + places()) as nat),
        ;
        assert(truncates(n, 2 * d, m, f as int, sticky));
        lemma_truncates_decides(n, 2 * d, m, f, sticky);
    }
}

/// `e` exponent steps and half of `m`, rounded.
fn pack(m: u64, e: u32, sticky: bool) -> (magnitude: u64)
    requires
        m < 4 * HIDDEN_BIT,
        e <= 8192,
    ensures
        magnitude == (if e * HIDDEN_BIT + half_rounded(m as nat, sticky) >= INFINITE_MAGNITUDE {
            INFINITE_MAGNITUDE as int
        } else {
            e * HIDDEN_BIT + half_rounded(m as nat, sticky)
        }),
{
    let half: u64 = m / 2;
    let up: bool = m % 2 == 1 && (sticky || half % 2 == 1);
    let fraction: u64 = if up { half + 1 } else { half };
    if e >= 2047 {
        return INFINITE_MAGNITUDE;
    }
    let magnitude: u64 = e as u64 * HIDDEN_BIT + fraction;
    if magnitude >= INFINITE_MAGNITUDE {
        INFINITE_MAGNITUDE
    } else {
        magnitude
    }
}

/// The magnitude nearest to the ratio that `m`, `e` and `sticky` were cut down
/// from. A truncated ratio has to come with enough bits for the rounding.
pub(crate) fn assemble(
    m: u128,
    e: i32,
    sticky: bool,
    Ghost(n): Ghost<nat>,
    Ghost(d): Ghost<nat>,
) -> (magnitude: u64)
    requires
        truncates(n, d, m as nat, e as int, sticky),
        -4000 <= e <= 4000,
        sticky ==> m >= 2 * HIDDEN_BIT,
    ensures
        magnitude == rounded(n, d),
{
    let mut m = m;
    let mut e = e;
    let mut sticky = sticky;
    let ghost start = e as int;
    let mut spare: u32 = 0;
    proof {
        vstd::arithmetic::power2::lemma2_to64();
    }
    while m >= 0x40_0000_0000_0000
        invariant
            truncates(n, d, m as nat, e as int, sticky),
            sticky ==> m >= 2 * HIDDEN_BIT,
            -4000 <= start <= 4000,
            start <= e <= start + spare,
            e == start + spare,
            spare <= 128,
            m * pow2(spare as nat) < 0x1_0000_0000_0000_0000_0000_0000_0000_0000int,
        decreases m,
    {
        proof {
            lemma_truncates_halve(n, d, m as nat, e as int, sticky);
            lemma_pow2_unfold((spare + 1) as nat);
            let p = pow2(spare as nat);
            lemma_pow2_pos(spare as nat);
            assert((m / 2) * (2 * p) < 0x1_0000_0000_0000_0000_0000_0000_0000_0000int)
                by (nonlinear_arith)
                requires
                    m * p < 0x1_0000_0000_0000_0000_0000_0000_0000_0000int,
                    p > 0,
            ;
            assert(spare < 128) by {
                if spare >= 128 {
                    vstd::arithmetic::power2::lemma2_to64();
                    lemma_pow2_adds(64, 64);
                    assert(m * p >= 0x1_0000_0000_0000_0000_0000_0000_0000_0000int)
                        by (nonlinear_arith)
                        requires
                            m >= 1,
                            p == 0x1_0000_0000_0000_0000_0000_0000_0000_0000int,
                    ;
                }
            }
        }
        sticky = sticky || m % 2 == 1;
        m = m / 2;
        e = e + 1;
        spare = spare + 1;
    }
    while e < 0
        invariant
            truncates(n, d, m as nat, e as int, sticky),
            m < 4 * HIDDEN_BIT,
            e < 0 || e == 0 || m >= 2 * HIDDEN_BIT || !sticky,
            -4000 <= e <= 4200,
        decreases -e,
    {
        proof {
            lemma_truncates_halve(n, d, m as nat, e as int, sticky);
        }
        sticky = sticky || m % 2 == 1;
        m = m / 2;
        e = e + 1;
    }
    while e > 0 && m < 0x20_0000_0000_0000
        invariant
            truncates(n, d, m as nat, e as int, sticky),
            m < 4 * HIDDEN_BIT,
            e == 0 || m >= 2 * HIDDEN_BIT || !sticky,
            0 <= e <= 4200,
        decreases e,
    {
        proof {
            lemma_truncates_double(n, d, m as nat, e as int);
        }
        m = m * 2;
        e = e - 1;
    }
    proof {
        lemma_truncates_decides(n, d, m as nat, e as nat, sticky);
    }
    pack(m as u64, e as u32, sticky)
}

/// Nothing to shift.
pub proof fn lemma_pow2_zero(m: nat)
    ensures
        pow2(0) == 1,
        m * pow2(0) == m,
{
    vstd::arithmetic::power2::lemma2_to64();
    vstd::arithmetic::mul::lemma_mul_basics(m as int);
}

/// Below 2^53 a magnitude counts its own units.
proof fn lemma_units_small(magnitude: nat)
    requires
        magnitude < 2 * HIDDEN_BIT,
    ensures
        units(magnitude) == magnitude,
{
    let h = HIDDEN_BIT as nat;
    if magnitude >= h {
        assert(magnitude / h == 1 && magnitude % h == magnitude - h);
        lemma_pow2_zero(magnitude);
    }
}

/// The significand and the exponent of a finite magnitude.
pub(crate) fn split(magnitude: u64) -> (parts: (u64, u32))
    requires
        magnitude < INFINITE_MAGNITUDE,
    ensures
        units(magnitude as nat) == parts.0 * pow2(parts.1 as nat),
        parts.0 < 2 * HIDDEN_BIT,
        parts.1 <= 2045,
        parts.1 > 0 ==> parts.0 >= HIDDEN_BIT,
{
    let exponent: u64 = magnitude / HIDDEN_BIT;
    let fraction: u64 = magnitude % HIDDEN_BIT;
    proof {
        lemma_pow2_zero(fraction as nat);
    }
    if exponent == 0 {
        (fraction, 0)
    } else {
        (HIDDEN_BIT + fraction, (exponent - 1) as u32)
    }
}

/// A larger magnitude stands for a larger value.
pub proof fn lemma_units_increase(a: nat, b: nat)
    requires
        a < b,
    ensures
        units(a) < units(b),
{
    let h = HIDDEN_BIT as nat;
    let ea = a / h;
    let fa = a % h;
    let eb = b / h;
    let fb = b % h;
    if ea == eb {
        if ea > 0 {
            lemma_pow2_pos((ea - 1) as nat);
            assert((h + fa) * pow2((ea - 1) as nat) < (h + fb) * pow2((ea - 1) as nat))
                by (nonlinear_arith)
                requires
                    fa < fb,
                    pow2((ea - 1) as nat) > 0,
            ;
        }
    } else {
        assert(ea < eb);
        lemma_pow2_pos((eb - 1) as nat);
        assert((h + fb) * pow2((eb - 1) as nat) >= h * pow2((eb - 1) as nat)) by (nonlinear_arith)
            requires
                fb >= 0,
        ;
        if ea == 0 {
            assert(h * pow2((eb - 1) as nat) >= h) by (nonlinear_arith)
                requires
                    pow2((eb - 1) as nat) >= 1,
            ;
        } else {
            lemma_pow2_pos((ea - 1) as nat);
            assert((h + fa) * pow2((ea - 1) as nat) < h * (2 * pow2((ea - 1) as nat)))
                by (nonlinear_arith)
                requires
                    fa < h,
                    pow2((ea - 1) as nat) > 0,
            ;
            lemma_pow2_unfold(ea);
            if ea < eb - 1 {
                vstd::arithmetic::power2::lemma_pow2_strictly_increases(ea, (eb - 1) as nat);
            }
            assert(h * (2 * pow2((ea - 1) as nat)) <= h * pow2((eb - 1) as nat))
                by (nonlinear_arith)
                requires
                    2 * pow2((ea - 1) as nat) <= pow2((eb - 1) as nat),
            ;
        }
    }
}

/// Doubling both sides of a ratio changes nothing.
proof fn lemma_nearest_doubled(n: nat, d: nat)
    requires
        d > 0,
    ensures
        nearest(2 * n, 2 * d) == nearest(n, d),
    decreases n - d,
{
    let h2 = 2 * HIDDEN_BIT;
    if n < d * h2 {
        assert(2 * n < (2 * d) * h2) by (nonlinear_arith)
            requires
                n < d * h2,
        ;
        let q = n / d;
        let r = n % d;
        lemma_fundamental_div_mod(n as int, d as int);
        assert(2 * n == q * (2 * d) + 2 * r) by (nonlinear_arith)
            requires
                n == d * q + r,
        ;
        lemma_fundamental_div_mod_converse(2 * n as int, 2 * d as int, q as int, 2 * r as int);
    } else {
        assert(2 * n >= (2 * d) * h2 && n >= 2 * d) by (nonlinear_arith)
            requires
                n >= d * h2,
                d > 0,
                h2 >= 2,
        ;
        lemma_nearest_doubled(n, 2 * d);
    }
}

/// A magnitude is the nearest one to its own value.
pub proof fn lemma_nearest_of_units(magnitude: nat)
    ensures
        nearest(units(magnitude), 1) == magnitude,
    decreases magnitude,
{
    let h = HIDDEN_BIT as nat;
    let exponent = magnitude / h;
    let fraction = magnitude % h;
    vstd::arithmetic::power2::lemma2_to64();
    if exponent >= 2 {
        let below = (magnitude - h) as nat;
        assert(below / h == exponent - 1 && below % h == fraction);
        lemma_pow2_unfold((exponent - 1) as nat);
        let p = pow2((exponent - 2) as nat);
        lemma_pow2_pos((exponent - 2) as nat);
        assert((h + fraction) * (2 * p) == 2 * ((h + fraction) * p)) by (nonlinear_arith);
        assert(units(magnitude) == 2 * units(below));
        assert((h + fraction) * (2 * p) >= h * 2) by (nonlinear_arith)
            requires
                p >= 1,
                fraction >= 0,
        ;
        lemma_nearest_of_units(below);
        lemma_nearest_doubled(units(below), 1);
    } else {
        lemma_units_small(magnitude);
    }
}

/// A value with at most 53 significant bits is met exactly.
pub proof fn lemma_nearest_exact(m: nat, k: nat)
    requires
        m < 2 * HIDDEN_BIT,
    ensures
        units(nearest(m * pow2(k), 1)) == m * pow2(k),
    decreases k,
{
    let h = HIDDEN_BIT as nat;
    let n = m * pow2(k);
    vstd::arithmetic::power2::lemma2_to64();
    if n < 2 * h {
        assert(nearest(n, 1) == n);
        lemma_units_small(n);
    } else {
        lemma_pow2_zero(m);
        assert(k > 0);
        lemma_pow2_unfold(k);
        let half = m * pow2((k - 1) as nat);
        assert(n == 2 * half) by (nonlinear_arith)
            requires
                n == m * pow2(k),
                half == m * pow2((k - 1) as nat),
                pow2(k) == 2 * pow2((k - 1) as nat),
        ;
        lemma_nearest_exact(m, (k - 1) as nat);
        lemma_nearest_doubled(half, 1);
        let y = nearest(half, 1);
        assert(nearest(n, 1) == h + y);
        assert(units(y) == half);
        assert(y >= h) by {
            if y < h {
                assert(units(y) == y);
            }
        }
        let e = y / h;
        let f = y % h;
        assert((h + y) / h == e + 1 && (h + y) % h == f);
        lemma_pow2_unfold(e);
        assert((h + f) * (2 * pow2((e - 1) as nat)) == 2 * ((h + f) * pow2((e - 1) as nat)))
            by (nonlinear_arith);
    }
}

/// The nearest whole number to a ratio is at least every whole number that the
/// ratio reaches, and at most every one that it does not pass.
proof fn lemma_half_even_between(n: nat, d: nat, k: nat)
    requires
        d > 0,
    ensures
        n >= d * k ==> half_even(n, d) >= k,
        n <= d * k ==> half_even(n, d) <= k,
{
    let q = n / d;
    let r = n % d;
    lemma_fundamental_div_mod(n as int, d as int);
    if n >= d * k && q < k {
        assert(d * q + r < d * k) by (nonlinear_arith)
            requires
                q + 1 <= k,
                0 <= r < d,
        ;
    }
    if n <= d * k {
        if q >= k {
            assert(d * q >= d * k && (q > k ==> d * q > d * k)) by (nonlinear_arith)
                requires
                    q >= k,
                    d > 0,
            ;
        }
    }
}

/// A larger ratio with the same denominator does not round to a smaller whole number.
proof fn lemma_half_even_grows(a: nat, b: nat, d: nat)
    requires
        d > 0,
        a <= b,
    ensures
        half_even(a, d) <= half_even(b, d),
{
    let (qa, ra) = (a / d, a % d);
    let (qb, rb) = (b / d, b % d);
    lemma_fundamental_div_mod(a as int, d as int);
    lemma_fundamental_div_mod(b as int, d as int);
    assert(qa <= qb) by (nonlinear_arith)
        requires
            d * qa + ra <= d * qb + rb,
            0 <= ra < d,
            0 <= rb < d,
    ;
    if qa == qb {
        assert(ra <= rb) by (nonlinear_arith)
            requires
                d * qa + ra <= d * qb + rb,
                qa == qb,
        ;
    }
}

/// A ratio that reaches a whole number up to 2^53 rounds to at least that.
proof fn lemma_nearest_reaches(n: nat, d: nat, k: nat)
    requires
        d > 0,
        n >= d * k,
        k <= 2 * HIDDEN_BIT,
    ensures
        nearest(n, d) >= k,
    decreases n - d,
{
    let h = HIDDEN_BIT as nat;
    if n < d * (2 * h) {
        lemma_half_even_between(n, d, k);
    } else {
        assert(n >= (2 * d) * h && n >= 2 * d) by (nonlinear_arith)
            requires
                n >= d * (2 * h),
                d > 0,
                h >= 1,
        ;
        lemma_nearest_reaches(n, 2 * d, h);
    }
}

proof fn lemma_nearest_grows(a: nat, b: nat, d: nat)
    requires
        d > 0,
        a <= b,
    ensures
        nearest(a, d) <= nearest(b, d),
    decreases b - d,
{
    let h = HIDDEN_BIT as nat;
    if b < d * (2 * h) {
        lemma_half_even_grows(a, b, d);
    } else {
        assert(b >= (2 * d) * h && b >= 2 * d) by (nonlinear_arith)
            requires
                b >= d * (2 * h),
                d > 0,
                h >= 1,
        ;
        if a < d * (2 * h) {
            lemma_half_even_between(a, d, 2 * h);
            lemma_nearest_reaches(b, 2 * d, h);
        } else {
            lemma_nearest_grows(a, b, 2 * d);
        }
    }
}

/// Multiplying both sides of a ratio changes nothing.
pub proof fn lemma_nearest_scaled(n: nat, d: nat, c: nat)
    requires
        d > 0,
        c > 0,
    ensures
        nearest(c * n, c * d) == nearest(n, d),
        c * d > 0,
    decreases n - d,
{
    let h2 = 2 * HIDDEN_BIT as nat;
    assert(c * d > 0) by (nonlinear_arith)
        requires
            d > 0,
            c > 0,
    ;
    if n < d * h2 {
        assert(c * n < (c * d) * h2) by (nonlinear_arith)
            requires
                n < d * h2,
                c > 0,
        ;
        let q = n / d;
        let r = n % d;
        lemma_fundamental_div_mod(n as int, d as int);
        assert(c * n == q * (c * d) + c * r) by (nonlinear_arith)
            requires
                n == d * q + r,
        ;
        assert(0 <= c * r < c * d) by (nonlinear_arith)
            requires
                0 <= r < d,
                c > 0,
        ;
        lemma_fundamental_div_mod_converse(
            (c * n) as int,
            (c * d) as int,
            q as int,
            (c * r) as int,
        );
        assert(2 * (c * r) < c * d <==> 2 * r < d) by (nonlinear_arith)
            requires
                c > 0,
        ;
        assert(2 * (c * r) == c * d <==> 2 * r == d) by (nonlinear_arith)
            requires
                c > 0,
        ;
    } else {
        assert(c * n >= (c * d) * h2 && n >= 2 * d) by (nonlinear_arith)
            requires
                n >= d * h2,
                d > 0,
                c > 0,
                h2 >= 2,
        ;
        lemma_nearest_scaled(n, 2 * d, c);
        assert(c * (2 * d) == 2 * (c * d)) by (nonlinear_arith);
    }
}

/// Rounding keeps the order: a larger ratio does not round to a smaller number.
pub proof fn law_rounding_keeps_order(n: nat, d: nat, m: nat, e: nat)
    requires
        d > 0,
        e > 0,
        n * e <= m * d,
    ensures
        nearest(n, d) <= nearest(m, e),
        rounded(n, d) <= rounded(m, e),
{
    lemma_nearest_scaled(n, d, e);
    lemma_nearest_scaled(m, e, d);
    assert(e * n == n * e && d * m == m * d && e * d == d * e) by (nonlinear_arith);
    lemma_nearest_grows(e * n, d * m, e * d);
}

/// The distance of two whole numbers.
pub open spec fn distance(a: int, b: int) -> int {
    if a <= b {
        b - a
    } else {
        a - b
    }
}

/// No whole number is nearer to a ratio than the one it rounds to.
pub proof fn lemma_half_even_nearest(n: nat, d: nat, k: nat)
    requires
        d > 0,
    ensures
        distance(n as int, (d * half_even(n, d)) as int) <= distance(n as int, (d * k) as int),
{
    let q = n / d;
    let r = n % d;
    lemma_fundamental_div_mod(n as int, d as int);
    assert(d * (q + 1) == d * q + d) by (nonlinear_arith);
    if k <= q {
        assert(d * k <= d * q) by (nonlinear_arith)
            requires
                k <= q,
        ;
    } else {
        assert(d * k >= d * (q + 1)) by (nonlinear_arith)
            requires
                k >= q + 1,
        ;
    }
}

/// Adding one to the exponent doubles the value.
pub proof fn lemma_units_step(y: nat)
    requires
        y >= HIDDEN_BIT,
    ensures
        units(HIDDEN_BIT as nat + y) == 2 * units(y),
{
    let h = HIDDEN_BIT as nat;
    let e = y / h;
    let f = y % h;
    assert((h + y) / h == e + 1 && (h + y) % h == f);
    lemma_pow2_unfold(e);
    assert((h + f) * (2 * pow2((e - 1) as nat)) == 2 * ((h + f) * pow2((e - 1) as nat)))
        by (nonlinear_arith);
}

/// No magnitude is nearer to a ratio than the one it rounds to.
pub proof fn law_nearest_is_nearest(n: nat, d: nat, other: nat)
    requires
        d > 0,
    ensures
        distance(n as int, (d * units(nearest(n, d))) as int) <= distance(
            n as int,
            (d * units(other)) as int,
        ),
    decreases n - d,
{
    let h = HIDDEN_BIT as nat;
    if n < d * (2 * h) {
        let q = half_even(n, d);
        lemma_half_even_between(n, d, 2 * h);
        if q < 2 * h {
            lemma_units_small(q);
        } else {
            lemma_units_small(h);
            lemma_units_step(h);
        }
        lemma_half_even_nearest(n, d, units(other));
    } else {
        assert(n >= (2 * d) * h && n >= 2 * d) by (nonlinear_arith)
            requires
                n >= d * (2 * h),
                d > 0,
                h >= 1,
        ;
        let y = nearest(n, 2 * d);
        lemma_nearest_reaches(n, 2 * d, h);
        lemma_units_step(y);
        assert(d * (2 * units(y)) == (2 * d) * units(y)) by (nonlinear_arith);
        if other >= 2 * h {
            let below = (other - h) as nat;
            law_nearest_is_nearest(n, 2 * d, below);
            lemma_units_step(below);
            assert(d * (2 * units(below)) == (2 * d) * units(below)) by (nonlinear_arith);
        } else {
            law_nearest_is_nearest(n, 2 * d, h);
            lemma_units_small(h);
            lemma_units_small(other);
            assert(d * other <= (2 * d) * h && (2 * d) * h <= n) by (nonlinear_arith)
                requires
                    other < 2 * h,
                    n >= (2 * d) * h,
            ;
        }
    }
}

/// A ratio of at most 2^(53 + e) units is rounded by at most 2^e units.
pub proof fn law_rounding_error(n: nat, d: nat, e: nat)
    requires
        d > 0,
        n <= d * (2 * HIDDEN_BIT * pow2(e)),
    ensures
        distance(n as int, (d * units(nearest(n, d))) as int) <= d * pow2(e),
    decreases e,
{
    let h = HIDDEN_BIT as nat;
    lemma_pow2_pos(e);
    if n < d * (2 * h) {
        let q = half_even(n, d);
        lemma_half_even_between(n, d, 2 * h);
        if q < 2 * h {
            lemma_units_small(q);
        } else {
            lemma_units_small(h);
            lemma_units_step(h);
        }
        let whole = n / d;
        let r = n % d;
        lemma_fundamental_div_mod(n as int, d as int);
        assert(d * (whole + 1) == d * whole + d) by (nonlinear_arith);
        assert(d <= d * pow2(e)) by (nonlinear_arith)
            requires
                pow2(e) >= 1,
        ;
    } else {
        assert(n >= (2 * d) * h && n >= 2 * d) by (nonlinear_arith)
            requires
                n >= d * (2 * h),
                d > 0,
                h >= 1,
        ;
        let y = nearest(n, 2 * d);
        lemma_nearest_reaches(n, 2 * d, h);
        lemma_units_step(y);
        assert(d * (2 * units(y)) == (2 * d) * units(y)) by (nonlinear_arith);
        if e == 0 {
            lemma_pow2_zero(1);
            assert(n == (2 * d) * h) by (nonlinear_arith)
                requires
                    n <= d * (2 * h * pow2(0)),
                    pow2(0) == 1,
                    n >= (2 * d) * h,
            ;
            law_nearest_is_nearest(n, 2 * d, h);
            lemma_units_small(h);
        } else {
            lemma_pow2_unfold(e);
            let half = pow2((e - 1) as nat);
            assert(d * (2 * h * (2 * half)) == (2 * d) * (2 * h * half)) by (nonlinear_arith);
            assert(d * (2 * half) == (2 * d) * half) by (nonlinear_arith);
            law_rounding_error(n, 2 * d, (e - 1) as nat);
        }
    }
}

} // verus!
