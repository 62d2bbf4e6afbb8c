//! The operations on binary64 numbers.
use crate::double::{
    difference, from_int, from_nat, one_in_units, opposite, product, quotient, single_units, sum,
    to_byte, to_int32, whole, widened, Double, NAN_BITS,
};
use crate::rounding::{
    assemble, lemma_nearest_of_units, lemma_truncates_exact, lemma_truncates_ratio,
    lemma_units_increase, places, rounded, split, truncates, units, HIDDEN_BIT, INFINITE_MAGNITUDE,
};
use vstd::arithmetic::div_mod::{
    lemma_div_multiples_vanish, lemma_fundamental_div_mod, lemma_fundamental_div_mod_converse,
};
use vstd::arithmetic::power2::{
    lemma2_to64, lemma2_to64_rest, lemma_pow2_adds, lemma_pow2_pos, lemma_pow2_strictly_increases,
    lemma_pow2_unfold, pow2,
};
use vstd::prelude::*;

verus! {

/// 2^k.
fn power(k: u32) -> (p: u128)
    requires
        k < 128,
    ensures
        p == pow2(k as nat),
        p > 0,
{
    let mut p: u128 = 1;
    let mut i: u32 = 0;
    proof {
        lemma2_to64();
        lemma2_to64_rest();
        lemma_pow2_adds(63, 64);
    }
    while i < k
        invariant
            i <= k < 128,
            p == pow2(i as nat),
            p > 0,
            pow2(127) == 0x8000_0000_0000_0000_0000_0000_0000_0000int,
        decreases k - i,
    {
        proof {
            lemma_pow2_unfold((i + 1) as nat);
            if i + 1 < 127 {
                lemma_pow2_strictly_increases((i + 1) as nat, 127);
            }
        }
        p = p * 2;
        i = i + 1;
    }
    p
}

/// The value of a split magnitude against the scale of the rounding.
proof fn lemma_scaled(m: nat, e: nat, t: nat)
    requires
        t == e + 1 + places(),
    ensures
        2 * (m * pow2(e)) * pow2(places()) == m * pow2(t),
{
    lemma_pow2_adds(e + 1, places());
    lemma_pow2_unfold(e + 1);
    assert(2 * (m * pow2(e)) * pow2(places()) == m * (2 * pow2(e) * pow2(places())))
        by (nonlinear_arith);
}

/// The sum of two magnitudes, the second no larger.
#[verifier::rlimit(30)]
fn sum_of_magnitudes(a: u64, b: u64) -> (r: u64)
    requires
        b <= a < INFINITE_MAGNITUDE,
    ensures
        r == rounded((units(a as nat) + units(b as nat)) as nat, 1),
{
    let (ma, ea): (u64, u32) = split(a);
    let (mb, eb): (u64, u32) = split(b);
    let ghost n = (units(a as nat) + units(b as nat)) as nat;
    proof {
        lemma_larger_exponent(a as nat, b as nat, ma as nat, ea as nat, mb as nat, eb as nat);
    }
    let gap: u32 = ea - eb;
    if gap <= 64 {
        let p: u128 = power(gap);
        proof {
            lemma2_to64();
            if gap < 64 {
                lemma_pow2_strictly_increases(gap as nat, 64);
            }
            assert(ma * p <= 0x1f_ffff_ffff_ffff * 0x1_0000_0000_0000_0000) by (nonlinear_arith)
                requires
                    ma <= 0x1f_ffff_ffff_ffff,
                    p <= 0x1_0000_0000_0000_0000,
            ;
        }
        let m: u128 = ma as u128 * p + mb as u128;
        proof {
            lemma_pow2_adds(gap as nat, eb as nat);
            assert(n == m * pow2(eb as nat)) by (nonlinear_arith)
                requires
                    n == ma * pow2(ea as nat) + mb * pow2(eb as nat),
                    pow2(ea as nat) == p * pow2(eb as nat),
                    m == ma * p + mb,
            ;
            lemma_scaled(m as nat, eb as nat, (eb + 1 + places()) as nat);
            lemma_truncates_exact(n, 1, m as nat, eb + 1);
        }
        assemble(m, eb as i32 + 1, false, Ghost(n), Ghost(1))
    } else {
        let cut: u32 = gap - 64;
        let base: u128 = ma as u128 * 0x1_0000_0000_0000_0000;
        let (kept, sticky): (u64, bool) = cut_down(mb, cut);
        proof {
            lemma_wide_gap(n as int, ma as nat, ea as nat, mb as nat, eb as nat, cut as nat, mb as int);
            let c = pow2(cut as nat);
            lemma_pow2_pos(cut as nat);
            lemma_fundamental_div_mod(mb as int, c as int);
            assert(base * c + mb == (base + kept) * c + mb as nat % c) by (nonlinear_arith)
                requires
                    mb == c * kept + mb as nat % c,
            ;
            lemma_fundamental_div_mod_converse(
                base * c + mb,
                c as int,
                base + kept,
                (mb as nat % c) as int,
            );
        }
        let m: u128 = base + kept as u128;
        assemble(m, ea as i32 - 63, sticky, Ghost(n), Ghost(1))
    }
}

/// The difference of two magnitudes, the second no larger.
#[verifier::rlimit(30)]
fn difference_of_magnitudes(a: u64, b: u64) -> (r: u64)
    requires
        b < a < INFINITE_MAGNITUDE,
    ensures
        r == rounded((units(a as nat) - units(b as nat)) as nat, 1),
{
    let (ma, ea): (u64, u32) = split(a);
    let (mb, eb): (u64, u32) = split(b);
    let ghost n = (units(a as nat) - units(b as nat)) as nat;
    proof {
        lemma_units_increase(b as nat, a as nat);
        lemma_larger_exponent(a as nat, b as nat, ma as nat, ea as nat, mb as nat, eb as nat);
    }
    let gap: u32 = ea - eb;
    if gap <= 64 {
        let p: u128 = power(gap);
        proof {
            lemma2_to64();
            if gap < 64 {
                lemma_pow2_strictly_increases(gap as nat, 64);
            }
            assert(ma * p <= 0x1f_ffff_ffff_ffff * 0x1_0000_0000_0000_0000) by (nonlinear_arith)
                requires
                    ma <= 0x1f_ffff_ffff_ffff,
                    p <= 0x1_0000_0000_0000_0000,
            ;
            lemma_pow2_adds(gap as nat, eb as nat);
            lemma_pow2_pos(eb as nat);
            assert(ma * p >= mb) by (nonlinear_arith)
                requires
                    ma * pow2(ea as nat) > mb * pow2(eb as nat),
                    pow2(ea as nat) == p * pow2(eb as nat),
                    pow2(eb as nat) > 0,
            ;
        }
        let m: u128 = ma as u128 * p - mb as u128;
        proof {
            assert(n == m * pow2(eb as nat)) by (nonlinear_arith)
                requires
                    n == ma * pow2(ea as nat) - mb * pow2(eb as nat),
                    pow2(ea as nat) == p * pow2(eb as nat),
                    m == ma * p - mb,
            ;
            lemma_scaled(m as nat, eb as nat, (eb + 1 + places()) as nat);
            lemma_truncates_exact(n, 1, m as nat, eb + 1);
        }
        assemble(m, eb as i32 + 1, false, Ghost(n), Ghost(1))
    } else {
        let cut: u32 = gap - 64;
        let base: u128 = ma as u128 * 0x1_0000_0000_0000_0000;
        let (kept, sticky): (u64, bool) = cut_down(mb, cut);
        let borrow: u128 = if sticky { 1 } else { 0 };
        proof {
            assert(mb * pow2(eb as nat) == -((-mb) * pow2(eb as nat))) by (nonlinear_arith);
            lemma_wide_gap(n as int, ma as nat, ea as nat, mb as nat, eb as nat, cut as nat, -mb);
            let c = pow2(cut as nat);
            lemma_pow2_pos(cut as nat);
            lemma_fundamental_div_mod(mb as int, c as int);
            let r = mb as nat % c;
            let q = base - kept - borrow;
            let s = if sticky { c - r } else { 0 };
            assert(base * c - mb == q * c + s) by (nonlinear_arith)
                requires
                    mb == c * kept + r,
                    q == base - kept - borrow,
                    sticky ==> s == c - r && borrow == 1,
                    !sticky ==> s == 0 && borrow == 0 && r == 0,
            ;
            lemma_fundamental_div_mod_converse(base * c - mb, c as int, q, s);
        }
        let m: u128 = base - kept as u128 - borrow;
        assemble(m, ea as i32 - 63, sticky, Ghost(n), Ghost(1))
    }
}

/// `m / 2^cut` and whether anything is left over.
fn cut_down(m: u64, cut: u32) -> (r: (u64, bool))
    requires
        m < 2 * HIDDEN_BIT,
    ensures
        r.0 == m as nat / pow2(cut as nat),
        r.1 == (m as nat % pow2(cut as nat) != 0),
        r.0 <= m,
{
    if cut >= 53 {
        proof {
            lemma2_to64_rest();
            if cut > 53 {
                lemma_pow2_strictly_increases(53, cut as nat);
            }
            assert(m < pow2(cut as nat));
            vstd::arithmetic::div_mod::lemma_basic_div(m as int, pow2(cut as nat) as int);
            vstd::arithmetic::div_mod::lemma_small_mod(m as nat, pow2(cut as nat));
        }
        (0, m != 0)
    } else {
        let p: u128 = power(cut);
        let q: u128 = m as u128 / p;
        proof {
            assert(q <= m) by {
                vstd::arithmetic::div_mod::lemma_div_is_ordered_by_denominator(
                    m as int,
                    1,
                    p as int,
                );
            }
        }
        (q as u64, m as u128 % p != 0)
    }
}

/// A larger magnitude has no smaller an exponent.
proof fn lemma_larger_exponent(a: nat, b: nat, ma: nat, ea: nat, mb: nat, eb: nat)
    requires
        b <= a,
        units(a) == ma * pow2(ea),
        units(b) == mb * pow2(eb),
        ma < 2 * HIDDEN_BIT,
        mb < 2 * HIDDEN_BIT,
        ea > 0 ==> ma >= HIDDEN_BIT,
        eb > 0 ==> mb >= HIDDEN_BIT,
    ensures
        ea >= eb,
{
    if b < a {
        lemma_units_increase(b, a);
    }
    if ea < eb {
        lemma_pow2_unfold((ea + 1) as nat);
        if ea + 1 < eb {
            lemma_pow2_strictly_increases((ea + 1) as nat, eb);
        }
        lemma_pow2_pos(ea);
        assert(mb * pow2(eb) >= HIDDEN_BIT * (2 * pow2(ea))) by (nonlinear_arith)
            requires
                mb >= HIDDEN_BIT,
                pow2(eb) >= 2 * pow2(ea),
        ;
        assert(HIDDEN_BIT * (2 * pow2(ea)) > ma * pow2(ea)) by (nonlinear_arith)
            requires
                ma < 2 * HIDDEN_BIT,
                pow2(ea) > 0,
        ;
    }
}

/// Two magnitudes more than 64 places apart, on the scale that leaves 64 places
/// below the larger one.
proof fn lemma_wide_gap(n: int, ma: nat, ea: nat, mb: nat, eb: nat, cut: nat, small: int)
    requires
        ea == eb + 64 + cut,
        n == ma * pow2(ea) + small * pow2(eb),
        n >= 0,
    ensures
        ma * 0x1_0000_0000_0000_0000 * pow2(cut) + small >= 0,
        ({
            let top = (ma * 0x1_0000_0000_0000_0000 * pow2(cut) + small) as nat;
            truncates(n as nat, 1, top / pow2(cut), ea - 63, top % pow2(cut) != 0)
        }),
{
    lemma2_to64();
    lemma_pow2_adds(64, cut);
    lemma_pow2_adds(64 + cut, eb);
    lemma_pow2_pos(eb);
    lemma_pow2_pos(cut);
    let c = pow2(cut);
    let low = pow2(eb);
    let top = ma * 0x1_0000_0000_0000_0000 * c + small;
    assert(n == top * low) by (nonlinear_arith)
        requires
            n == ma * pow2(ea) + small * low,
            pow2(ea) == 0x1_0000_0000_0000_0000 * c * low,
            top == ma * 0x1_0000_0000_0000_0000 * c + small,
    ;
    assert(top >= 0) by (nonlinear_arith)
        requires
            top * low >= 0,
            low > 0,
    ;
    let t = (eb + 1 + places()) as nat;
    lemma_scaled(top as nat, eb, t);
    lemma_pow2_pos(t);
    let e = ea - 63;
    assert((e + places()) as nat == cut + t);
    lemma_pow2_adds(cut, t);
    assert(1 * pow2(cut + t) == c * pow2(t));
    lemma_truncates_ratio(n as nat, 1, top as nat, c, pow2(t), e);
}

/// The product of two magnitudes.
fn product_of_magnitudes(a: u64, b: u64) -> (r: u64)
    requires
        a < INFINITE_MAGNITUDE,
        b < INFINITE_MAGNITUDE,
    ensures
        r == rounded(units(a as nat) * units(b as nat), one_in_units()),
{
    let (ma, ea): (u64, u32) = split(a);
    let (mb, eb): (u64, u32) = split(b);
    let ghost n = units(a as nat) * units(b as nat);
    proof {
        assert(ma * mb <= 0x1f_ffff_ffff_ffff * 0x1f_ffff_ffff_ffff) by (nonlinear_arith)
            requires
                ma <= 0x1f_ffff_ffff_ffff,
                mb <= 0x1f_ffff_ffff_ffff,
        ;
    }
    let m: u128 = ma as u128 * mb as u128;
    let e: i32 = ea as i32 + eb as i32 - 1073;
    proof {
        let both = (ea + eb) as nat;
        lemma_pow2_adds(ea as nat, eb as nat);
        assert(n == m * pow2(both)) by (nonlinear_arith)
            requires
                n == (ma * pow2(ea as nat)) * (mb * pow2(eb as nat)),
                m == ma * mb,
                pow2(both) == pow2(ea as nat) * pow2(eb as nat),
        ;
        let t = (both + 1 + places()) as nat;
        lemma_scaled(m as nat, both, t);
        lemma_pow2_pos(1074);
        lemma_pow2_adds(1074, (e + places()) as nat);
        lemma_truncates_exact(n, one_in_units(), m as nat, e as int);
    }
    assemble(m, e, false, Ghost(n), Ghost(one_in_units()))
}

/// The significand moved up to its full width.
fn normalized(m: u64, e: u32) -> (r: (u64, i32))
    requires
        0 < m < 2 * HIDDEN_BIT,
        e <= 2045,
    ensures
        HIDDEN_BIT <= r.0 < 2 * HIDDEN_BIT,
        -52 <= r.1 <= e,
        m * pow2(52 + e as nat) == r.0 * pow2((52 + r.1) as nat),
{
    let mut top: u64 = m;
    let mut shift: i32 = 0;
    proof {
        lemma2_to64();
        lemma2_to64_rest();
        vstd::arithmetic::mul::lemma_mul_basics(m as int);
    }
    while top < HIDDEN_BIT
        invariant
            0 < m,
            0 < top < 2 * HIDDEN_BIT,
            0 <= shift <= 52,
            top == m * pow2(shift as nat),
            pow2(52) == HIDDEN_BIT,
        decreases 52 - shift,
    {
        proof {
            lemma_pow2_unfold((shift + 1) as nat);
            assert(m * (2 * pow2(shift as nat)) == 2 * (m * pow2(shift as nat)))
                by (nonlinear_arith);
            if shift == 52 {
                assert(m * pow2(52) >= pow2(52)) by (nonlinear_arith)
                    requires
                        m >= 1,
                        pow2(52) >= 0,
                ;
            }
        }
        top = top * 2;
        shift = shift + 1;
    }
    proof {
        let rest = (52 + e - shift) as nat;
        lemma_pow2_adds(shift as nat, rest);
        assert(m * (pow2(shift as nat) * pow2(rest)) == (m * pow2(shift as nat)) * pow2(rest))
            by (nonlinear_arith);
    }
    (top, e as i32 - shift)
}

/// The quotient of two magnitudes.
fn quotient_of_magnitudes(a: u64, b: u64) -> (r: u64)
    requires
        a < INFINITE_MAGNITUDE,
        0 < b < INFINITE_MAGNITUDE,
    ensures
        r == rounded(units(a as nat) * one_in_units(), units(b as nat)),
{
    let (ma, ea): (u64, u32) = split(a);
    let (mb, eb): (u64, u32) = split(b);
    let ghost n = units(a as nat) * one_in_units();
    let ghost d = units(b as nat);
    proof {
        lemma_units_increase(0, b as nat);
        lemma_pow2_pos(eb as nat);
    }
    if ma == 0 {
        proof {
            assert(n == 0) by (nonlinear_arith)
                requires
                    n == (ma * pow2(ea as nat)) * one_in_units(),
                    ma == 0,
            ;
            let scale = pow2(places());
            let unit = d * scale;
            assert(2 * n * scale == 0 * unit) by (nonlinear_arith)
                requires
                    n == 0,
            ;
            lemma_truncates_exact(n, d, 0, 0);
        }
        return assemble(0, 0, false, Ghost(n), Ghost(d));
    }
    proof {
        assert(mb > 0) by (nonlinear_arith)
            requires
                mb * pow2(eb as nat) > 0,
                mb >= 0,
        ;
    }
    let (top, ta): (u64, i32) = normalized(ma, ea);
    let wide: u128 = top as u128 * 0x1000_0000_0000_0000;
    let q: u128 = wide / (mb as u128);
    let sticky: bool = wide % (mb as u128) != 0;
    let e: i32 = ta + 1015 - eb as i32;
    proof {
        lemma2_to64_rest();
        let k = places();
        let t = (ta + 1015 + k) as nat;
        lemma_pow2_pos(t);
        // The numerator is `wide` times 2^t.
        let high = (1022 + 1 + k) as nat;
        lemma_pow2_adds(52 + ea as nat, 1022);
        lemma_pow2_adds(ea as nat, 1074);
        lemma_pow2_adds((52 + ta) as nat, high);
        lemma_pow2_adds(1022 + 1, k);
        lemma_pow2_unfold(1023);
        lemma_pow2_adds(60, t);
        let up = pow2((52 + ta) as nat);
        assert(n == ma * pow2(52 + ea as nat) * pow2(1022)) by (nonlinear_arith)
            requires
                n == (ma * pow2(ea as nat)) * pow2(1074),
                pow2((ea + 1074) as nat) == pow2(ea as nat) * pow2(1074),
                pow2((52 + ea + 1022) as nat) == pow2(52 + ea as nat) * pow2(1022),
                pow2((ea + 1074) as nat) == pow2((52 + ea + 1022) as nat),
        ;
        assert(2 * n * pow2(k) == top * pow2(60) * pow2(t)) by (nonlinear_arith)
            requires
                n == (top * up) * pow2(1022),
                pow2(high) == (2 * pow2(1022)) * pow2(k),
                up * pow2(high) == pow2(60) * pow2(t),
        ;
        assert(2 * n * pow2(k) == wide as nat * pow2(t));
        // The denominator is `mb` times 2^t.
        lemma_pow2_adds(eb as nat, (e + k) as nat);
        assert(d * pow2((e + k) as nat) == mb as nat * pow2(t)) by (nonlinear_arith)
            requires
                d == mb * pow2(eb as nat),
                pow2(t) == pow2(eb as nat) * pow2((e + k) as nat),
        ;
        lemma_truncates_ratio(n, d, wide as nat, mb as nat, pow2(t), e as int);
        assert(q >= 0x40_0000_0000_0000) by (nonlinear_arith)
            requires
                wide >= 0x10_0000_0000_0000 * 0x1000_0000_0000_0000,
                0 < mb < 0x20_0000_0000_0000,
                q == wide as int / mb as int,
        ;
    }
    assemble(q, e, sticky, Ghost(n), Ghost(d))
}

impl Double {
    /// `self + other`.
    pub fn plus(self, other: Double) -> (r: Double)
        ensures
            r == sum(self, other),
    {
        if self.is_nan() || other.is_nan() {
            return Double { bits: NAN_BITS };
        }
        let a: u64 = self.magnitude_bits();
        let b: u64 = other.magnitude_bits();
        let na: bool = self.is_negative();
        let nb: bool = other.is_negative();
        if !self.is_finite() {
            if !other.is_finite() && na != nb {
                return Double { bits: NAN_BITS };
            }
            return self;
        }
        if !other.is_finite() {
            return other;
        }
        proof {
            lemma_zero_units();
            if a < b {
                lemma_units_increase(a as nat, b as nat);
            }
            if b < a {
                lemma_units_increase(b as nat, a as nat);
            }
            if a > 0 {
                lemma_units_increase(0, a as nat);
            }
            if b > 0 {
                lemma_units_increase(0, b as nat);
            }
        }
        if na == nb {
            if a == 0 && b == 0 {
                return Double::put_together(na, 0);
            }
            let m: u64 = if a >= b { sum_of_magnitudes(a, b) } else { sum_of_magnitudes(b, a) };
            return Double::put_together(na, m);
        }
        if a == b {
            return Double::put_together(false, 0);
        }
        if a > b {
            Double::put_together(na, difference_of_magnitudes(a, b))
        } else {
            Double::put_together(nb, difference_of_magnitudes(b, a))
        }
    }

    /// `-self`.
    pub fn negated(self) -> (r: Double)
        ensures
            r == opposite(self),
    {
        Double::put_together(!self.is_negative(), self.magnitude_bits())
    }

    /// `self - other`.
    pub fn minus(self, other: Double) -> (r: Double)
        ensures
            r == difference(self, other),
    {
        self.plus(other.negated())
    }

    /// `self * other`.
    pub fn times(self, other: Double) -> (r: Double)
        ensures
            r == product(self, other),
    {
        let negative: bool = self.is_negative() != other.is_negative();
        let a: u64 = self.magnitude_bits();
        let b: u64 = other.magnitude_bits();
        if self.is_nan() || other.is_nan() {
            Double { bits: NAN_BITS }
        } else if !self.is_finite() || !other.is_finite() {
            if a == 0 || b == 0 {
                Double { bits: NAN_BITS }
            } else {
                Double::put_together(negative, INFINITE_MAGNITUDE)
            }
        } else {
            Double::put_together(negative, product_of_magnitudes(a, b))
        }
    }

    /// `self / other`.
    pub fn divided_by(self, other: Double) -> (r: Double)
        ensures
            r == quotient(self, other),
    {
        let negative: bool = self.is_negative() != other.is_negative();
        let a: u64 = self.magnitude_bits();
        let b: u64 = other.magnitude_bits();
        if self.is_nan() || other.is_nan() {
            Double { bits: NAN_BITS }
        } else if !self.is_finite() {
            if !other.is_finite() {
                Double { bits: NAN_BITS }
            } else {
                Double::put_together(negative, INFINITE_MAGNITUDE)
            }
        } else if !other.is_finite() {
            Double::put_together(negative, 0)
        } else if b == 0 {
            if a == 0 {
                Double { bits: NAN_BITS }
            } else {
                Double::put_together(negative, INFINITE_MAGNITUDE)
            }
        } else {
            Double::put_together(negative, quotient_of_magnitudes(a, b))
        }
    }
}

/// Zero counts no units.
proof fn lemma_zero_units()
    ensures
        units(0) == 0,
{
}

/// A magnitude that counts ones: the value over one is that of the significand
/// moved by the exponent.
proof fn lemma_over_one(m: nat, e: nat)
    ensures
        e <= 1074 ==> (m * pow2(e)) / one_in_units() == m / pow2((1074 - e) as nat),
        e >= 1074 ==> m * pow2(e) == (m * pow2((e - 1074) as nat)) * one_in_units(),
        e >= 1074 ==> (m * pow2(e)) / one_in_units() == m * pow2((e - 1074) as nat),
{
    lemma_pow2_pos(1074);
    if e <= 1074 {
        let down = pow2((1074 - e) as nat);
        lemma_pow2_pos(e);
        lemma_pow2_pos((1074 - e) as nat);
        lemma_pow2_adds(e, (1074 - e) as nat);
        vstd::arithmetic::mul::lemma_mul_is_commutative(m as int, pow2(e) as int);
        vstd::arithmetic::div_mod::lemma_div_denominator(
            (pow2(e) * m) as int,
            pow2(e) as int,
            down as int,
        );
        lemma_div_multiples_vanish(m as int, pow2(e) as int);
    }
    if e >= 1074 {
        let up = pow2((e - 1074) as nat);
        lemma_pow2_adds((e - 1074) as nat, 1074);
        assert(m * (up * one_in_units()) == (m * up) * one_in_units()) by (nonlinear_arith);
        lemma_fundamental_div_mod_converse(
            (m * pow2(e)) as int,
            one_in_units() as int,
            (m * up) as int,
            0,
        );
    }
}

/// The whole part of a finite magnitude, held below 2^64.
fn whole_part_of(a: u64) -> (r: u64)
    requires
        a < INFINITE_MAGNITUDE,
    ensures
        units(a as nat) / one_in_units() <= u64::MAX ==> r == units(a as nat) / one_in_units(),
        units(a as nat) / one_in_units() > u64::MAX ==> r == u64::MAX,
{
    let (m, e): (u64, u32) = split(a);
    proof {
        lemma_over_one(m as nat, e as nat);
        lemma2_to64();
    }
    if e >= 1074 {
        let k: u32 = e - 1074;
        if k >= 12 {
            proof {
                if k > 12 {
                    lemma_pow2_strictly_increases(12, k as nat);
                }
                assert(m * pow2(k as nat) > u64::MAX) by (nonlinear_arith)
                    requires
                        m >= 0x10_0000_0000_0000,
                        pow2(k as nat) >= 0x1000,
                ;
            }
            u64::MAX
        } else {
            let p: u128 = power(k);
            proof {
                lemma_pow2_strictly_increases(k as nat, 12);
                assert(m * p <= u64::MAX) by (nonlinear_arith)
                    requires
                        m < 0x20_0000_0000_0000,
                        0 <= p <= 0x800,
                ;
            }
            (m as u128 * p) as u64
        }
    } else {
        let (kept, _rest): (u64, bool) = cut_down(m, 1074 - e);
        kept
    }
}

/// A whole number of ones as a magnitude.
fn magnitude_of_whole(v: u64) -> (r: u64)
    ensures
        r == rounded(v as nat * one_in_units(), 1),
{
    let ghost n = v as nat * one_in_units();
    proof {
        lemma_scaled(v as nat, 1074, (1075 + places()) as nat);
        lemma_truncates_exact(n, 1, v as nat, 1075);
    }
    assemble(v as u128, 1075, false, Ghost(n), Ghost(1))
}

impl Double {
    /// The nearest number to a whole one.
    pub fn from_u64(v: u64) -> (r: Double)
        ensures
            r == from_nat(v as nat),
    {
        Double::put_together(false, magnitude_of_whole(v))
    }

    /// A whole number with its sign.
    pub fn from_i32(v: i32) -> (r: Double)
        ensures
            r == from_int(v as int),
    {
        if v < 0 {
            Double::put_together(true, magnitude_of_whole((-(v as i64)) as u64))
        } else {
            Double::put_together(false, magnitude_of_whole(v as u64))
        }
    }

    /// The binary32 number with the given bit pattern.
    pub fn from_single(bits: u32) -> (r: Double)
        ensures
            r == widened(bits),
    {
        let negative: bool = bits >= 0x8000_0000;
        let magnitude: u32 = bits % 0x8000_0000;
        if magnitude > 0x7f80_0000 {
            return Double { bits: NAN_BITS };
        }
        if magnitude == 0x7f80_0000 {
            return Double::put_together(negative, INFINITE_MAGNITUDE);
        }
        let exponent: u32 = magnitude / 0x80_0000;
        let fraction: u32 = magnitude % 0x80_0000;
        let (m, e): (u32, u32) = if exponent == 0 {
            (fraction, 925)
        } else {
            (0x80_0000 + fraction, exponent + 924)
        };
        let ghost n = single_units(magnitude as nat);
        proof {
            lemma_scaled(m as nat, e as nat, (e + 1 + places()) as nat);
            lemma_truncates_exact(n, 1, m as nat, e + 1);
        }
        Double::put_together(
            negative,
            assemble(m as u128, e as i32 + 1, false, Ghost(n), Ghost(1)),
        )
    }

    /// `self` rounded to a whole number, a half going away from zero.
    pub fn round(self) -> (r: Double)
        ensures
            r == whole(self),
    {
        if !self.is_finite() {
            return self;
        }
        let negative: bool = self.is_negative();
        let a: u64 = self.magnitude_bits();
        let (m, e): (u64, u32) = split(a);
        let ghost one = one_in_units();
        let ghost w = (2 * units(a as nat) + one) / (2 * one);
        proof {
            lemma_pow2_pos(1074);
            lemma2_to64();
            lemma2_to64_rest();
        }
        if e >= 1074 {
            proof {
                lemma_over_one(m as nat, e as nat);
                let q = m * pow2((e - 1074) as nat);
                assert(2 * (q * one) + one == q * (2 * one) + one) by (nonlinear_arith);
                lemma_fundamental_div_mod_converse(
                    (2 * units(a as nat) + one) as int,
                    (2 * one) as int,
                    q,
                    one as int,
                );
                lemma_nearest_of_units(a as nat);
            }
            return self;
        }
        let shift: u32 = 1074 - e;
        proof {
            let low = pow2(e as nat);
            let s = pow2(shift as nat);
            let half = pow2((shift - 1) as nat);
            lemma_pow2_pos(e as nat);
            lemma_pow2_pos(shift as nat);
            lemma_pow2_unfold(shift as nat);
            lemma_pow2_adds(shift as nat, e as nat);
            let top = (m + half) as nat;
            lemma_fundamental_div_mod(top as int, s as int);
            let q = top / s;
            let r = top % s;
            assert(2 * (m * low) + one == q * (2 * one) + 2 * (r * low)) by (nonlinear_arith)
                requires
                    one == s * low,
                    s == 2 * half,
                    m + half == s * q + r,
            ;
            assert(0 <= 2 * (r * low) < 2 * one) by (nonlinear_arith)
                requires
                    0 <= r < s,
                    one == s * low,
                    low > 0,
            ;
            lemma_fundamental_div_mod_converse(
                (2 * units(a as nat) + one) as int,
                (2 * one) as int,
                q as int,
                (2 * (r * low)) as int,
            );
            assert(w == q);
        }
        if shift > 54 {
            proof {
                let s = pow2(shift as nat);
                let half = pow2((shift - 1) as nat);
                lemma_pow2_unfold(shift as nat);
                if shift > 55 {
                    lemma_pow2_strictly_increases(54, (shift - 1) as nat);
                }
                vstd::arithmetic::div_mod::lemma_basic_div((m + half) as int, s as int);
            }
            return Double::put_together(negative, magnitude_of_whole(0));
        }
        let p: u128 = power(shift);
        let h: u128 = power(shift - 1);
        proof {
            if shift < 54 {
                lemma_pow2_strictly_increases(shift as nat, 54);
            }
            lemma_pow2_unfold(shift as nat);
        }
        let q: u128 = (m as u128 + h) / p;
        proof {
            assert(q <= m + h) by (nonlinear_arith)
                requires
                    q == (m + h) as int / p as int,
                    p >= 1,
                    m + h >= 0,
            ;
        }
        Double::put_together(negative, magnitude_of_whole(q as u64))
    }

    /// `self as u8`.
    pub fn to_u8(self) -> (r: u8)
        ensures
            r == to_byte(self),
    {
        if self.is_nan() || self.is_negative() {
            return 0;
        }
        if !self.is_finite() {
            return 255;
        }
        let w: u64 = whole_part_of(self.magnitude_bits());
        if w >= 255 {
            255
        } else {
            w as u8
        }
    }

    /// `self as i32`.
    pub fn to_i32(self) -> (r: i32)
        ensures
            r == to_int32(self),
    {
        if self.is_nan() {
            return 0;
        }
        if !self.is_finite() {
            return if self.is_negative() { i32::MIN } else { i32::MAX };
        }
        let w: u64 = whole_part_of(self.magnitude_bits());
        if self.is_negative() {
            if w >= 0x8000_0000 {
                i32::MIN
            } else {
                (-(w as i64)) as i32
            }
        } else {
            if w >= 0x7fff_ffff {
                i32::MAX
            } else {
                w as i32
            }
        }
    }
}

} // verus!
