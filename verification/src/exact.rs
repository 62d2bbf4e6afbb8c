//! Where binary64 arithmetic on whole numbers is exact, and which order it keeps.
use crate::double::{
    at_least, difference, from_nat, less, one, one_in_units, opposite, product, quotient, signed,
    single_units, sum, to_byte, whole_part, widened, zero, Double, ONE_BITS,
};
use crate::rounding::{
    distance, law_rounding_error, law_rounding_keeps_order, lemma_nearest_exact,
    lemma_nearest_of_units, lemma_nearest_scaled, lemma_units_increase, nearest, rounded, units,
    HIDDEN_BIT, INFINITE_MAGNITUDE,
};
use vstd::arithmetic::div_mod::{lemma_div_is_ordered, lemma_fundamental_div_mod_converse};
use vstd::arithmetic::power2::{
    lemma_pow2_adds, lemma_pow2_pos, lemma_pow2_strictly_increases, pow2,
};
use vstd::prelude::*;

verus! {

/// Two magnitudes of one value are the same.
pub proof fn lemma_same_units(a: nat, b: nat)
    requires
        units(a) == units(b),
    ensures
        a == b,
{
    if a < b {
        lemma_units_increase(a, b);
    } else if b < a {
        lemma_units_increase(b, a);
    }
}

/// Magnitudes are in the order of their values.
pub proof fn lemma_units_order(a: nat, b: nat)
    ensures
        a <= b <==> units(a) <= units(b),
        a < b <==> units(a) < units(b),
{
    if a < b {
        lemma_units_increase(a, b);
    } else if b < a {
        lemma_units_increase(b, a);
    }
}

/// What is no more than 2^64 ones is finite.
pub proof fn lemma_finite(magnitude: nat, v: nat)
    requires
        units(magnitude) <= v * one_in_units(),
        v < pow2(64),
    ensures
        magnitude < INFINITE_MAGNITUDE,
{
    let infinite = INFINITE_MAGNITUDE as nat;
    assert(infinite / (HIDDEN_BIT as nat) == 2047 && infinite % (HIDDEN_BIT as nat) == 0);
    lemma_pow2_adds(64, 1074);
    lemma_pow2_strictly_increases(1138, 2046);
    lemma_pow2_pos(1074);
    lemma_pow2_pos(2046);
    assert(v * one_in_units() <= pow2(64) * pow2(1074)) by (nonlinear_arith)
        requires
            v <= pow2(64),
            one_in_units() == pow2(1074),
    ;
    assert(HIDDEN_BIT * pow2(2046) >= pow2(2046)) by (nonlinear_arith)
        requires
            HIDDEN_BIT >= 1,
    ;
    assert(units(infinite) > v * one_in_units());
    lemma_units_order(infinite, magnitude);
}

/// A whole number up to 2^53 is met exactly.
pub proof fn lemma_whole(v: nat)
    requires
        v < 2 * HIDDEN_BIT,
    ensures
        from_nat(v).finite(),
        !from_nat(v).negative(),
        from_nat(v).magnitude() == rounded(v * one_in_units(), 1),
        units(from_nat(v).magnitude()) == v * one_in_units(),
        from_nat(v).value() == v * one_in_units(),
{
    vstd::arithmetic::power2::lemma2_to64();
    lemma_nearest_exact(v, 1074);
    lemma_finite(nearest(v * one_in_units(), 1), v);
}

/// One is a whole number.
pub proof fn lemma_one()
    ensures
        one() == from_nat(1),
        zero() == from_nat(0),
        units(ONE_BITS as nat) == one_in_units(),
        one().finite(),
        !one().negative(),
{
    let bits = ONE_BITS as nat;
    assert(bits / (HIDDEN_BIT as nat) == 1023 && bits % (HIDDEN_BIT as nat) == 0);
    vstd::arithmetic::power2::lemma2_to64_rest();
    lemma_pow2_adds(52, 1022);
    assert(units(bits) == one_in_units());
    lemma_whole(1);
    lemma_same_units(bits, from_nat(1).magnitude());
    lemma_whole(0);
    assert(units(0) == 0);
    lemma_same_units(0, from_nat(0).magnitude());
}

/// The order of whole numbers.
pub proof fn lemma_whole_order(a: nat, b: nat)
    requires
        a < 2 * HIDDEN_BIT,
        b < 2 * HIDDEN_BIT,
    ensures
        less(from_nat(a), from_nat(b)) <==> a < b,
        at_least(from_nat(a), from_nat(b)) <==> a >= b,
{
    lemma_whole(a);
    lemma_whole(b);
    lemma_pow2_pos(1074);
    lemma_units_order(from_nat(a).magnitude(), from_nat(b).magnitude());
    assert(a < b <==> a * one_in_units() < b * one_in_units()) by (nonlinear_arith)
        requires
            one_in_units() > 0,
    ;
}

/// Sums of whole numbers.
pub proof fn lemma_whole_sum(a: nat, b: nat)
    requires
        a + b < 2 * HIDDEN_BIT,
    ensures
        sum(from_nat(a), from_nat(b)) == from_nat(a + b),
{
    lemma_whole(a);
    lemma_whole(b);
    lemma_one();
    lemma_pow2_pos(1074);
    assert(a * one_in_units() + b * one_in_units() == (a + b) * one_in_units())
        by (nonlinear_arith);
    if a + b > 0 {
        assert((a + b) * one_in_units() > 0) by (nonlinear_arith)
            requires
                a + b > 0,
                one_in_units() > 0,
        ;
    }
}

/// Differences of whole numbers.
pub proof fn lemma_whole_difference(a: nat, b: nat)
    requires
        b <= a < 2 * HIDDEN_BIT,
    ensures
        difference(from_nat(a), from_nat(b)) == from_nat((a - b) as nat),
{
    lemma_whole(a);
    lemma_whole(b);
    lemma_one();
    lemma_pow2_pos(1074);
    let y = opposite(from_nat(b));
    assert(y.negative() && y.magnitude() == from_nat(b).magnitude());
    assert(a * one_in_units() - b * one_in_units() == (a - b) * one_in_units())
        by (nonlinear_arith);
    if a > b {
        assert((a - b) * one_in_units() > 0) by (nonlinear_arith)
            requires
                a - b > 0,
                one_in_units() > 0,
        ;
    }
}

/// Products of whole numbers.
pub proof fn lemma_whole_product(a: nat, b: nat)
    requires
        a < 2 * HIDDEN_BIT,
        b < 2 * HIDDEN_BIT,
    ensures
        product(from_nat(a), from_nat(b)) == from_nat(a * b),
{
    lemma_whole(a);
    lemma_whole(b);
    lemma_pow2_pos(1074);
    let u = one_in_units();
    lemma_nearest_scaled((a * b) * u, 1, u);
    assert((a * u) * (b * u) == u * ((a * b) * u)) by (nonlinear_arith);
    assert(u * 1 == u);
}

/// A quotient that is whole.
pub proof fn lemma_whole_quotient(q: nat, b: nat)
    requires
        b > 0,
        q * b < 2 * HIDDEN_BIT,
        b < 2 * HIDDEN_BIT,
    ensures
        quotient(from_nat(q * b), from_nat(b)) == from_nat(q),
{
    lemma_quotient_magnitude(q * b, b);
    let u = one_in_units();
    lemma_pow2_pos(1074);
    assert(b * u > 0) by (nonlinear_arith)
        requires
            b > 0,
            u > 0,
    ;
    lemma_nearest_scaled(q * u, 1, b * u);
    assert(((q * b) * u) * u == (b * u) * (q * u)) by (nonlinear_arith);
    assert((b * u) * 1 == b * u);
}

/// The quotient of two whole numbers.
pub proof fn lemma_quotient_magnitude(a: nat, b: nat)
    requires
        b > 0,
        a < 2 * HIDDEN_BIT,
        b < 2 * HIDDEN_BIT,
    ensures
        quotient(from_nat(a), from_nat(b)) == signed(
            false,
            rounded((a * one_in_units()) * one_in_units(), b * one_in_units()),
        ),
        b * one_in_units() > 0,
{
    lemma_whole(a);
    lemma_whole(b);
    lemma_pow2_pos(1074);
    assert(b * one_in_units() > 0) by (nonlinear_arith)
        requires
            b > 0,
            one_in_units() > 0,
    ;
    assert(units(0) == 0);
}

/// A quotient that lies between two whole numbers is not rounded past either.
pub proof fn lemma_quotient_between(a: nat, b: nat, lo: nat, hi: nat)
    requires
        b > 0,
        a < 2 * HIDDEN_BIT,
        b < 2 * HIDDEN_BIT,
        hi < 2 * HIDDEN_BIT,
        lo * b <= a <= hi * b,
    ensures
        quotient(from_nat(a), from_nat(b)).finite(),
        !quotient(from_nat(a), from_nat(b)).negative(),
        from_nat(lo).magnitude() <= quotient(from_nat(a), from_nat(b)).magnitude()
            <= from_nat(hi).magnitude(),
{
    let u = one_in_units();
    let n = (a * u) * u;
    let d = b * u;
    lemma_quotient_magnitude(a, b);
    assert(lo <= hi) by (nonlinear_arith)
        requires
            lo * b <= hi * b,
            b > 0,
    ;
    lemma_whole(lo);
    lemma_whole(hi);
    assert((lo * u) * (b * u) <= ((a * u) * u) * 1) by (nonlinear_arith)
        requires
            lo * b <= a,
            u >= 0,
    ;
    assert(((a * u) * u) * 1 <= (hi * u) * (b * u)) by (nonlinear_arith)
        requires
            a <= hi * b,
            u >= 0,
    ;
    law_rounding_keeps_order(lo * u, 1, n, d);
    law_rounding_keeps_order(n, d, hi * u, 1);
}

/// A whole number as a byte.
pub proof fn lemma_whole_to_byte(v: nat)
    requires
        v < 2 * HIDDEN_BIT,
    ensures
        to_byte(from_nat(v)) == (if v >= 255 {
            255
        } else {
            v
        }),
{
    lemma_whole(v);
    lemma_pow2_pos(1074);
    lemma_fundamental_div_mod_converse(
        (v * one_in_units()) as int,
        one_in_units() as int,
        v as int,
        0,
    );
}

/// A larger number does not make a smaller byte.
pub proof fn lemma_to_byte_order(a: Double, b: Double)
    requires
        a.finite(),
        b.finite(),
        !a.negative(),
        !b.negative(),
        a.magnitude() <= b.magnitude(),
    ensures
        to_byte(a) <= to_byte(b),
{
    lemma_units_order(a.magnitude(), b.magnitude());
    lemma_pow2_pos(1074);
    lemma_div_is_ordered(
        units(a.magnitude()) as int,
        units(b.magnitude()) as int,
        one_in_units() as int,
    );
    assert(whole_part(a) <= whole_part(b));
}

/// The numeric order is the order of the values.
pub proof fn law_order_of_values(a: Double, b: Double)
    requires
        a.finite(),
        b.finite(),
    ensures
        less(a, b) <==> a.value() < b.value(),
        at_least(a, b) <==> a.value() >= b.value(),
{
    lemma_units_order(a.magnitude(), b.magnitude());
    lemma_units_order(a.magnitude(), 0);
    lemma_units_order(b.magnitude(), 0);
    assert(units(0) == 0);
}

/// Of two numbers that are not NaN, either the first is less or it is at least
/// the second, and never both.
pub proof fn law_numbers_compare(a: Double, b: Double)
    requires
        !a.nan(),
        !b.nan(),
    ensures
        less(a, b) <==> !at_least(a, b),
{
}

/// The order of addition does not matter.
pub proof fn law_sum_commutes(a: Double, b: Double)
    requires
        !a.nan(),
        !b.nan(),
    ensures
        sum(a, b) == sum(b, a),
{
    if !a.finite() && !b.finite() && a.negative() == b.negative() {
        assert(a.magnitude() == b.magnitude());
        assert(a.bits == b.bits);
    }
}

/// Adding zero, multiplying by one and dividing by one change nothing of a
/// number above zero.
pub proof fn law_neutral(a: Double)
    requires
        a.finite(),
        !a.negative(),
    ensures
        sum(a, zero()) == a,
        product(a, one()) == a,
        quotient(a, one()) == a,
{
    let m = a.magnitude();
    let u = one_in_units();
    lemma_one();
    lemma_pow2_pos(1074);
    assert(units(0) == 0);
    lemma_units_order(m, 0);
    lemma_nearest_of_units(m);
    assert(signed(false, m) == a);
    lemma_nearest_scaled(units(m), 1, u);
    assert(units(m) * u == u * units(m)) by (nonlinear_arith);
    assert(u * 1 == u);
}

/// A binary32 number keeps its value as a binary64 number.
pub proof fn law_widening_is_exact(bits: u32)
    requires
        bits % 0x8000_0000 < 0x7f80_0000,
    ensures
        widened(bits).finite(),
        widened(bits).negative() == (bits >= 0x8000_0000),
        units(widened(bits).magnitude()) == single_units((bits % 0x8000_0000) as nat),
{
    let magnitude = (bits % 0x8000_0000) as nat;
    let exponent = magnitude / 0x80_0000;
    let fraction = magnitude % 0x80_0000;
    let (m, k) = if exponent == 0 {
        (fraction, 925nat)
    } else {
        ((0x80_0000 + fraction) as nat, (exponent + 924) as nat)
    };
    let n = m * pow2(k);
    assert(single_units(magnitude) == n);
    lemma_nearest_exact(m, k);
    let infinite = INFINITE_MAGNITUDE as nat;
    assert(infinite / (HIDDEN_BIT as nat) == 2047 && infinite % (HIDDEN_BIT as nat) == 0);
    lemma_pow2_strictly_increases(k, 2046);
    lemma_pow2_pos(k);
    assert(m * pow2(k) < HIDDEN_BIT * pow2(2046)) by (nonlinear_arith)
        requires
            m < HIDDEN_BIT,
            0 < pow2(k) < pow2(2046),
    ;
    lemma_units_order(infinite, nearest(n, 1));
}

/// The quotient of a whole number by one that is not smaller is finite, not below
/// zero and not above one, and off by no more than 2^-53.
pub proof fn law_share_error(a: nat, b: nat)
    requires
        a <= b,
        0 < b < 2 * HIDDEN_BIT,
    ensures
        ({
            let q = quotient(from_nat(a), from_nat(b));
            &&& q.finite()
            &&& !q.negative()
            &&& units(q.magnitude()) <= one_in_units()
            &&& distance((a * one_in_units()) as int, (b * units(q.magnitude())) as int) <= b * pow2(
                1021,
            )
        }),
{
    let u = one_in_units();
    let t = pow2(1021);
    let w = units(quotient(from_nat(a), from_nat(b)).magnitude());
    lemma_pow2_pos(1074);
    vstd::arithmetic::power2::lemma2_to64_rest();
    lemma_pow2_adds(53, 1021);
    lemma_whole(1);
    lemma_quotient_magnitude(a, b);
    lemma_quotient_between(a, b, 0, 1);
    lemma_units_order(quotient(from_nat(a), from_nat(b)).magnitude(), from_nat(1).magnitude());
    let n = (a * u) * u;
    let d = b * u;
    assert(n <= d * u) by (nonlinear_arith)
        requires
            n == (a * u) * u,
            d == b * u,
            a <= b,
            u >= 0,
    ;
    assert(u == 2 * HIDDEN_BIT * t);
    law_rounding_error(n, d, 1021);
    assert(u * (a * u) == n && u * (b * w) == d * w && u * (b * t) == d * t) by (nonlinear_arith)
        requires
            n == (a * u) * u,
            d == b * u,
    ;
    lemma_distance_scaled((a * u) as int, (b * w) as int, (b * t) as int, u as int);
}

/// A distance does not grow when both ends are scaled down.
pub proof fn lemma_distance_scaled(a: int, b: int, bound: int, k: int)
    requires
        k > 0,
        distance(k * a, k * b) <= k * bound,
    ensures
        distance(a, b) <= bound,
{
    assert(a - b <= bound && b - a <= bound) by (nonlinear_arith)
        requires
            k > 0,
            k * a - k * b <= k * bound,
            k * b - k * a <= k * bound,
    ;
}

} // verus!
