//! How near a number comes to another when it is held to some decimal places.
use crate::descent::{
    stepped_down, to_four_places, to_two_places, trust_text, worth_trying, FLOOR_BITS,
    HIGH_TRUST_BITS, MEDIUM_TRUST_BITS,
};
use crate::double::{
    difference, from_nat, hundred, one, one_in_units, opposite, product, quotient, ten_thousand,
    whole, Double, HUNDRED_BITS, TEN_THOUSAND_BITS,
};
use crate::exact::{
    law_order_of_values, law_share_error, lemma_distance_scaled, lemma_finite, lemma_one,
    lemma_same_units, lemma_units_order, lemma_whole,
};
use crate::matching::is_share;
use crate::rounding::{
    distance, law_rounding_error, law_rounding_keeps_order, lemma_nearest_of_units, nearest, units,
    HIDDEN_BIT,
};
use vstd::arithmetic::power2::{lemma_pow2_adds, lemma_pow2_pos, pow2};
use vstd::prelude::*;

verus! {

/// One, and some of its parts, in units.
proof fn lemma_parts_of_one()
    ensures
        pow2(1021) > 0,
        one_in_units() == 0x20_0000_0000_0000 * pow2(1021),
        pow2(1035) == 0x4000 * pow2(1021),
        pow2(1040) == 0x8_0000 * pow2(1021),
{
    lemma_pow2_pos(1021);
    vstd::arithmetic::power2::lemma2_to64();
    vstd::arithmetic::power2::lemma2_to64_rest();
    lemma_pow2_adds(53, 1021);
    lemma_pow2_adds(14, 1021);
    lemma_pow2_adds(19, 1021);
}

/// The two scales are whole numbers.
proof fn lemma_scales()
    ensures
        hundred() == from_nat(100),
        ten_thousand() == from_nat(10_000),
{
    let (a, b) = (HUNDRED_BITS as nat, TEN_THOUSAND_BITS as nat);
    let h = HIDDEN_BIT as nat;
    lemma_whole(100);
    lemma_whole(10_000);
    vstd::arithmetic::power2::lemma2_to64();
    vstd::arithmetic::power2::lemma2_to64_rest();
    assert(a / h == 1029 && a % h == 0x9_0000_0000_0000);
    assert(b / h == 1036 && b % h == 0x3_8800_0000_0000);
    lemma_pow2_adds(46, 1028);
    lemma_pow2_adds(39, 1035);
    assert(h + 0x9_0000_0000_0000 == 100 * pow2(46));
    assert(h + 0x3_8800_0000_0000 == 10_000 * pow2(39));
    assert((100 * pow2(46)) * pow2(1028) == 100 * (pow2(46) * pow2(1028))) by (nonlinear_arith);
    assert((10_000 * pow2(39)) * pow2(1035) == 10_000 * (pow2(39) * pow2(1035)))
        by (nonlinear_arith);
    assert(units(a) == 100 * one_in_units());
    assert(units(b) == 10_000 * one_in_units());
    lemma_same_units(a, from_nat(100).magnitude());
    lemma_same_units(b, from_nat(10_000).magnitude());
}

/// A number from minus one to one, scaled by a whole number.
proof fn lemma_scaled(x: Double, n: nat)
    requires
        x.finite(),
        units(x.magnitude()) <= one_in_units(),
        n <= 10_000,
    ensures
        ({
            let p = product(x, from_nat(n));
            &&& p.finite()
            &&& p.negative() == x.negative()
            &&& distance((n * units(x.magnitude())) as int, units(p.magnitude()) as int) <= pow2(
                1035,
            )
        }),
{
    let u = one_in_units();
    let m = units(x.magnitude());
    lemma_parts_of_one();
    lemma_whole(n);
    let a = m * (n * u);
    assert(a <= u * (n * u)) by (nonlinear_arith)
        requires
            a == m * (n * u),
            m <= u,
            n >= 0,
            u >= 0,
    ;
    assert(n * u <= 2 * HIDDEN_BIT * pow2(1035)) by (nonlinear_arith)
        requires
            n <= 10_000,
            u == 0x20_0000_0000_0000 * pow2(1021),
            pow2(1035) == 0x4000 * pow2(1021),
            HIDDEN_BIT == 0x10_0000_0000_0000,
            pow2(1021) > 0,
    ;
    assert(u * (n * u) <= u * (2 * HIDDEN_BIT * pow2(1035))) by (nonlinear_arith)
        requires
            u >= 0,
            n * u <= 2 * HIDDEN_BIT * pow2(1035),
    ;
    law_rounding_error(a, u, 1035);
    assert(u * (n * m) == a) by (nonlinear_arith)
        requires
            a == m * (n * u),
    ;
    let p = units(nearest(a, u));
    lemma_distance_scaled((n * m) as int, p as int, pow2(1035) as int, u as int);
    assert(n * m <= 10_000 * u) by (nonlinear_arith)
        requires
            0 <= n <= 10_000,
            0 <= m <= u,
    ;
    vstd::arithmetic::power2::lemma2_to64();
    lemma_finite(nearest(a, u), 10_001);
}

/// The whole number nearest to a number below about 10,000.
proof fn lemma_nearest_whole(p: Double) -> (k: nat)
    requires
        p.finite(),
        units(p.magnitude()) <= 10_000 * one_in_units() + pow2(1035),
    ensures
        whole(p).finite(),
        whole(p).negative() == p.negative(),
        whole(p).magnitude() == from_nat(k).magnitude(),
        k <= 10_000,
        2 * (k * one_in_units()) <= 2 * units(p.magnitude()) + one_in_units(),
        2 * units(p.magnitude()) < 2 * (k * one_in_units()) + one_in_units(),
{
    let u = one_in_units();
    let m = units(p.magnitude());
    lemma_parts_of_one();
    let k = (2 * m + u) / (2 * u);
    vstd::arithmetic::div_mod::lemma_fundamental_div_mod((2 * m + u) as int, (2 * u) as int);
    let r = (2 * m + u) % (2 * u);
    assert(2 * m + u == 2 * (k * u) + r) by (nonlinear_arith)
        requires
            2 * m + u == (2 * u) * k + r,
    ;
    assert(k <= 10_000) by (nonlinear_arith)
        requires
            2 * m + u == 2 * (k * u) + r,
            2 * m + u < 20_002 * u,
            r >= 0,
            u > 0,
    ;
    lemma_whole(k);
    k
}

/// A number from minus one to one to a decimal place, given by how many parts it
/// has: the part nearest to it, up to the error of the arithmetic.
proof fn lemma_places(x: Double, n: nat) -> (k: nat)
    requires
        x.finite(),
        units(x.magnitude()) <= one_in_units(),
        1 <= n <= 10_000,
    ensures
        ({
            let y = quotient(whole(product(x, from_nat(n))), from_nat(n));
            let (u, m) = (one_in_units() as int, units(x.magnitude()) as int);
            &&& k <= n
            &&& y.finite()
            &&& y.negative() == x.negative()
            &&& y.magnitude() == quotient(from_nat(k), from_nat(n)).magnitude()
            &&& 2 * (k * u) <= 2 * units(product(x, from_nat(n)).magnitude()) + u
            &&& 2 * units(product(x, from_nat(n)).magnitude()) < 2 * (k * u) + u
            &&& 2 * distance(n * m, k * u) <= u + 2 * pow2(1035)
            &&& 2 * (n * distance(m, units(y.magnitude()) as int)) <= u + pow2(1040)
        }),
{
    let (u, m) = (one_in_units() as int, units(x.magnitude()) as int);
    let p = product(x, from_nat(n));
    lemma_parts_of_one();
    lemma_scaled(x, n);
    assert(n * m <= n * u && n * u <= 10_000 * u) by (nonlinear_arith)
        requires
            0 <= n <= 10_000,
            0 <= m <= u,
    ;
    let k = lemma_nearest_whole(p);
    assert(2 * (k * u) <= 2 * (n * u) + u + 2 * pow2(1035));
    assert(k <= n) by (nonlinear_arith)
        requires
            2 * (k * u) <= 2 * (n * u) + u + 2 * pow2(1035),
            2 * pow2(1035) < u,
            u > 0,
    ;
    lemma_whole(n);
    lemma_whole(k);
    lemma_one();
    law_share_error(k, n);
    let w = whole(p);
    let y = quotient(w, from_nat(n));
    let z = quotient(from_nat(k), from_nat(n));
    assert(units(0) == 0);
    lemma_units_order(0, from_nat(n).magnitude());
    assert(n * u > 0) by (nonlinear_arith)
        requires
            n >= 1,
            u > 0,
    ;
    assert(y.magnitude() == z.magnitude() && y.negative() == w.negative());
    let v = units(y.magnitude()) as int;
    assert(n * pow2(1021) <= 10_000 * pow2(1021)) by (nonlinear_arith)
        requires
            n <= 10_000,
            pow2(1021) > 0,
    ;
    assert(n * distance(m, v) == distance(n * m, n * v)) by (nonlinear_arith)
        requires
            n >= 1,
            distance(m, v) == (if m <= v { v - m } else { m - v }),
            distance(n * m, n * v) == (if n * m <= n * v { n * v - n * m } else { n * m - n * v }),
    ;
    k
}

/// A number from zero to one to four decimal places is the ten thousandth that is
/// nearest to it, up to the error of the arithmetic: as many of them as there are
/// ones nearest to its product with 10,000, a half going up.
pub proof fn law_four_places_nearest(x: Double) -> (k: nat)
    requires
        is_share(x),
    ensures
        k <= 10_000,
        to_four_places(x).finite(),
        to_four_places(x).magnitude() == quotient(from_nat(k), from_nat(10_000)).magnitude(),
        2 * (k * one_in_units()) <= 2 * units(product(x, from_nat(10_000)).magnitude())
            + one_in_units(),
        2 * units(product(x, from_nat(10_000)).magnitude()) < 2 * (k * one_in_units())
            + one_in_units(),
        20_000 * distance(x.value(), to_four_places(x).value()) <= one_in_units() + pow2(1040),
{
    lemma_scales();
    lemma_share_units(x);
    lemma_places(x, 10_000)
}

proof fn lemma_share_units(x: Double)
    requires
        is_share(x),
    ensures
        x.finite(),
        x.negative() ==> x.magnitude() == 0,
        units(x.magnitude()) <= one_in_units(),
{
    lemma_one();
    lemma_units_order(x.magnitude(), one().magnitude());
    assert(units(0) == 0);
    lemma_units_order(x.magnitude(), 0);
}

/// What one number from zero to one leaves of another.
proof fn lemma_left_of_share(a: Double, b: Double)
    requires
        is_share(a),
        is_share(b),
    ensures
        difference(a, b).finite(),
        units(difference(a, b).magnitude()) <= one_in_units(),
        distance(a.value() - b.value(), difference(a, b).value()) <= pow2(1021),
{
    lemma_share_units(a);
    lemma_share_units(b);
    lemma_parts_of_one();
    lemma_one();
    let o = opposite(b);
    assert(o.magnitude() == b.magnitude() && o.negative() == !b.negative());
    assert(units(0) == 0);
    let exact = a.value() - b.value();
    let n = distance(a.value(), b.value()) as nat;
    assert(n <= one_in_units());
    law_rounding_error(n, 1, 1021);
    law_rounding_keeps_order(n, 1, one_in_units(), 1);
    lemma_nearest_of_units(one().magnitude());
    lemma_units_order(nearest(n, 1), one().magnitude());
    vstd::arithmetic::power2::lemma2_to64();
    lemma_finite(nearest(n, 1), 1);
    assert(o.value() == -b.value());
}

/// One step down from a threshold: the hundredth nearest to the threshold less the
/// step, where that is lower than the threshold, and otherwise that difference
/// itself, both up to the error of the arithmetic.
pub proof fn law_step_down(threshold: Double, step: Double) -> (k: nat)
    requires
        is_share(threshold),
        is_share(step),
    ensures
        k <= 100,
        2 * distance(
            100 * distance(threshold.value(), step.value()),
            (k * one_in_units()) as int,
        ) <= one_in_units() + pow2(1040),
        ({
            let next = stepped_down(threshold, step);
            let left = threshold.value() - step.value();
            let size = units(quotient(from_nat(k), from_nat(100)).magnitude()) as int;
            let even = if left >= 0 { size } else { -size };
            &&& next.finite()
            &&& even < threshold.value() ==> next.value() == even
            &&& even >= threshold.value() ==> distance(left, next.value()) <= pow2(1021)
        }),
{
    let plain = difference(threshold, step);
    lemma_scales();
    lemma_parts_of_one();
    lemma_share_units(threshold);
    lemma_left_of_share(threshold, step);
    let k = lemma_places(plain, 100);
    let even = to_two_places(plain);
    let left = threshold.value() - step.value();
    lemma_sign_of_left(threshold, step);
    law_order_of_values(even, threshold);
    if left == 0 {
        lemma_no_hundredths(k);
    }
    k
}

/// What is left of a number has the sign of the exact difference.
proof fn lemma_sign_of_left(a: Double, b: Double)
    requires
        is_share(a),
        is_share(b),
    ensures
        a.value() > b.value() ==> !difference(a, b).negative(),
        a.value() < b.value() ==> difference(a, b).negative(),
        a.value() == b.value() ==> units(difference(a, b).magnitude()) == 0,
{
    lemma_share_units(a);
    lemma_share_units(b);
    lemma_left_of_share(a, b);
    let o = opposite(b);
    assert(o.magnitude() == b.magnitude() && o.negative() == !b.negative());
    assert(units(0) == 0);
    assert(o.value() == -b.value());
}

/// Nothing has no hundredths.
proof fn lemma_no_hundredths(k: nat)
    requires
        2 * distance(0, (k * one_in_units()) as int) <= one_in_units() + 2 * pow2(1035),
    ensures
        k == 0,
        units(quotient(from_nat(k), from_nat(100)).magnitude()) == 0,
{
    let u = one_in_units();
    lemma_parts_of_one();
    assert(k == 0) by (nonlinear_arith)
        requires
            2 * (k * u) <= u + 2 * pow2(1035),
            2 * pow2(1035) < u,
            k >= 0,
    ;
    lemma_whole(0);
    lemma_one();
    crate::exact::lemma_whole_quotient(0, 100);
}

/// What the trust of a number says of it: it is high from nine tenths on, or
/// rather from the binary64 number nearest to that, which lies a fifth of 2^-53
/// above it; low below three quarters; and medium in between. What is not a number
/// earns low trust.
pub proof fn law_trust_levels(x: Double)
    ensures
        x.nan() ==> trust_text(x) == "low"@,
        x.finite() ==> ({
            let (v, u) = (x.value(), one_in_units());
            &&& 10 * v >= 9 * u + 2 * pow2(1021) ==> trust_text(x) == "high"@
            &&& 4 * v >= 3 * u && 10 * v < 9 * u + 2 * pow2(1021) ==> trust_text(x) == "medium"@
            &&& 4 * v < 3 * u ==> trust_text(x) == "low"@
        }),
{
    let (high, medium) = (Double { bits: HIGH_TRUST_BITS }, Double { bits: MEDIUM_TRUST_BITS });
    let h = HIDDEN_BIT as nat;
    lemma_parts_of_one();
    assert(high.magnitude() / h == 1022 && high.magnitude() % h == 0xc_cccc_cccc_cccd);
    assert(medium.magnitude() / h == 1022 && medium.magnitude() % h == 0x8_0000_0000_0000);
    assert(units(high.magnitude()) == 0x1c_cccc_cccc_cccd * pow2(1021));
    assert(units(medium.magnitude()) == 0x18_0000_0000_0000 * pow2(1021));
    if x.finite() {
        law_order_of_values(x, high);
        law_order_of_values(x, medium);
    }
}

/// Every threshold down to minus one over 10^9 is tried, and none below, up to
/// half the distance from there to the next number.
pub proof fn law_tried_down_to_zero(threshold: Double)
    requires
        threshold.finite(),
    ensures
        threshold.value() >= 0 ==> worth_trying(threshold),
        1_000_000_000 * threshold.value() >= -(one_in_units() - 500_000_000 * pow2(992))
            ==> worth_trying(threshold),
        1_000_000_000 * threshold.value() < -(one_in_units() + 500_000_000 * pow2(992))
            ==> !worth_trying(threshold),
{
    let floor = Double { bits: FLOOR_BITS };
    let h = HIDDEN_BIT as nat;
    assert(floor.magnitude() / h == 993 && floor.magnitude() % h == 0x1_2e0b_e826_d695);
    let p = pow2(992);
    lemma_pow2_pos(992);
    vstd::arithmetic::power2::lemma2_to64();
    vstd::arithmetic::power2::lemma2_to64_rest();
    lemma_pow2_adds(48, 992);
    lemma_pow2_adds(34, 1040);
    assert(units(floor.magnitude()) == 0x11_2e0b_e826_d695 * p);
    assert(pow2(1040) == 0x1_0000_0000_0000 * p);
    assert(one_in_units() == 0x4_0000_0000 * (0x1_0000_0000_0000 * p));
    law_order_of_values(threshold, floor);
}

} // verus!
