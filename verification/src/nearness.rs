//! That no binary64 number is nearer to the result of an operation than the one it
//! gives, and how numbers are cut to whole ones.
use crate::double::{
    one_in_units, product, quotient, sum, to_byte, to_int32, whole, whole_part, Double,
};
use crate::exact::{lemma_units_order, lemma_whole};
use crate::rounding::{distance, law_nearest_is_nearest, nearest, units, HIDDEN_BIT};
use vstd::arithmetic::div_mod::lemma_fundamental_div_mod;
use vstd::arithmetic::power2::lemma_pow2_pos;
use vstd::prelude::*;

verus! {

/// Rounding a ratio to a magnitude comes nearer to it than any number does, also
/// one below zero.
proof fn lemma_nearer(n: nat, d: nat, other: int, size: nat)
    requires
        d > 0,
        other == units(size) || other == -(units(size) as int),
    ensures
        distance(n as int, (d * units(nearest(n, d))) as int) <= distance(n as int, d * other),
{
    law_nearest_is_nearest(n, d, size);
    law_nearest_is_nearest(n, d, 0);
    assert(units(0) == 0);
    assert(d * units(size) >= 0 && d * -(units(size) as int) == -(d * units(size)))
        by (nonlinear_arith)
        requires
            d > 0,
    ;
    assert(d * 0 == 0) by (nonlinear_arith);
}

/// No number is nearer to a sum than the one that is given.
pub proof fn law_sum_is_nearest(a: Double, b: Double, other: Double)
    requires
        a.finite(),
        b.finite(),
        other.finite(),
        sum(a, b).finite(),
    ensures
        distance(a.value() + b.value(), sum(a, b).value()) <= distance(
            a.value() + b.value(),
            other.value(),
        ),
{
    let exact = a.value() + b.value();
    assert(units(0) == 0);
    if exact > 0 {
        lemma_nearer(exact as nat, 1, other.value(), other.magnitude());
        assert(sum(a, b).value() == units(nearest(exact as nat, 1)));
    } else if exact < 0 {
        lemma_nearer((-exact) as nat, 1, -other.value(), other.magnitude());
        assert(sum(a, b).value() == -(units(nearest((-exact) as nat, 1)) as int));
    }
}

/// The sign of a product.
proof fn lemma_signs(a: int, b: int, x: int, y: int)
    ensures
        (-a) * b == -(a * b),
        a * (-b) == -(a * b),
        (-a) * (-b) == a * b,
        distance(-x, -y) == distance(x, y),
{
    assert((-a) * b == -(a * b)) by (nonlinear_arith);
    assert(a * (-b) == -(a * b)) by (nonlinear_arith);
    assert((-a) * (-b) == a * b) by (nonlinear_arith);
}

/// No number is nearer to a product than the one that is given.
pub proof fn law_product_is_nearest(a: Double, b: Double, other: Double)
    requires
        a.finite(),
        b.finite(),
        other.finite(),
        product(a, b).finite(),
    ensures
        distance(a.value() * b.value(), one_in_units() * product(a, b).value()) <= distance(
            a.value() * b.value(),
            one_in_units() * other.value(),
        ),
{
    let u = one_in_units();
    let (m, n) = (units(a.magnitude()), units(b.magnitude()));
    let p = units(nearest(m * n, u));
    lemma_pow2_pos(1074);
    lemma_nearer(m * n, u, other.value(), other.magnitude());
    lemma_nearer(m * n, u, -other.value(), other.magnitude());
    assert(product(a, b).magnitude() == nearest(m * n, u));
    lemma_signs(m as int, n as int, (m * n) as int, (u * p) as int);
    lemma_signs(u as int, p as int, (m * n) as int, u * other.value());
    lemma_signs(u as int, other.value(), (m * n) as int, u * -other.value());
}

/// No number is nearer to a quotient than the one that is given.
pub proof fn law_quotient_is_nearest(a: Double, b: Double, other: Double)
    requires
        a.finite(),
        b.finite(),
        b.magnitude() > 0,
        other.finite(),
        quotient(a, b).finite(),
    ensures
        distance(a.value() * one_in_units(), b.value() * quotient(a, b).value()) <= distance(
            a.value() * one_in_units(),
            b.value() * other.value(),
        ),
{
    let u = one_in_units();
    let (m, n) = (units(a.magnitude()), units(b.magnitude()));
    lemma_units_order(0, b.magnitude());
    assert(units(0) == 0);
    let q = units(nearest(m * u, n));
    lemma_nearer(m * u, n, other.value(), other.magnitude());
    lemma_nearer(m * u, n, -other.value(), other.magnitude());
    assert(quotient(a, b).magnitude() == nearest(m * u, n));
    let o = other.value();
    lemma_signs(m as int, u as int, (m * u) as int, (n * q) as int);
    lemma_signs(n as int, q as int, (m * u) as int, n * o);
    lemma_signs(n as int, o, (m * u) as int, n * -o);
}

/// A number that is not below zero is cut down to a byte: to the largest whole
/// number that is not above it, and to 255 from there on.
pub proof fn law_byte_cuts_down(a: Double)
    requires
        a.finite(),
    ensures
        a.value() < 0 ==> to_byte(a) == 0,
        0 <= a.value() < 256 * one_in_units() ==> to_byte(a) * one_in_units() <= a.value() < (to_byte(
            a,
        ) + 1) * one_in_units(),
        a.value() >= 255 * one_in_units() ==> to_byte(a) == 255,
{
    lemma_whole_part(a);
    let (u, w) = (one_in_units() as int, whole_part(a) as int);
    assert(w <= 255 || w >= 256);
    assert(w >= 256 ==> w * u >= 256 * u) by (nonlinear_arith)
        requires
            u > 0,
    ;
    assert(w < 255 ==> (w + 1) * u <= 255 * u) by (nonlinear_arith)
        requires
            u > 0,
    ;
    assert(units(0) == 0);
    if a.negative() && a.magnitude() == 0 {
        assert(0 * u == 0);
    }
    if a.negative() {
        lemma_units_order(0, a.magnitude());
    }
}

/// The whole part of a finite number.
proof fn lemma_whole_part(a: Double)
    requires
        a.finite(),
    ensures
        one_in_units() > 0,
        whole_part(a) * one_in_units() <= units(a.magnitude()) < (whole_part(a) + 1)
            * one_in_units(),
{
    let (u, m) = (one_in_units() as int, units(a.magnitude()) as int);
    lemma_pow2_pos(1074);
    lemma_fundamental_div_mod(m, u);
    let w = m / u;
    let r = m % u;
    assert(w * u <= m < (w + 1) * u) by (nonlinear_arith)
        requires
            m == u * w + r,
            0 <= r < u,
    ;
}

/// A number is cut towards zero to a 32-bit number where it is in range.
pub proof fn law_int_cuts_towards_zero(a: Double)
    requires
        a.finite(),
        units(a.magnitude()) < 0x7fff_ffff * one_in_units(),
    ensures
        ({
            let (v, u) = (a.value(), one_in_units() as int);
            let k = to_int32(a) as int;
            &&& v >= 0 ==> k >= 0 && k * u <= v < (k + 1) * u
            &&& v <= 0 ==> k <= 0 && (k - 1) * u < v <= k * u
        }),
{
    lemma_whole_part(a);
    let (u, w) = (one_in_units() as int, whole_part(a) as int);
    assert(w < 0x7fff_ffff) by (nonlinear_arith)
        requires
            w * u < 0x7fff_ffff * u,
            u > 0,
    ;
    assert((-w) * u == -(w * u) && (-w - 1) * u == -((w + 1) * u)) by (nonlinear_arith);
    assert((w + 1) * u == w * u + u) by (nonlinear_arith);
    assert((w - 1) * u == w * u - u) by (nonlinear_arith);
    assert((-w + 1) * u == -(w * u) + u) by (nonlinear_arith);
    assert(w > 0 ==> w * u > 0) by (nonlinear_arith)
        requires
            u > 0,
    ;
    assert(w == 0 ==> w * u == 0);
}

/// A number of less than 2^52 is rounded to the nearest whole one, and one that
/// lies halfway between two goes away from zero.
pub proof fn law_whole_is_nearest(a: Double) -> (k: nat)
    requires
        a.finite(),
        units(a.magnitude()) < HIDDEN_BIT * one_in_units(),
    ensures
        whole(a).finite(),
        whole(a).negative() == a.negative(),
        units(whole(a).magnitude()) == k * one_in_units(),
        2 * (k * one_in_units()) <= 2 * units(a.magnitude()) + one_in_units(),
        2 * units(a.magnitude()) < 2 * (k * one_in_units()) + one_in_units(),
{
    let (u, m) = (one_in_units(), units(a.magnitude()));
    lemma_pow2_pos(1074);
    let k = (2 * m + u) / (2 * u);
    lemma_fundamental_div_mod((2 * m + u) as int, (2 * u) as int);
    let r = (2 * m + u) % (2 * u);
    assert(2 * m + u == 2 * (k * u) + r) by (nonlinear_arith)
        requires
            2 * m + u == (2 * u) * k + r,
    ;
    assert(k <= HIDDEN_BIT) by (nonlinear_arith)
        requires
            2 * m + u == 2 * (k * u) + r,
            m < HIDDEN_BIT * u,
            r >= 0,
            u > 0,
    ;
    lemma_whole(k);
    k
}

} // verus!
