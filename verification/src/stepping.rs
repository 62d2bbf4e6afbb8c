//! That lowering the threshold comes down to the floor.
use crate::descent::{descent, stepped_down, worth_trying, FLOOR_BITS};
use crate::double::{difference, less, opposite, signed, zero, Double};
use crate::exact::lemma_units_order;
use crate::matching::ScoreMap;
use crate::rounding::{
    law_rounding_keeps_order, lemma_nearest_of_units, lemma_pow2_zero, rounded, units, HIDDEN_BIT,
};
use vstd::arithmetic::power2::{lemma_pow2_pos, lemma_pow2_unfold, pow2};
use vstd::prelude::*;

verus! {

/// From one magnitude to the next the value grows by one unit, or by no more
/// than a 2^52nd part.
proof fn lemma_spacing(m: nat)
    ensures
        ({
            let d = units(m + 1) - units(m);
            d == 1 || HIDDEN_BIT * d <= units(m)
        }),
{
    let h = HIDDEN_BIT as nat;
    let e = m / h;
    let f = m % h;
    lemma_pow2_zero(h);
    if e > 0 {
        let p = pow2((e - 1) as nat);
        lemma_pow2_pos((e - 1) as nat);
        assert(h * p <= (h + f) * p) by (nonlinear_arith)
            requires
                f >= 0,
                p > 0,
        ;
        if f < h - 1 {
            assert((m + 1) / h == e && (m + 1) % h == f + 1);
            assert((h + f + 1) * p == (h + f) * p + p) by (nonlinear_arith);
        } else {
            assert((m + 1) / h == e + 1 && (m + 1) % h == 0);
            lemma_pow2_unfold(e);
            assert(h * (2 * p) == (h + (h - 1)) * p + p) by (nonlinear_arith);
            assert((h + 0) * (2 * p) == h * (2 * p));
        }
    } else if f < h - 1 {
        assert((m + 1) / h == 0 && (m + 1) % h == f + 1);
    } else {
        assert((m + 1) / h == 1 && (m + 1) % h == 0);
    }
}

/// What taking a number above zero away from another comes to.
proof fn lemma_taken_away(t: Double, step: Double)
    requires
        t.finite(),
        step.finite(),
        less(zero(), step),
    ensures
        ({
            let m = t.magnitude();
            let s = units(step.magnitude());
            &&& s > 0
            &&& t.negative() ==> difference(t, step) == signed(true, rounded(units(m) + s, 1))
            &&& !t.negative() && s < units(m) ==> difference(t, step) == signed(
                false,
                rounded((units(m) - s) as nat, 1),
            )
            &&& !t.negative() && s == units(m) ==> difference(t, step) == signed(false, 0)
            &&& !t.negative() && s > units(m) ==> difference(t, step) == signed(
                true,
                rounded((s - units(m)) as nat, 1),
            )
        }),
{
    assert(units(0) == 0);
    lemma_units_order(0, step.magnitude());
    let o = opposite(step);
    assert(o.negative() && o.magnitude() == step.magnitude());
}

/// Taking a number above zero away does not give a larger one, and what is left
/// is the same only where nothing has changed.
proof fn lemma_not_above(t: Double, step: Double)
    requires
        t.finite(),
        step.finite(),
        less(zero(), step),
    ensures
        less(difference(t, step), t) || difference(t, step) == t,
{
    let m = t.magnitude();
    let s = units(step.magnitude());
    lemma_taken_away(t, step);
    lemma_nearest_of_units(m);
    lemma_nearest_of_units(1);
    assert(units(0) == 0 && units(1) == 1);
    if t.negative() {
        law_rounding_keeps_order(units(m), 1, units(m) + s, 1);
        law_rounding_keeps_order(1, 1, units(m) + s, 1);
    } else if s < units(m) {
        law_rounding_keeps_order((units(m) - s) as nat, 1, units(m), 1);
    } else if s == units(m) {
        lemma_units_order(0, m);
    } else {
        law_rounding_keeps_order(1, 1, (s - units(m)) as nat, 1);
    }
}

/// Taking a number away that is at least a 2^52nd part leaves less.
proof fn lemma_less_left(t: Double, step: Double)
    requires
        t.finite(),
        step.finite(),
        less(zero(), step),
        units(t.magnitude()) <= HIDDEN_BIT * units(step.magnitude()),
    ensures
        less(difference(t, step), t),
{
    let m = t.magnitude();
    let s = units(step.magnitude());
    lemma_taken_away(t, step);
    lemma_nearest_of_units(m);
    lemma_nearest_of_units(1);
    assert(units(0) == 0 && units(1) == 1);
    if t.negative() {
        lemma_spacing(m);
        lemma_nearest_of_units(m + 1);
        law_rounding_keeps_order(units(m + 1), 1, units(m) + s, 1);
    } else if s < units(m) {
        lemma_units_order(0, m);
        let below = (m - 1) as nat;
        lemma_spacing(below);
        lemma_units_order(below, m);
        lemma_nearest_of_units(below);
        law_rounding_keeps_order((units(m) - s) as nat, 1, units(below), 1);
    } else if s == units(m) {
        lemma_units_order(0, m);
    } else {
        law_rounding_keeps_order(1, 1, (s - units(m)) as nat, 1);
    }
}

/// Every step above zero that changes a threshold at all lowers it.
pub proof fn law_step_lowers(threshold: Double, step: Double)
    requires
        threshold.finite(),
        step.finite(),
        less(zero(), step),
        difference(threshold, step) != threshold,
    ensures
        less(stepped_down(threshold, step), threshold),
{
    lemma_not_above(threshold, step);
}

/// Lowering the threshold comes to an end: with every step above zero that is
/// at least a 2^52nd part of the first threshold and of the floor, a match is
/// found or the threshold falls below the floor.
pub proof fn law_descent_comes_down(
    scores: &Option<ScoreMap>,
    start: Double,
    step: Double,
    nms_threshold: Double,
)
    requires
        start.finite(),
        step.finite(),
        less(zero(), step),
        start.value() <= HIDDEN_BIT * step.value(),
        units((Double { bits: FLOOR_BITS }).magnitude()) <= HIDDEN_BIT * step.value(),
    ensures
        !(descent(scores, start, step, nms_threshold) is Endless),
    decreases crate::descent::trials_left(start),
{
    if worth_trying(start) {
        let floor = Double { bits: FLOOR_BITS };
        let next = stepped_down(start, step);
        lemma_units_order(start.magnitude(), floor.magnitude());
        lemma_less_left(start, step);
        if worth_trying(next) {
            lemma_units_order(next.magnitude(), start.magnitude());
            assert(units(0) == 0);
            lemma_units_order(0, next.magnitude());
            lemma_units_order(0, start.magnitude());
            law_descent_comes_down(scores, next, step, nms_threshold);
        } else {
            assert(descent(scores, next, step, nms_threshold) is NotFound);
        }
    }
}

} // verus!
