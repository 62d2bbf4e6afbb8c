//! How much two rectangles overlap.
use crate::double::{
    at_least, difference, from_int, from_nat, one, one_in_units, opposite, product, quotient,
    signed, sum, zero, Double, ONE_BITS,
};
use crate::exact::{
    law_share_error, law_sum_commutes, lemma_finite, lemma_one, lemma_units_order, lemma_whole,
    lemma_whole_difference, lemma_whole_order, lemma_whole_product, lemma_whole_sum,
};
use crate::picture::Rect;
use crate::rounding::{
    distance, law_rounding_keeps_order, lemma_nearest_exact, lemma_nearest_of_units,
    lemma_nearest_scaled, lemma_units_step, nearest, rounded, units, HIDDEN_BIT, INFINITE_MAGNITUDE,
};
use vstd::arithmetic::power2::{lemma_pow2_pos, pow2};
use vstd::prelude::*;

verus! {

pub open spec fn larger_int(a: int, b: int) -> int {
    if a >= b {
        a
    } else {
        b
    }
}

pub open spec fn smaller_int(a: int, b: int) -> int {
    if a <= b {
        a
    } else {
        b
    }
}

/// The length that two stretches of a line have in common.
pub open spec fn shared_length(a: int, a_length: int, b: int, b_length: int) -> int {
    larger_int(smaller_int(a + a_length, b + b_length) - larger_int(a, b), 0)
}

/// The length that two rectangles have in common from left to right.
pub open spec fn shared_width(a: Rect, b: Rect) -> int {
    shared_length(a.x as int, a.width as int, b.x as int, b.width as int)
}

/// The length that two rectangles have in common from top to bottom.
pub open spec fn shared_height(a: Rect, b: Rect) -> int {
    shared_length(a.y as int, a.height as int, b.y as int, b.height as int)
}

/// The area that two rectangles have in common.
pub open spec fn shared_area(a: Rect, b: Rect) -> Double {
    product(from_int(shared_width(a, b)), from_int(shared_height(a, b)))
}

pub open spec fn area(a: Rect) -> Double {
    product(from_int(a.width as int), from_int(a.height as int))
}

/// The area that two rectangles cover together.
pub open spec fn joint_area(a: Rect, b: Rect) -> Double {
    difference(sum(area(a), area(b)), shared_area(a, b))
}

/// A part over the whole; zero where the whole is not above zero.
pub open spec fn share_of(part: Double, all: Double) -> Double {
    if at_least(zero(), all) {
        zero()
    } else {
        quotient(part, all)
    }
}

/// The shared area over the joint area; zero where nothing is covered.
pub open spec fn overlap(a: Rect, b: Rect) -> Double {
    share_of(shared_area(a, b), joint_area(a, b))
}

pub open spec fn fits_i32(v: int) -> bool {
    i32::MIN <= v <= i32::MAX
}

/// The far edges of two stretches, and the distance from the later start to the
/// nearer end, are all within the range of coordinates.
pub open spec fn stretches_fit(a: int, a_length: int, b: int, b_length: int) -> bool {
    &&& fits_i32(a + a_length)
    &&& fits_i32(b + b_length)
    &&& fits_i32(smaller_int(a + a_length, b + b_length) - larger_int(a, b))
}

/// The corners of two rectangles are within the range of coordinates.
pub open spec fn corners_fit(a: Rect, b: Rect) -> bool {
    &&& stretches_fit(a.x as int, a.width as int, b.x as int, b.width as int)
    &&& stretches_fit(a.y as int, a.height as int, b.y as int, b.height as int)
}

fn length_in_common(a: i32, a_length: i32, b: i32, b_length: i32) -> (r: i32)
    requires
        stretches_fit(a as int, a_length as int, b as int, b_length as int),
    ensures
        r == shared_length(a as int, a_length as int, b as int, b_length as int),
{
    let start: i32 = if a >= b { a } else { b };
    let a_end: i32 = a + a_length;
    let b_end: i32 = b + b_length;
    let end: i32 = if a_end <= b_end { a_end } else { b_end };
    if end - start >= 0 {
        end - start
    } else {
        0
    }
}

/// Intersection over union.
pub fn iou(a: &Rect, b: &Rect) -> (r: Double)
    requires
        corners_fit(*a, *b),
    ensures
        r == overlap(*a, *b),
{
    let w: i32 = length_in_common(a.x, a.width, b.x, b.width);
    let h: i32 = length_in_common(a.y, a.height, b.y, b.height);
    let inter: Double = Double::from_i32(w).times(Double::from_i32(h));
    let area_a: Double = Double::from_i32(a.width).times(Double::from_i32(a.height));
    let area_b: Double = Double::from_i32(b.width).times(Double::from_i32(b.height));
    let joint: Double = area_a.plus(area_b).minus(inter);
    if (Double { bits: 0 }).at_least(joint) {
        Double { bits: 0 }
    } else {
        inter.divided_by(joint)
    }
}

proof fn lemma_shared_within(a: int, a_length: int, b: int, b_length: int)
    requires
        a_length >= 0,
        b_length >= 0,
    ensures
        0 <= shared_length(a, a_length, b, b_length) <= a_length,
        shared_length(a, a_length, b, b_length) <= b_length,
        shared_length(a, a_length, b, b_length) == shared_length(b, b_length, a, a_length),
{
}

/// Which of two rectangles comes first does not matter to their overlap.
pub proof fn law_overlap_symmetric(a: Rect, b: Rect)
    ensures
        overlap(a, b) == overlap(b, a),
{
    lemma_area_finite(a.width, a.height);
    lemma_area_finite(b.width, b.height);
    law_sum_commutes(area(a), area(b));
}

/// The magnitude of a product of two lengths.
proof fn lemma_area_magnitude(w: int, h: int)
    requires
        0 <= w <= 0x8000_0000,
        0 <= h <= 0x8000_0000,
    ensures
        product(from_int(w), from_int(h)) == signed(false, rounded((w * h) as nat * one_in_units(), 1)),
        rounded((w * h) as nat * one_in_units(), 1) < INFINITE_MAGNITUDE,
        product(from_int(w), from_int(h)).finite(),
        !product(from_int(w), from_int(h)).negative(),
        units(product(from_int(w), from_int(h)).magnitude()) <= 0x4000_0000_0000_0000
            * one_in_units(),
{
    lemma_whole_product(w as nat, h as nat);
    vstd::arithmetic::power2::lemma2_to64();
    let v = (w * h) as nat;
    assert(0 <= w * h <= 0x4000_0000_0000_0000) by (nonlinear_arith)
        requires
            0 <= w <= 0x8000_0000,
            0 <= h <= 0x8000_0000,
    ;
    let n = nearest(v * one_in_units(), 1);
    let top = nearest(0x4000_0000_0000_0000 * one_in_units(), 1);
    assert(v * one_in_units() <= 0x4000_0000_0000_0000 * one_in_units()) by (nonlinear_arith)
        requires
            v <= 0x4000_0000_0000_0000,
    ;
    law_rounding_keeps_order(
        v * one_in_units(),
        1,
        0x4000_0000_0000_0000 * one_in_units(),
        1,
    );
    vstd::arithmetic::power2::lemma2_to64_rest();
    vstd::arithmetic::power2::lemma_pow2_adds(62, 1074);
    lemma_nearest_exact(1, 1136);
    assert(units(top) == 0x4000_0000_0000_0000 * one_in_units());
    lemma_finite(top, 0x4000_0000_0000_0000);
    lemma_units_order(n, top);
}

proof fn lemma_area_finite(w: i32, h: i32)
    ensures
        !product(from_int(w as int), from_int(h as int)).nan(),
{
    let (aw, ah) = (
        if w < 0 {
            -(w as int)
        } else {
            w as int
        },
        if h < 0 {
            -(h as int)
        } else {
            h as int
        },
    );
    lemma_whole(aw as nat);
    lemma_whole(ah as nat);
    lemma_area_magnitude(aw, ah);
    let (x, y) = (from_int(w as int), from_int(h as int));
    assert(x.magnitude() == from_nat(aw as nat).magnitude());
    assert(y.magnitude() == from_nat(ah as nat).magnitude());
    assert(product(x, y).magnitude() == product(from_int(aw), from_int(ah)).magnitude());
}

/// Twice a magnitude is met exactly.
proof fn lemma_twice(m: nat)
    ensures
        units(nearest(2 * units(m), 1)) == 2 * units(m),
{
    let h = HIDDEN_BIT as nat;
    let twice = 2 * units(m);
    if m >= h {
        lemma_units_step(m);
        lemma_nearest_of_units(h + m);
    } else {
        lemma_nearest_exact(m, 1);
        vstd::arithmetic::power2::lemma2_to64();
    }
}

/// The sum of two areas is finite, and at least twice what is in both.
proof fn lemma_both(x: Double, y: Double, i: Double)
    requires
        x.finite() && !x.negative(),
        y.finite() && !y.negative(),
        i.finite() && !i.negative(),
        i.magnitude() <= x.magnitude(),
        i.magnitude() <= y.magnitude(),
        units(x.magnitude()) <= 0x4000_0000_0000_0000 * one_in_units(),
        units(y.magnitude()) <= 0x4000_0000_0000_0000 * one_in_units(),
    ensures
        sum(x, y).finite(),
        !sum(x, y).negative(),
        units(sum(x, y).magnitude()) >= 2 * units(i.magnitude()),
        i == x && i == y ==> units(sum(x, y).magnitude()) == 2 * units(i.magnitude()),
{
    let (mx, my, mi) = (x.magnitude(), y.magnitude(), i.magnitude());
    let both = units(mx) + units(my);
    let top = 0x8000_0000_0000_0000nat;
    lemma_units_order(mi, mx);
    lemma_units_order(mi, my);
    vstd::arithmetic::power2::lemma2_to64();
    vstd::arithmetic::power2::lemma2_to64_rest();
    vstd::arithmetic::power2::lemma_pow2_adds(63, 1074);
    lemma_nearest_exact(1, 1137);
    assert(both <= top * one_in_units());
    law_rounding_keeps_order(both, 1, top * one_in_units(), 1);
    lemma_finite(nearest(top * one_in_units(), 1), top);
    assert(units(0) == 0);
    lemma_nearest_of_units(0);
    law_rounding_keeps_order(2 * units(mi), 1, both, 1);
    lemma_twice(mi);
    lemma_units_order(nearest(2 * units(mi), 1), nearest(both, 1));
    assert(sum(x, y) == signed(false, nearest(both, 1)));
}

/// What is left of a sum that is at least twice a number, when the number is
/// taken away, is at least the number.
proof fn lemma_left(s: Double, i: Double)
    requires
        s.finite() && !s.negative(),
        i.finite() && !i.negative(),
        units(s.magnitude()) >= 2 * units(i.magnitude()),
    ensures
        difference(s, i).finite(),
        !difference(s, i).negative(),
        i.magnitude() <= difference(s, i).magnitude(),
        units(s.magnitude()) == 2 * units(i.magnitude()) ==> difference(s, i) == i,
{
    let (ms, mi) = (s.magnitude(), i.magnitude());
    let rest = (units(ms) - units(mi)) as nat;
    let o = opposite(i);
    assert(o.negative() && o.magnitude() == mi);
    assert(units(0) == 0);
    lemma_nearest_of_units(0);
    lemma_nearest_of_units(mi);
    lemma_nearest_of_units(ms);
    law_rounding_keeps_order(units(mi), 1, rest, 1);
    law_rounding_keeps_order(rest, 1, units(ms), 1);
    assert(difference(s, i) == signed(false, nearest(rest, 1)));
    assert(signed(false, mi) == i);
}

/// What two rectangles cover together is at least what they share.
proof fn lemma_joint(a: Rect, b: Rect)
    requires
        a.width >= 0,
        a.height >= 0,
        b.width >= 0,
        b.height >= 0,
    ensures
        shared_area(a, b).finite(),
        !shared_area(a, b).negative(),
        joint_area(a, b).finite(),
        !joint_area(a, b).negative(),
        shared_area(a, b).magnitude() <= joint_area(a, b).magnitude(),
        shared_area(a, b) == area(a) && shared_area(a, b) == area(b) ==> joint_area(a, b) == area(a),
{
    let (sw, sh) = (shared_width(a, b), shared_height(a, b));
    lemma_shared_within(a.x as int, a.width as int, b.x as int, b.width as int);
    lemma_shared_within(a.y as int, a.height as int, b.y as int, b.height as int);
    lemma_area_magnitude(a.width as int, a.height as int);
    lemma_area_magnitude(b.width as int, b.height as int);
    lemma_area_magnitude(sw, sh);
    lemma_area_grows(sw, sh, a.width as int, a.height as int);
    lemma_area_grows(sw, sh, b.width as int, b.height as int);
    lemma_both(area(a), area(b), shared_area(a, b));
    lemma_left(sum(area(a), area(b)), shared_area(a, b));
}

/// Larger sides do not make a smaller area.
proof fn lemma_area_grows(w: int, h: int, more_w: int, more_h: int)
    requires
        0 <= w <= more_w <= 0x8000_0000,
        0 <= h <= more_h <= 0x8000_0000,
    ensures
        product(from_int(w), from_int(h)).magnitude() <= product(
            from_int(more_w),
            from_int(more_h),
        ).magnitude(),
{
    lemma_area_magnitude(w, h);
    lemma_area_magnitude(more_w, more_h);
    assert(0 <= w * h <= more_w * more_h) by (nonlinear_arith)
        requires
            0 <= w <= more_w,
            0 <= h <= more_h,
    ;
    let u = one_in_units();
    assert((w * h) as nat * u <= (more_w * more_h) as nat * u) by (nonlinear_arith)
        requires
            0 <= w * h <= more_w * more_h,
    ;
    law_rounding_keeps_order((w * h) as nat * u, 1, (more_w * more_h) as nat * u, 1);
}

/// A part over the whole lies between zero and one.
proof fn lemma_share(part: Double, all: Double)
    requires
        part.finite() && !part.negative(),
        all.finite() && !all.negative(),
        part.magnitude() <= all.magnitude(),
    ensures
        at_least(share_of(part, all), zero()),
        at_least(one(), share_of(part, all)),
        part == all && all.magnitude() > 0 ==> share_of(part, all) == one(),
        part.magnitude() == 0 ==> share_of(part, all) == zero(),
{
    lemma_one();
    if all.magnitude() > 0 {
        lemma_part_of_whole(part, all);
    }
}

proof fn lemma_part_of_whole(part: Double, all: Double)
    requires
        part.finite() && !part.negative(),
        all.finite() && !all.negative(),
        part.magnitude() <= all.magnitude(),
        all.magnitude() > 0,
    ensures
        at_least(quotient(part, all), zero()),
        at_least(one(), quotient(part, all)),
        part == all ==> quotient(part, all) == one(),
        part.magnitude() == 0 ==> quotient(part, all) == zero(),
{
    let u = one_in_units();
    let (p, q) = (units(part.magnitude()), units(all.magnitude()));
    lemma_one();
    lemma_pow2_pos(1074);
    assert(units(0) == 0);
    lemma_units_order(part.magnitude(), all.magnitude());
    lemma_units_order(0, all.magnitude());
    assert((p * u) * 1 <= u * q) by (nonlinear_arith)
        requires
            p <= q,
    ;
    law_rounding_keeps_order(p * u, q, u, 1);
    lemma_nearest_of_units(ONE_BITS as nat);
    assert(quotient(part, all) == signed(false, rounded(p * u, q)));
    if part == all {
        lemma_nearest_scaled(u, 1, q);
        assert(q * 1 == q);
    }
    if p == 0 {
        lemma_nearest_scaled(0, 1, q);
        assert(0 * u == 0 && q * 0 == 0 && q * 1 == q);
        lemma_nearest_of_units(0);
    }
}

/// The overlap of two rectangles lies between zero and one.
pub proof fn law_overlap_is_a_share(a: Rect, b: Rect)
    requires
        a.width >= 0,
        a.height >= 0,
        b.width >= 0,
        b.height >= 0,
    ensures
        at_least(overlap(a, b), zero()),
        at_least(one(), overlap(a, b)),
{
    lemma_joint(a, b);
    lemma_share(shared_area(a, b), joint_area(a, b));
}

/// A rectangle that covers anything overlaps itself fully.
pub proof fn law_overlap_with_itself(a: Rect)
    requires
        a.width > 0,
        a.height > 0,
    ensures
        overlap(a, a) == one(),
{
    lemma_joint(a, a);
    lemma_pow2_pos(1074);
    let u = one_in_units();
    assert(shared_area(a, a) == area(a));
    lemma_area_grows(1, 1, a.width as int, a.height as int);
    lemma_area_magnitude(1, 1);
    lemma_whole(1);
    assert(units(0) == 0 && 1 * u == u);
    lemma_units_order(0, from_nat(1).magnitude());
    let joint = joint_area(a, a);
    assert(joint == area(a));
    assert(joint.magnitude() > 0);
    lemma_share(shared_area(a, a), joint);
}

/// Rectangles that share nothing do not overlap.
pub proof fn law_no_overlap_apart(a: Rect, b: Rect)
    requires
        a.width >= 0,
        a.height >= 0,
        b.width >= 0,
        b.height >= 0,
        shared_width(a, b) == 0 || shared_height(a, b) == 0,
    ensures
        overlap(a, b) == zero(),
{
    lemma_joint(a, b);
    let (sw, sh) = (shared_width(a, b), shared_height(a, b));
    lemma_shared_within(a.x as int, a.width as int, b.x as int, b.width as int);
    lemma_shared_within(a.y as int, a.height as int, b.y as int, b.height as int);
    lemma_area_magnitude(sw, sh);
    assert(sw * sh == 0) by (nonlinear_arith)
        requires
            sw == 0 || sh == 0,
    ;
    lemma_one();
    lemma_whole(0);
    assert(shared_area(a, b).magnitude() == 0);
    lemma_share(shared_area(a, b), joint_area(a, b));
}

/// The overlap of two rectangles is the area that both cover over the area that
/// at least one covers, off by no more than 2^-53; zero where nothing is covered.
pub proof fn law_overlap_is_ratio(a: Rect, b: Rect)
    requires
        a.width >= 0,
        a.height >= 0,
        b.width >= 0,
        b.height >= 0,
        a.width * a.height + b.width * b.height < 2 * HIDDEN_BIT,
    ensures
        ({
            let left = if a.x >= b.x { a.x as int } else { b.x as int };
            let top = if a.y >= b.y { a.y as int } else { b.y as int };
            let right = if a.x + a.width <= b.x + b.width { a.x + a.width } else { b.x + b.width };
            let bottom = if a.y + a.height <= b.y + b.height {
                a.y + a.height
            } else {
                b.y + b.height
            };
            let both = if left < right && top < bottom {
                (right - left) * (bottom - top)
            } else {
                0
            };
            let either = a.width * a.height + b.width * b.height - both;
            let x = overlap(a, b);
            &&& 0 <= both <= either
            &&& either == 0 ==> x == zero()
            &&& either > 0 ==> x == quotient(from_nat(both as nat), from_nat(either as nat))
            &&& either > 0 ==> x.finite() && !x.negative() && distance(
                both * one_in_units(),
                either * units(x.magnitude()),
            ) <= either * pow2(1021)
        }),
{
    let (w, h) = (shared_width(a, b), shared_height(a, b));
    let both = w * h;
    let (area_a, area_b) = (a.width * a.height, b.width * b.height);
    let either = area_a + area_b - both;
    lemma_shared_within(a.x as int, a.width as int, b.x as int, b.width as int);
    lemma_shared_within(a.y as int, a.height as int, b.y as int, b.height as int);
    assert(0 <= both <= area_a && both <= area_b) by (nonlinear_arith)
        requires
            both == w * h,
            area_a == a.width * a.height,
            area_b == b.width * b.height,
            0 <= w <= a.width,
            0 <= h <= a.height,
            w <= b.width,
            h <= b.height,
    ;
    assert(w == 0 || h == 0 ==> both == 0) by (nonlinear_arith)
        requires
            both == w * h,
    ;
    lemma_whole_product(w as nat, h as nat);
    lemma_whole_product(a.width as nat, a.height as nat);
    lemma_whole_product(b.width as nat, b.height as nat);
    lemma_whole_sum(area_a as nat, area_b as nat);
    lemma_whole_difference((area_a + area_b) as nat, both as nat);
    lemma_one();
    lemma_whole_order(0, either as nat);
    if either > 0 {
        law_share_error(both as nat, either as nat);
    }
}

} // verus!
