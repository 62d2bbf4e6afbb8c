//! That the variance of a template is what it is meant to be: the mean square of
//! its pixels less the square of their mean, for the channel that varies least.
use crate::double::{
    at_least, difference, from_nat, less, one, one_in_units, opposite, product, quotient, zero,
    Double, LARGEST_BITS,
};
use crate::exact::{
    law_order_of_values, lemma_distance_scaled, lemma_finite, lemma_one, lemma_quotient_between,
    lemma_quotient_magnitude, lemma_units_order, lemma_whole,
};
use crate::masking::total_over;
use crate::matching::{chosen_method, Method};
use crate::picture::{Mask, Picture, Pixel};
use crate::rounding::{distance, law_rounding_error, nearest, units, HIDDEN_BIT};
use crate::variance::{
    channel, channel_total, channel_variance, counted, counted_before, law_sums_are_exact, smaller,
    smallest_variance, square_total, variance,
};
use vstd::arithmetic::power2::{lemma_pow2_adds, lemma_pow2_pos, pow2};
use vstd::prelude::*;

verus! {

/// One, and some of its parts, in units.
proof fn lemma_parts()
    ensures
        pow2(1029) > 0,
        one_in_units() == 0x2000_0000_0000 * pow2(1029),
        pow2(1037) == 256 * pow2(1029),
        pow2(1040) == 2048 * pow2(1029),
        255 * one_in_units() <= 2 * HIDDEN_BIT * pow2(1029),
        65536 * one_in_units() <= 2 * HIDDEN_BIT * pow2(1037),
{
    lemma_pow2_pos(1029);
    vstd::arithmetic::power2::lemma2_to64();
    vstd::arithmetic::power2::lemma2_to64_rest();
    lemma_pow2_adds(45, 1029);
    lemma_pow2_adds(8, 1029);
    lemma_pow2_adds(11, 1029);
    let e = pow2(1029);
    assert(255 * (0x2000_0000_0000 * e) <= 2 * HIDDEN_BIT * e) by (nonlinear_arith)
        requires
            HIDDEN_BIT == 0x10_0000_0000_0000,
            e > 0,
    ;
    assert(65536 * (0x2000_0000_0000 * e) <= 2 * HIDDEN_BIT * (256 * e)) by (nonlinear_arith)
        requires
            HIDDEN_BIT == 0x10_0000_0000_0000,
            e > 0,
    ;
}

/// The quotient of two whole numbers, up to the error of the arithmetic.
proof fn lemma_quotient_error(a: nat, b: nat, hi: nat, e: nat)
    requires
        0 < b < 2 * HIDDEN_BIT,
        a < 2 * HIDDEN_BIT,
        a <= hi * b,
        hi <= 0x1_0000,
        hi * one_in_units() <= 2 * HIDDEN_BIT * pow2(e),
    ensures
        ({
            let q = quotient(from_nat(a), from_nat(b));
            &&& q.finite()
            &&& !q.negative()
            &&& units(q.magnitude()) <= hi * one_in_units()
            &&& distance((a * one_in_units()) as int, (b * units(q.magnitude())) as int) <= b * pow2(
                e,
            )
        }),
{
    let u = one_in_units();
    let t = pow2(e);
    let q = quotient(from_nat(a), from_nat(b));
    let w = units(q.magnitude());
    lemma_pow2_pos(1074);
    assert(0 * b <= a) by (nonlinear_arith)
        requires
            a >= 0,
    ;
    lemma_quotient_between(a, b, 0, hi);
    lemma_quotient_magnitude(a, b);
    lemma_whole(hi);
    lemma_units_order(q.magnitude(), from_nat(hi).magnitude());
    let n = (a * u) * u;
    let d = b * u;
    assert(n <= d * (2 * HIDDEN_BIT * t)) by (nonlinear_arith)
        requires
            n == (a * u) * u,
            d == b * u,
            a <= hi * b,
            hi * u <= 2 * HIDDEN_BIT * t,
            u >= 0,
            b >= 0,
    ;
    law_rounding_error(n, d, e);
    assert(u * (a * u) == n && u * (b * w) == d * w && u * (b * t) == d * t) by (nonlinear_arith)
        requires
            n == (a * u) * u,
            d == b * u,
    ;
    lemma_distance_scaled((a * u) as int, (b * w) as int, (b * t) as int, u as int);
}

/// The square of a number up to 255, up to the error of the arithmetic.
proof fn lemma_square_error(m: Double)
    requires
        m.finite(),
        !m.negative(),
        units(m.magnitude()) <= 255 * one_in_units(),
    ensures
        product(m, m).finite(),
        !product(m, m).negative(),
        distance(
            (units(m.magnitude()) * units(m.magnitude())) as int,
            (one_in_units() * units(product(m, m).magnitude())) as int,
        ) <= one_in_units() * pow2(1037),
        units(product(m, m).magnitude()) <= 65025 * one_in_units() + pow2(1037),
{
    let u = one_in_units();
    let w = units(m.magnitude());
    lemma_parts();
    let n = w * w;
    assert(n <= u * (65025 * u)) by (nonlinear_arith)
        requires
            n == w * w,
            0 <= w <= 255 * u,
    ;
    assert(65025 * u <= 2 * HIDDEN_BIT * pow2(1037));
    assert(u * (65025 * u) <= u * (2 * HIDDEN_BIT * pow2(1037))) by (nonlinear_arith)
        requires
            u >= 0,
            65025 * u <= 2 * HIDDEN_BIT * pow2(1037),
    ;
    law_rounding_error(n, u, 1037);
    let p = units(nearest(n, u));
    assert(p <= 65025 * u + pow2(1037)) by (nonlinear_arith)
        requires
            u * p - n <= u * pow2(1037),
            n <= u * (65025 * u),
            u > 0,
    ;
    vstd::arithmetic::power2::lemma2_to64();
    lemma_finite(nearest(n, u), 65026);
}

/// The difference of two numbers up to about 65,025, up to the error of the
/// arithmetic.
proof fn lemma_difference_error(a: Double, b: Double)
    requires
        a.finite(),
        !a.negative(),
        b.finite(),
        !b.negative(),
        units(a.magnitude()) <= 65025 * one_in_units(),
        units(b.magnitude()) <= 65025 * one_in_units() + pow2(1037),
    ensures
        difference(a, b).finite(),
        distance(
            units(a.magnitude()) - units(b.magnitude()),
            difference(a, b).value(),
        ) <= pow2(1037),
{
    lemma_parts();
    let o = opposite(b);
    assert(o.negative() && o.magnitude() == b.magnitude());
    assert(units(0) == 0);
    let n = distance(units(a.magnitude()) as int, units(b.magnitude()) as int) as nat;
    law_rounding_error(n, 1, 1037);
    vstd::arithmetic::power2::lemma2_to64();
    lemma_finite(nearest(n, 1), 65536);
}

/// How errors of the parts of a variance add up.
proof fn lemma_variance_arithmetic(
    n: int,
    total: int,
    squares: int,
    mean: int,
    mean_square: int,
    square_mean: int,
    v: int,
    u: int,
    e: int,
)
    requires
        n > 0,
        e > 0,
        u == 0x2000_0000_0000 * e,
        0 <= total <= 255 * n,
        distance(total * u, n * mean) <= n * e,
        distance(squares * u, n * mean_square) <= n * (256 * e),
        distance(mean * mean, u * square_mean) <= u * (256 * e),
        distance(mean_square - square_mean, v) <= 256 * e,
    ensures
        distance((n * n) * v, (n * squares - total * total) * u) <= (n * n) * (2048 * e),
{
    let nn = n * n;
    let d = n * mean - total * u;
    let off = nn * (mean * mean) - (total * total) * (u * u);
    let (a, b) = (n * mean, total * u);
    assert(nn * (mean * mean) == a * a && (total * total) * (u * u) == b * b) by (nonlinear_arith)
        requires
            nn == n * n,
            a == n * mean,
            b == total * u,
    ;
    assert(a * a - b * b == (2 * b) * d + d * d) by (nonlinear_arith)
        requires
            d == a - b,
    ;
    assert(off == (2 * (total * u)) * d + d * d);
    assert(0 <= d * d <= (n * e) * (n * e)) by (nonlinear_arith)
        requires
            -(n * e) <= d <= n * e,
    ;
    assert((n * e) * (n * e) <= nn * (e * u)) by (nonlinear_arith)
        requires
            nn == n * n,
            0 < e <= u,
            n > 0,
    ;
    assert(-(510 * (nn * (e * u))) <= (2 * (total * u)) * d <= 510 * (nn * (e * u)))
        by (nonlinear_arith)
        requires
            -(n * e) <= d <= n * e,
            0 <= total <= 255 * n,
            nn == n * n,
            n > 0,
            e > 0,
            u > 0,
    ;
    let p = nn * square_mean;
    assert(nn * (u * square_mean) == u * p) by (nonlinear_arith)
        requires
            p == nn * square_mean,
    ;
    let gap = mean * mean - u * square_mean;
    assert(-(nn * (u * (256 * e))) <= nn * gap <= nn * (u * (256 * e))) by (nonlinear_arith)
        requires
            -(u * (256 * e)) <= gap <= u * (256 * e),
            nn == n * n,
    ;
    assert(nn * gap == nn * (mean * mean) - nn * (u * square_mean)) by (nonlinear_arith)
        requires
            gap == mean * mean - u * square_mean,
    ;
    assert(nn * (u * (256 * e)) == 256 * (nn * (e * u))) by (nonlinear_arith);
    let reach = nn * (e * u);
    assert(-(767 * reach) <= u * p - (total * total) * (u * u) <= 767 * reach);
    let tt = total * total;
    assert(tt * (u * u) == u * (tt * u)) by (nonlinear_arith);
    assert(reach == u * (nn * e)) by (nonlinear_arith)
        requires
            reach == nn * (e * u),
    ;
    assert(-(767 * (nn * e)) <= p - tt * u <= 767 * (nn * e)) by (nonlinear_arith)
        requires
            -(767 * (u * (nn * e))) <= u * p - u * (tt * u) <= 767 * (u * (nn * e)),
            u > 0,
    ;
    let s = nn * mean_square - (n * squares) * u;
    assert(s == n * (n * mean_square - squares * u)) by (nonlinear_arith)
        requires
            s == nn * mean_square - (n * squares) * u,
            nn == n * n,
    ;
    let t = n * mean_square - squares * u;
    assert(-(256 * (nn * e)) <= n * t <= 256 * (nn * e)) by (nonlinear_arith)
        requires
            -(n * (256 * e)) <= t <= n * (256 * e),
            nn == n * n,
            n > 0,
    ;
    let last = v - (mean_square - square_mean);
    assert(-(256 * (nn * e)) <= nn * last <= 256 * (nn * e)) by (nonlinear_arith)
        requires
            -(256 * e) <= last <= 256 * e,
            nn == n * n,
    ;
    assert(nn * last == nn * v - nn * mean_square + p) by (nonlinear_arith)
        requires
            last == v - (mean_square - square_mean),
            p == nn * square_mean,
    ;
    assert((n * squares - tt) * u == (n * squares) * u - tt * u) by (nonlinear_arith);
    assert(nn * (2048 * e) == 2048 * (nn * e)) by (nonlinear_arith);
    assert(nn * e >= 0) by (nonlinear_arith)
        requires
            nn == n * n,
            e > 0,
    ;
}

/// The variance of one channel is the mean square less the square of the mean, up
/// to the error of the arithmetic.
pub proof fn law_channel_variance(pixels: Seq<Pixel>, ch: int)
    requires
        pixels.len() > 0,
        pixels.len() * 65025 < 2 * HIDDEN_BIT,
    ensures
        channel_variance(pixels, ch).finite(),
        ({
            let n = pixels.len() as int;
            let (total, squares) = (channel_total(pixels, ch), square_total(pixels, ch));
            distance(
                (n * n) * channel_variance(pixels, ch).value(),
                (n * squares - total * total) * one_in_units(),
            ) <= (n * n) * pow2(1040)
        }),
{
    let n = pixels.len();
    let (total, squares) = (channel_total(pixels, ch), square_total(pixels, ch));
    lemma_parts();
    law_sums_are_exact(pixels, ch);
    lemma_quotient_error(total, n, 255, 1029);
    lemma_quotient_error(squares, n, 65025, 1037);
    let mean = quotient(from_nat(total), from_nat(n));
    let mean_square = quotient(from_nat(squares), from_nat(n));
    lemma_square_error(mean);
    lemma_difference_error(mean_square, product(mean, mean));
    lemma_variance_arithmetic(
        n as int,
        total as int,
        squares as int,
        units(mean.magnitude()) as int,
        units(mean_square.magnitude()) as int,
        units(product(mean, mean).magnitude()) as int,
        channel_variance(pixels, ch).value(),
        one_in_units() as int,
        pow2(1029) as int,
    );
}

/// The cells of a template that count before row `r` and column `c`.
spec fn counting_before(templ: &Picture, mask: &Option<Mask>, r: int, c: int) -> Seq<(int, int)>
    decreases r, c,
{
    if c > 0 {
        let before = counting_before(templ, mask, r, c - 1);
        if counts(templ, mask, r, c - 1) {
            before.push((r, c - 1))
        } else {
            before
        }
    } else if r > 0 {
        counting_before(templ, mask, r - 1, templ.cols as int)
    } else {
        Seq::empty()
    }
}

/// Whether a cell of a template counts: it has a pixel that can be read, and no
/// mask reads zero there.
pub open spec fn counts(templ: &Picture, mask: &Option<Mask>, r: int, c: int) -> bool {
    templ.at(r, c) is Some && !(mask is Some && mask->0.at(r, c) == Some(0u8))
}

/// The pixels of a template in the given cells.
spec fn pixels_of(templ: &Picture, cells: Seq<(int, int)>) -> Seq<Pixel> {
    cells.map_values(|q: (int, int)| templ.at(q.0, q.1)->0)
}

proof fn lemma_counting(templ: &Picture, mask: &Option<Mask>, r: int, c: int)
    requires
        0 <= r,
        0 <= c <= templ.cols,
    ensures
        counted_before(templ, mask, r, c) == pixels_of(templ, counting_before(templ, mask, r, c)),
        counting_before(templ, mask, r, c).no_duplicates(),
        forall|s: int, d: int|
            #![trigger counting_before(templ, mask, r, c).contains((s, d))]
            counting_before(templ, mask, r, c).contains((s, d)) <==> counts(templ, mask, s, d) && (s
                < r || (s == r && d < c)),
        counting_before(templ, mask, r, c).len() <= r * templ.cols + c,
    decreases r, c,
{
    let all = counting_before(templ, mask, r, c);
    if c > 0 {
        lemma_counting(templ, mask, r, c - 1);
        let few = counting_before(templ, mask, r, c - 1);
        assert(!few.contains((r, c - 1)));
        if counts(templ, mask, r, c - 1) {
            assert forall|s: int, d: int| #[trigger] all.contains((s, d)) <==> counts(
                templ,
                mask,
                s,
                d,
            ) && (s < r || (s == r && d < c)) by {
                if all.contains((s, d)) {
                    let i = all.index_of((s, d));
                    if i < few.len() {
                        assert(few[i] == (s, d));
                        assert(few.contains((s, d)));
                    }
                }
                if few.contains((s, d)) {
                    let i = few.index_of((s, d));
                    assert(all[i] == (s, d));
                }
                assert(all[few.len() as int] == (r, c - 1));
            }
            assert forall|i: int, j: int|
                0 <= i < all.len() && 0 <= j < all.len() && i != j implies all[i] != all[j] by {
                if i < few.len() && j < few.len() {
                    assert(few[i] != few[j]);
                } else if i < few.len() {
                    assert(few.contains(few[i]));
                } else {
                    assert(few.contains(few[j]));
                }
            }
            assert(pixels_of(templ, all) =~= pixels_of(templ, few).push(templ.at(r, c - 1)->0));
        } else {
            assert forall|s: int, d: int| #[trigger] all.contains((s, d)) <==> counts(
                templ,
                mask,
                s,
                d,
            ) && (s < r || (s == r && d < c)) by {
                assert(few.contains((s, d)) <==> counts(templ, mask, s, d) && (s < r || (s == r && d
                    < c - 1)));
            }
        }
    } else if r > 0 {
        lemma_counting(templ, mask, r - 1, templ.cols as int);
        assert((r - 1) * templ.cols + templ.cols == r * templ.cols) by (nonlinear_arith);
        assert forall|s: int, d: int| #[trigger] all.contains((s, d)) <==> counts(
            templ,
            mask,
            s,
            d,
        ) && (s < r || (s == r && d < c)) by {}
    } else {
        assert(0 * templ.cols == 0) by (nonlinear_arith);
        assert(pixels_of(templ, all) =~= Seq::empty());
    }
}

/// The sum over some cells of a template, and that of the squares, for the given
/// channel.
proof fn lemma_sums(templ: &Picture, cells: Seq<(int, int)>, ch: int, value: spec_fn(int, int) -> nat)
    requires
        forall|r: int, c: int| #[trigger] value(r, c) == channel(templ.at(r, c)->0, ch),
    ensures
        channel_total(pixels_of(templ, cells), ch) == total_over(cells, value),
        square_total(pixels_of(templ, cells), ch) == total_over(
            cells,
            |r: int, c: int| value(r, c) * value(r, c),
        ),
    decreases cells.len(),
{
    let pixels = pixels_of(templ, cells);
    if cells.len() > 0 {
        lemma_sums(templ, cells.drop_last(), ch, value);
        assert(pixels.drop_last() =~= pixels_of(templ, cells.drop_last()));
        assert(value(cells.last().0, cells.last().1) == channel(pixels.last(), ch));
    }
}

/// The number of cells times the sum of the squares, less the square of the sum:
/// the variance of a value over some cells, times the square of their number.
pub open spec fn scaled_variance(cells: Seq<(int, int)>, value: spec_fn(int, int) -> nat) -> int {
    cells.len() * total_over(cells, |r: int, c: int| value(r, c) * value(r, c)) - total_over(
        cells,
        value,
    ) * total_over(cells, value)
}

proof fn lemma_smaller(x: Double, y: Double)
    requires
        x.finite(),
        y.finite(),
    ensures
        smaller(x, y) == x || smaller(x, y) == y,
        smaller(x, y).finite(),
        at_least(x, smaller(x, y)),
        at_least(y, smaller(x, y)),
{
}

/// No finite number is above the largest.
proof fn lemma_largest(x: Double)
    requires
        x.finite(),
    ensures
        smaller(Double { bits: LARGEST_BITS }, x) == x,
{
    let largest = Double { bits: LARGEST_BITS };
    assert(largest.magnitude() == LARGEST_BITS && !largest.negative());
    assert(x.magnitude() <= LARGEST_BITS);
    if !less(x, largest) {
        assert(!x.negative() && x.magnitude() == LARGEST_BITS);
        assert(x.bits == LARGEST_BITS);
    }
}

/// The smallest of three variances is one of them, and no other is smaller.
proof fn lemma_smallest(pixels: Seq<Pixel>, a: Double, b: Double, c: Double)
    requires
        a == channel_variance(pixels, 0),
        b == channel_variance(pixels, 1),
        c == channel_variance(pixels, 2),
        a.finite(),
        b.finite(),
        c.finite(),
    ensures
        ({
            let v = smallest_variance(pixels);
            &&& v == a || v == b || v == c
            &&& at_least(a, v) && at_least(b, v) && at_least(c, v)
        }),
{
    lemma_largest(a);
    lemma_smaller(a, b);
    lemma_smaller(smaller(a, b), c);
}

/// The variance of a template is that of the channel that varies least over the
/// cells that count, each of which counts once, up to the error of the arithmetic;
/// and zero where there are fewer than two rows, columns or such cells.
pub proof fn law_variance_is_least(templ: &Picture, mask: &Option<Mask>) -> (cells: Seq<(int, int)>)
    requires
        templ.wf(),
        (templ.rows * templ.cols) * 65025 < 2 * HIDDEN_BIT,
    ensures
        cells.no_duplicates(),
        forall|r: int, c: int|
            #![trigger cells.contains((r, c))]
            cells.contains((r, c)) <==> counts(templ, mask, r, c),
        templ.rows < 2 || templ.cols < 2 || cells.len() < 2 ==> variance(templ, mask) == zero(),
        templ.rows >= 2 && templ.cols >= 2 && cells.len() >= 2 ==> ({
            let n = cells.len() * cells.len();
            let v = variance(templ, mask);
            let blue = scaled_variance(cells, |r: int, c: int| templ.at(r, c)->0.b as nat);
            let green = scaled_variance(cells, |r: int, c: int| templ.at(r, c)->0.g as nat);
            let red = scaled_variance(cells, |r: int, c: int| templ.at(r, c)->0.r as nat);
            let (u, off) = (one_in_units(), n * pow2(1040));
            &&& v.finite()
            &&& n * v.value() <= blue * u + off
            &&& n * v.value() <= green * u + off
            &&& n * v.value() <= red * u + off
            &&& n * v.value() >= blue * u - off || n * v.value() >= green * u - off || n * v.value()
                >= red * u - off
        }),
{
    let cells = counting_before(templ, mask, templ.rows as int, 0);
    let pixels = counted(templ, mask);
    lemma_counting(templ, mask, templ.rows as int, 0);
    if templ.rows >= 2 && templ.cols >= 2 && cells.len() >= 2 {
        let n = (cells.len() * cells.len()) as int;
        let v = variance(templ, mask);
        let b = |r: int, c: int| templ.at(r, c)->0.b as nat;
        let g = |r: int, c: int| templ.at(r, c)->0.g as nat;
        let d = |r: int, c: int| templ.at(r, c)->0.r as nat;
        lemma_sums(templ, cells, 0, b);
        lemma_sums(templ, cells, 1, g);
        lemma_sums(templ, cells, 2, d);
        law_channel_variance(pixels, 0);
        law_channel_variance(pixels, 1);
        law_channel_variance(pixels, 2);
        lemma_smallest(
            pixels,
            channel_variance(pixels, 0),
            channel_variance(pixels, 1),
            channel_variance(pixels, 2),
        );
        law_order_of_values(channel_variance(pixels, 0), v);
        law_order_of_values(channel_variance(pixels, 1), v);
        law_order_of_values(channel_variance(pixels, 2), v);
        let (x, y, z) = (
            channel_variance(pixels, 0).value(),
            channel_variance(pixels, 1).value(),
            channel_variance(pixels, 2).value(),
        );
        assert(n * v.value() <= n * x && n * v.value() <= n * y && n * v.value() <= n * z)
            by (nonlinear_arith)
            requires
                n >= 0,
                v.value() <= x,
                v.value() <= y,
                v.value() <= z,
        ;
    }
    cells
}

/// A template is matched by squared difference where some channel has a variance
/// below one over the cells that count, and by correlation where all have one
/// above one; within 2^-30 of one the error of the arithmetic may decide.
pub proof fn law_method_by_variance(templ: &Picture, mask: &Option<Mask>) -> (cells: Seq<(int, int)>)
    requires
        templ.wf(),
        (templ.rows * templ.cols) * 65025 < 2 * HIDDEN_BIT,
    ensures
        cells.no_duplicates(),
        forall|r: int, c: int|
            #![trigger cells.contains((r, c))]
            cells.contains((r, c)) <==> counts(templ, mask, r, c),
        ({
            let n = cells.len() * cells.len();
            let blue = scaled_variance(cells, |r: int, c: int| templ.at(r, c)->0.b as nat);
            let green = scaled_variance(cells, |r: int, c: int| templ.at(r, c)->0.g as nat);
            let red = scaled_variance(cells, |r: int, c: int| templ.at(r, c)->0.r as nat);
            let (below, above) = (n * 0x3fff_ffff, n * 0x4000_0001);
            let few = templ.rows < 2 || templ.cols < 2 || cells.len() < 2;
            &&& few || blue * 0x4000_0000 <= below || green * 0x4000_0000 <= below || red
                * 0x4000_0000 <= below ==> chosen_method(templ, mask) == Method::SquaredDifference
            &&& !few && blue * 0x4000_0000 >= above && green * 0x4000_0000 >= above && red
                * 0x4000_0000 >= above ==> chosen_method(templ, mask) == Method::Correlation
        }),
{
    let cells = law_variance_is_least(templ, mask);
    let v = variance(templ, mask);
    let u = one_in_units() as int;
    let n = (cells.len() * cells.len()) as int;
    lemma_one();
    lemma_whole(0);
    lemma_whole(1);
    law_order_of_values(v, one());
    if templ.rows >= 2 && templ.cols >= 2 && cells.len() >= 2 {
        let blue = scaled_variance(cells, |r: int, c: int| templ.at(r, c)->0.b as nat);
        let green = scaled_variance(cells, |r: int, c: int| templ.at(r, c)->0.g as nat);
        let red = scaled_variance(cells, |r: int, c: int| templ.at(r, c)->0.r as nat);
        assert(n > 0) by (nonlinear_arith)
            requires
                n == cells.len() * cells.len(),
                cells.len() >= 2,
        ;
        lemma_parts();
        lemma_around_one(n, blue, v.value(), u, pow2(1040) as int);
        lemma_around_one(n, green, v.value(), u, pow2(1040) as int);
        lemma_around_one(n, red, v.value(), u, pow2(1040) as int);
    } else {
        lemma_pow2_pos(1074);
        law_order_of_values(zero(), one());
        assert(zero().value() == 0 && one().value() == u);
    }
    cells
}

proof fn lemma_around_one(n: int, x: int, v: int, u: int, off: int)
    requires
        n > 0,
        u > 0x4000_0000 * off,
        off > 0,
    ensures
        x * 0x4000_0000 <= n * 0x3fff_ffff && n * v <= x * u + n * off ==> v < u,
        x * 0x4000_0000 >= n * 0x4000_0001 && n * v >= x * u - n * off ==> v > u,
{
    if x * 0x4000_0000 <= n * 0x3fff_ffff && n * v <= x * u + n * off {
        assert(v < u) by (nonlinear_arith)
            requires
                n > 0,
                u > 0x4000_0000 * off,
                off > 0,
                x * 0x4000_0000 <= n * 0x3fff_ffff,
                n * v <= x * u + n * off,
        ;
    }
    if x * 0x4000_0000 >= n * 0x4000_0001 && n * v >= x * u - n * off {
        assert(v > u) by (nonlinear_arith)
            requires
                n > 0,
                u > 0x4000_0000 * off,
                off > 0,
                x * 0x4000_0000 >= n * 0x4000_0001,
                n * v >= x * u - n * off,
        ;
    }
}

} // verus!
