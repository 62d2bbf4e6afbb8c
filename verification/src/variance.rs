//! How much the pixels of a template vary.
use crate::double::{difference, from_nat, less, product, quotient, sum, zero, Double, LARGEST_BITS};
use crate::exact::{
    lemma_one, lemma_whole_difference, lemma_whole_product, lemma_whole_quotient, lemma_whole_sum,
};
use crate::picture::{is_masked_out, mask_wf, masked_out, Mask, Picture, Pixel};
use crate::rounding::HIDDEN_BIT;
use vstd::prelude::*;

verus! {

/// The pixel of a template that counts in row `r` and column `c`, if one does:
/// it can be read and the mask does not leave it out.
pub open spec fn counted_pixel(templ: &Picture, mask: &Option<Mask>, r: int, c: int) -> Option<Pixel> {
    if masked_out(mask, r, c) {
        None
    } else {
        templ.at(r, c)
    }
}

/// The pixels that count before row `r` and column `c`, row by row.
pub open spec fn counted_before(templ: &Picture, mask: &Option<Mask>, r: int, c: int) -> Seq<Pixel>
    decreases r, c,
{
    if c > 0 {
        let before = counted_before(templ, mask, r, c - 1);
        match counted_pixel(templ, mask, r, c - 1) {
            Some(p) => before.push(p),
            None => before,
        }
    } else if r > 0 {
        counted_before(templ, mask, r - 1, templ.cols as int)
    } else {
        Seq::empty()
    }
}

/// All pixels of a template that count.
pub open spec fn counted(templ: &Picture, mask: &Option<Mask>) -> Seq<Pixel> {
    counted_before(templ, mask, templ.rows as int, 0)
}

/// The blue, green or red byte of a pixel.
pub open spec fn channel(p: Pixel, ch: int) -> u8 {
    if ch == 0 {
        p.b
    } else if ch == 1 {
        p.g
    } else {
        p.r
    }
}

/// The sum of one channel.
pub open spec fn channel_sum(pixels: Seq<Pixel>, ch: int) -> Double
    decreases pixels.len(),
{
    if pixels.len() == 0 {
        zero()
    } else {
        sum(channel_sum(pixels.drop_last(), ch), from_nat(channel(pixels.last(), ch) as nat))
    }
}

/// The sum of the squares of one channel.
pub open spec fn channel_square_sum(pixels: Seq<Pixel>, ch: int) -> Double
    decreases pixels.len(),
{
    if pixels.len() == 0 {
        zero()
    } else {
        let v = from_nat(channel(pixels.last(), ch) as nat);
        sum(channel_square_sum(pixels.drop_last(), ch), product(v, v))
    }
}

/// The mean of the squares less the square of the mean.
pub open spec fn variance_of(total: Double, squares: Double, n: Double) -> Double {
    let mean = quotient(total, n);
    difference(quotient(squares, n), product(mean, mean))
}

/// The variance of one channel.
pub open spec fn channel_variance(pixels: Seq<Pixel>, ch: int) -> Double {
    variance_of(
        channel_sum(pixels, ch),
        channel_square_sum(pixels, ch),
        from_nat(pixels.len()),
    )
}

/// The smaller of two numbers, the first where they do not compare.
pub open spec fn smaller(a: Double, b: Double) -> Double {
    if less(b, a) {
        b
    } else {
        a
    }
}

/// The smallest of the variances of the three channels.
pub open spec fn smallest_variance(pixels: Seq<Pixel>) -> Double {
    let largest = Double { bits: LARGEST_BITS };
    smaller(
        smaller(smaller(largest, channel_variance(pixels, 0)), channel_variance(pixels, 1)),
        channel_variance(pixels, 2),
    )
}

/// What `template_variance` returns.
pub open spec fn variance(templ: &Picture, mask: &Option<Mask>) -> Double {
    if templ.rows < 2 || templ.cols < 2 || counted(templ, mask).len() < 2 {
        zero()
    } else {
        smallest_variance(counted(templ, mask))
    }
}

/// Running sums of one channel.
#[derive(Clone, Copy)]
struct Sums {
    total: Double,
    squares: Double,
}

impl Sums {
    spec fn of(self, pixels: Seq<Pixel>, ch: int) -> bool {
        self.total == channel_sum(pixels, ch) && self.squares == channel_square_sum(pixels, ch)
    }

    fn start(Ghost(ch): Ghost<int>) -> (s: Sums)
        ensures
            s.of(Seq::empty(), ch),
    {
        Sums { total: Double { bits: 0 }, squares: Double { bits: 0 } }
    }

    fn add_value(
        self,
        v: u8,
        Ghost(pixels): Ghost<Seq<Pixel>>,
        Ghost(p): Ghost<Pixel>,
        Ghost(ch): Ghost<int>,
    ) -> (s: Sums)
        requires
            self.of(pixels, ch),
            v == channel(p, ch),
        ensures
            s.of(pixels.push(p), ch),
    {
        proof {
            assert(pixels.push(p).drop_last() =~= pixels);
        }
        let d: Double = Double::from_u64(v as u64);
        Sums { total: self.total.plus(d), squares: self.squares.plus(d.times(d)) }
    }

    fn variance(self, n: Double) -> (r: Double)
        ensures
            r == variance_of(self.total, self.squares, n),
    {
        let mean: Double = self.total.divided_by(n);
        self.squares.divided_by(n).minus(mean.times(mean))
    }
}

fn smaller_of(a: Double, b: Double) -> (r: Double)
    ensures
        r == smaller(a, b),
{
    if b.less(a) {
        b
    } else {
        a
    }
}

/// No more pixels count than there are cells before the given one.
proof fn lemma_counted_bound(templ: &Picture, mask: &Option<Mask>, r: int, c: int)
    requires
        0 <= r,
        0 <= c <= templ.cols,
    ensures
        counted_before(templ, mask, r, c).len() <= r * templ.cols + c,
    decreases r, c,
{
    if c > 0 {
        lemma_counted_bound(templ, mask, r, c - 1);
    } else if r > 0 {
        lemma_counted_bound(templ, mask, r - 1, templ.cols as int);
        assert((r - 1) * templ.cols + templ.cols == r * templ.cols) by (nonlinear_arith);
    } else {
        assert(0 * templ.cols == 0) by (nonlinear_arith);
    }
}

/// Templates that agree wherever the mask does not leave a pixel out count the
/// same pixels.
pub proof fn lemma_counted_alike(
    a: &Picture,
    b: &Picture,
    mask: &Option<Mask>,
    r: int,
    c: int,
)
    requires
        a.cols == b.cols,
        forall|r: int, c: int| !masked_out(mask, r, c) ==> #[trigger] a.at(r, c) == b.at(r, c),
    ensures
        counted_before(a, mask, r, c) == counted_before(b, mask, r, c),
    decreases r, c,
{
    if c > 0 {
        lemma_counted_alike(a, b, mask, r, c - 1);
        if !masked_out(mask, r, c - 1) {
            assert(a.at(r, c - 1) == b.at(r, c - 1));
        }
    } else if r > 0 {
        lemma_counted_alike(a, b, mask, r - 1, a.cols as int);
    }
}

/// The smallest variance that any channel of a template has over the pixels
/// that the mask lets count. It is near zero for a solid template, on which a
/// normalized correlation divides by almost nothing.
pub fn template_variance(templ: &Picture, mask: &Option<Mask>) -> (r: Double)
    requires
        templ.wf(),
        mask_wf(mask),
    ensures
        r == variance(templ, mask),
{
    let h: i32 = templ.rows;
    let w: i32 = templ.cols;
    if h < 2 || w < 2 {
        return Double { bits: 0 };
    }
    let mut blue: Sums = Sums::start(Ghost(0));
    let mut green: Sums = Sums::start(Ghost(1));
    let mut red: Sums = Sums::start(Ghost(2));
    let mut count: u64 = 0;
    let mut r: i32 = 0;
    while r < h
        invariant
            templ.wf(),
            mask_wf(mask),
            h == templ.rows,
            w == templ.cols,
            0 <= r <= h,
            w >= 2,
            blue.of(counted_before(templ, mask, r as int, 0), 0),
            green.of(counted_before(templ, mask, r as int, 0), 1),
            red.of(counted_before(templ, mask, r as int, 0), 2),
            count == counted_before(templ, mask, r as int, 0).len(),
        decreases h - r,
    {
        let mut c: i32 = 0;
        while c < w
            invariant
                templ.wf(),
                mask_wf(mask),
                h == templ.rows,
                w == templ.cols,
                0 <= r < h,
                0 <= c <= w,
                blue.of(counted_before(templ, mask, r as int, c as int), 0),
                green.of(counted_before(templ, mask, r as int, c as int), 1),
                red.of(counted_before(templ, mask, r as int, c as int), 2),
                count == counted_before(templ, mask, r as int, c as int).len(),
            decreases w - c,
        {
            let ghost before = counted_before(templ, mask, r as int, c as int);
            proof {
                lemma_counted_bound(templ, mask, r as int, c as int);
                assert(r * w + c < 0x8000_0000 * 0x8000_0000) by (nonlinear_arith)
                    requires
                        0 <= r < 0x7fff_ffff,
                        0 <= c < 0x7fff_ffff,
                        0 <= w <= 0x7fff_ffff,
                ;
            }
            if !is_masked_out(mask, r, c) {
                if let Some(p) = templ.pixel(r, c) {
                    blue = blue.add_value(p.b, Ghost(before), Ghost(p), Ghost(0));
                    green = green.add_value(p.g, Ghost(before), Ghost(p), Ghost(1));
                    red = red.add_value(p.r, Ghost(before), Ghost(p), Ghost(2));
                    count = count + 1;
                }
            }
            c = c + 1;
        }
        r = r + 1;
    }
    if count < 2 {
        return Double { bits: 0 };
    }
    let n: Double = Double::from_u64(count);
    let first: Double = smaller_of(Double { bits: LARGEST_BITS }, blue.variance(n));
    let second: Double = smaller_of(first, green.variance(n));
    smaller_of(second, red.variance(n))
}

/// The sum of one channel as a whole number.
pub open spec fn channel_total(pixels: Seq<Pixel>, ch: int) -> nat
    decreases pixels.len(),
{
    if pixels.len() == 0 {
        0
    } else {
        channel_total(pixels.drop_last(), ch) + channel(pixels.last(), ch) as nat
    }
}

/// The sum of the squares of one channel as a whole number.
pub open spec fn square_total(pixels: Seq<Pixel>, ch: int) -> nat
    decreases pixels.len(),
{
    if pixels.len() == 0 {
        0
    } else {
        let v = channel(pixels.last(), ch) as nat;
        square_total(pixels.drop_last(), ch) + v * v
    }
}

/// The sums are exact as long as there are fewer than 2^53 over 255 squared pixels.
pub proof fn law_sums_are_exact(pixels: Seq<Pixel>, ch: int)
    requires
        pixels.len() * 65025 < 2 * HIDDEN_BIT,
    ensures
        channel_total(pixels, ch) <= pixels.len() * 255,
        square_total(pixels, ch) <= pixels.len() * 65025,
        channel_sum(pixels, ch) == from_nat(channel_total(pixels, ch)),
        channel_square_sum(pixels, ch) == from_nat(square_total(pixels, ch)),
    decreases pixels.len(),
{
    lemma_one();
    if pixels.len() > 0 {
        let few = pixels.drop_last();
        let v = channel(pixels.last(), ch) as nat;
        law_sums_are_exact(few, ch);
        assert(v * v <= 65025) by (nonlinear_arith)
            requires
                0 <= v <= 255,
        ;
        lemma_whole_sum(channel_total(few, ch), v);
        lemma_whole_product(v, v);
        lemma_whole_sum(square_total(few, ch), v * v);
    }
}

proof fn lemma_uniform_totals(pixels: Seq<Pixel>, color: Pixel, ch: int)
    requires
        forall|i: int| 0 <= i < pixels.len() ==> pixels[i] == color,
    ensures
        channel_total(pixels, ch) == channel(color, ch) as nat * pixels.len(),
        square_total(pixels, ch) == (channel(color, ch) as nat * channel(color, ch) as nat)
            * pixels.len(),
    decreases pixels.len(),
{
    let v = channel(color, ch) as nat;
    if pixels.len() > 0 {
        lemma_uniform_totals(pixels.drop_last(), color, ch);
        let n = pixels.len();
        assert(v * (n - 1) + v == v * n) by (nonlinear_arith);
        assert((v * v) * (n - 1) + v * v == (v * v) * n) by (nonlinear_arith);
    } else {
        assert(v * 0 == 0 && (v * v) * 0 == 0) by (nonlinear_arith);
    }
}

proof fn lemma_uniform_variance(pixels: Seq<Pixel>, color: Pixel, ch: int)
    requires
        pixels.len() > 0,
        pixels.len() * 65025 < 2 * HIDDEN_BIT,
        forall|i: int| 0 <= i < pixels.len() ==> pixels[i] == color,
    ensures
        channel_variance(pixels, ch) == zero(),
{
    let v = channel(color, ch) as nat;
    let n = pixels.len();
    law_sums_are_exact(pixels, ch);
    lemma_uniform_totals(pixels, color, ch);
    lemma_whole_quotient(v, n);
    lemma_whole_quotient(v * v, n);
    lemma_whole_product(v, v);
    assert(v * v <= 65025) by (nonlinear_arith)
        requires
            0 <= v <= 255,
    ;
    lemma_whole_difference(v * v, v * v);
    lemma_one();
}

proof fn lemma_uniform_smallest(pixels: Seq<Pixel>, color: Pixel)
    requires
        pixels.len() > 0,
        pixels.len() * 65025 < 2 * HIDDEN_BIT,
        forall|i: int| 0 <= i < pixels.len() ==> pixels[i] == color,
    ensures
        smallest_variance(pixels) == zero(),
{
    lemma_uniform_variance(pixels, color, 0);
    lemma_uniform_variance(pixels, color, 1);
    lemma_uniform_variance(pixels, color, 2);
}

/// A template of one solid color does not vary at all.
pub proof fn law_solid_does_not_vary(templ: &Picture, mask: &Option<Mask>, color: Pixel)
    requires
        counted(templ, mask).len() * 65025 < 2 * HIDDEN_BIT,
        forall|i: int|
            0 <= i < counted(templ, mask).len() ==> #[trigger] counted(templ, mask)[i] == color,
    ensures
        variance(templ, mask) == zero(),
{
    let pixels = counted(templ, mask);
    assert forall|i: int| 0 <= i < pixels.len() implies pixels[i] == color by {
        assert(counted(templ, mask)[i] == color);
    }
    if pixels.len() >= 2 {
        lemma_uniform_smallest(pixels, color);
    }
}

} // verus!
