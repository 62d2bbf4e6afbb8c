//! Painting over what was found, so that what lies around it stands out.
use crate::double::{from_nat, one_in_units, quotient, to_byte, Double};
use crate::exact::{
    lemma_quotient_between, lemma_quotient_magnitude, lemma_to_byte_order, lemma_units_order,
    lemma_whole, lemma_whole_to_byte,
};
use crate::overlap::{fits_i32, larger_int, smaller_int};
use crate::picture::{
    is_masked_out, lemma_repainted, lemma_same_grid, mask_wf, masked_out, on_grid, Grid, Mask,
    Picture, Pixel, Rect,
};
use crate::rounding::{law_rounding_error, units, HIDDEN_BIT};
use crate::variance::{channel, channel_sum, channel_total, law_sums_are_exact};
use vstd::arithmetic::power2::{lemma_pow2_pos, pow2};
use vstd::prelude::*;

verus! {

/// The pixels of a block of a picture before row `r` and column `c`, row by row.
pub open spec fn block_before(img: Grid, top: int, left: int, right: int, r: int, c: int) -> Seq<Pixel>
    decreases r - top, c - left,
{
    if c > left {
        let before = block_before(img, top, left, right, r, c - 1);
        match img.at(r, c - 1) {
            Some(p) => before.push(p),
            None => before,
        }
    } else if r > top {
        block_before(img, top, left, right, r - 1, right)
    } else {
        Seq::empty()
    }
}

/// The pixels from row `top` up to `bottom` and from column `left` up to `right`.
pub open spec fn block(img: Grid, top: int, bottom: int, left: int, right: int) -> Seq<Pixel> {
    block_before(img, top, left, right, bottom, left)
}

/// The pixels of the two rows above and below a rectangle and of the two
/// columns left and right of it.
pub open spec fn border(img: Grid, rect: Rect) -> Seq<Pixel> {
    let (x, y, w, h) = (rect.x as int, rect.y as int, rect.width as int, rect.height as int);
    let (iw, ih) = (img.cols, img.rows);
    let left = larger_int(x, 0);
    let right = smaller_int(x + w, iw);
    let top = larger_int(y, 0);
    let bottom = smaller_int(y + h, ih);
    block(img, larger_int(y - 2, 0), smaller_int(y, ih), left, right)
        + block(img, larger_int(y + h, 0), smaller_int(y + h + 2, ih), left, right)
        + block(img, top, bottom, larger_int(x - 2, 0), smaller_int(x, iw))
        + block(img, top, bottom, larger_int(x + w, 0), smaller_int(x + w + 2, iw))
}

/// The mean of one channel, cut down to a byte.
pub open spec fn mean_byte(pixels: Seq<Pixel>, ch: int) -> u8 {
    to_byte(quotient(channel_sum(pixels, ch), from_nat(pixels.len())))
}

/// The mean of the pixels, or gray where there is none.
pub open spec fn mean_pixel(pixels: Seq<Pixel>) -> Pixel {
    if pixels.len() > 0 {
        Pixel { b: mean_byte(pixels, 0), g: mean_byte(pixels, 1), r: mean_byte(pixels, 2) }
    } else {
        Pixel { b: 128, g: 128, r: 128 }
    }
}

/// Whether a cell lies in a rectangle where the mask does not leave it out.
pub open spec fn covered(rect: Rect, mask: &Option<Mask>, r: int, c: int) -> bool {
    &&& rect.y <= r < rect.y + rect.height
    &&& rect.x <= c < rect.x + rect.width
    &&& !masked_out(mask, r - rect.y, c - rect.x)
}

/// A rectangle and its border lie within the range of coordinates.
pub open spec fn border_fits(rect: Rect) -> bool {
    &&& fits_i32(rect.x - 2)
    &&& fits_i32(rect.y - 2)
    &&& fits_i32(rect.x + rect.width)
    &&& fits_i32(rect.y + rect.height)
    &&& fits_i32(rect.x + rect.width + 2)
    &&& fits_i32(rect.y + rect.height + 2)
}

/// Running sums over pixels.
#[derive(Clone, Copy)]
struct PixelSums {
    b: Double,
    g: Double,
    r: Double,
    count: u64,
}

impl PixelSums {
    spec fn of(self, pixels: Seq<Pixel>) -> bool {
        &&& self.b == channel_sum(pixels, 0)
        &&& self.g == channel_sum(pixels, 1)
        &&& self.r == channel_sum(pixels, 2)
        &&& self.count == pixels.len()
    }

    fn with(self, p: Pixel, Ghost(pixels): Ghost<Seq<Pixel>>) -> (s: PixelSums)
        requires
            self.of(pixels),
            self.count < u64::MAX,
        ensures
            s.of(pixels.push(p)),
    {
        proof {
            assert(pixels.push(p).drop_last() =~= pixels);
        }
        PixelSums {
            b: self.b.plus(Double::from_u64(p.b as u64)),
            g: self.g.plus(Double::from_u64(p.g as u64)),
            r: self.r.plus(Double::from_u64(p.r as u64)),
            count: self.count + 1,
        }
    }
}

fn mean_of(total: Double, count: u64) -> (m: u8)
    ensures
        m == to_byte(quotient(total, from_nat(count as nat))),
{
    total.divided_by(Double::from_u64(count)).to_u8()
}

fn larger_of(a: i32, b: i32) -> (r: i32)
    ensures
        r == larger_int(a as int, b as int),
{
    if a >= b {
        a
    } else {
        b
    }
}

fn smaller_of(a: i32, b: i32) -> (r: i32)
    ensures
        r == smaller_int(a as int, b as int),
{
    if a <= b {
        a
    } else {
        b
    }
}

/// Adds the pixels of a block to the sums.
fn add_block(
    img: &Picture,
    top: i32,
    bottom: i32,
    left: i32,
    right: i32,
    sums: PixelSums,
    Ghost(before): Ghost<Seq<Pixel>>,
) -> (s: PixelSums)
    requires
        img.wf(),
        sums.of(before),
        sums.count <= 0xc000_0000_0000_0000,
        top >= 0,
        left >= 0,
    ensures
        s.of(before + block(img@, top as int, bottom as int, left as int, right as int)),
        s.count <= sums.count + 0x4000_0000_0000_0000,
{
    let mut s: PixelSums = sums;
    let mut r: i32 = top;
    proof {
        assert(before + Seq::<Pixel>::empty() =~= before);
        if bottom <= top {
            assert(block(img@, top as int, bottom as int, left as int, right as int) =~= Seq::empty());
        }
    }
    let ghost wide: int = if right > left { right - left } else { 0 };
    proof {
        assert(0 * wide == 0) by (nonlinear_arith);
    }
    while r < bottom
        invariant
            img.wf(),
            top >= 0,
            left >= 0,
            top <= r,
            top < bottom ==> r <= bottom,
            bottom <= top ==> r == top,
            0 <= wide <= 0x7fff_ffff,
            wide == (if right > left { right - left } else { 0 }),
            sums.count <= 0xc000_0000_0000_0000,
            s.of(before + block_before(img@, top as int, left as int, right as int, r as int, left as int)),
            s.count <= sums.count + (r - top) * wide,
        decreases bottom - r,
    {
        let mut c: i32 = left;
        proof {
            assert((r - top) * wide <= 0x7fff_ffff * 0x7fff_ffff) by (nonlinear_arith)
                requires
                    0 <= r - top <= 0x7fff_ffff,
                    0 <= wide <= 0x7fff_ffff,
            ;
        }
        while c < right
            invariant
                img.wf(),
                left <= c,
                left < right ==> c <= right,
                right <= left ==> c == left,
                top <= r,
                0 <= wide <= 0x7fff_ffff,
                wide == (if right > left { right - left } else { 0 }),
                left >= 0,
                (r - top) * wide <= 0x7fff_ffff * 0x7fff_ffff,
                sums.count <= 0xc000_0000_0000_0000,
                s.of(
                    before + block_before(
                        img@,
                        top as int,
                        left as int,
                        right as int,
                        r as int,
                        c as int,
                    ),
                ),
                s.count <= sums.count + (r - top) * wide + (c - left),
            decreases right - c,
        {
            let ghost had = block_before(
                img@,
                top as int,
                left as int,
                right as int,
                r as int,
                c as int,
            );
            if let Some(p) = img.pixel(r, c) {
                s = s.with(p, Ghost(before + had));
                assert((before + had).push(p) =~= before + had.push(p));
            }
            c = c + 1;
        }
        proof {
            assert((r + 1 - top) * wide == (r - top) * wide + wide) by (nonlinear_arith);
            if right <= left {
                lemma_empty_row(img@, top as int, left as int, right as int, r as int);
            }
        }
        r = r + 1;
    }
    proof {
        if r > top {
            assert((r - top) * wide <= 0x7fff_ffff * 0x7fff_ffff) by (nonlinear_arith)
                requires
                    0 <= r - top <= 0x7fff_ffff,
                    0 <= wide <= 0x7fff_ffff,
            ;
        }
    }
    s
}

/// A row that holds no column adds no pixel.
proof fn lemma_empty_row(img: Grid, top: int, left: int, right: int, r: int)
    requires
        right <= left,
        r >= top,
    ensures
        block_before(img, top, left, right, r + 1, left) == block_before(
            img,
            top,
            left,
            right,
            r,
            left,
        ),
{
    assert(block_before(img, top, left, right, r + 1, left) == block_before(
        img,
        top,
        left,
        right,
        r,
        right,
    ));
}

/// A picture with the opaque part of a component painted over, in the mean color
/// of the border of its rectangle.
pub open spec fn masked(img: Grid, rect: Rect, mask: &Option<Mask>) -> Grid {
    img.repainted(
        |r: int, c: int, p: Pixel|
            if covered(rect, mask, r, c) {
                mean_pixel(border(img, rect))
            } else {
                p
            },
    )
}

/// Fills the rectangle with the mean color of its border. Only where the
/// component is opaque: what shows through its transparent parts stays.
pub fn mask_region(img: &mut Picture, rect: Rect, mask: &Option<Mask>)
    requires
        old(img).wf(),
        mask_wf(mask),
        border_fits(rect),
    ensures
        final(img).wf(),
        final(img)@ == masked(old(img)@, rect, mask),
{
    let x: i32 = rect.x;
    let y: i32 = rect.y;
    let far_x: i32 = x + rect.width;
    let far_y: i32 = y + rect.height;
    let iw: i32 = img.cols;
    let ih: i32 = img.rows;
    let left: i32 = larger_of(x, 0);
    let right: i32 = smaller_of(far_x, iw);
    let top: i32 = larger_of(y, 0);
    let bottom: i32 = smaller_of(far_y, ih);
    let zero: Double = Double { bits: 0 };
    let none: PixelSums = PixelSums { b: zero, g: zero, r: zero, count: 0 };
    let ghost above = block(
        img@,
        larger_int(y - 2, 0),
        smaller_int(y as int, ih as int),
        left as int,
        right as int,
    );
    let ghost below = block(
        img@,
        larger_int(far_y as int, 0),
        smaller_int(far_y + 2, ih as int),
        left as int,
        right as int,
    );
    let ghost before = block(
        img@,
        top as int,
        bottom as int,
        larger_int(x - 2, 0),
        smaller_int(x as int, iw as int),
    );
    proof {
        assert(Seq::<Pixel>::empty() + above =~= above);
    }
    let one: PixelSums = add_block(
        img,
        larger_of(y - 2, 0),
        smaller_of(y, ih),
        left,
        right,
        none,
        Ghost(Seq::empty()),
    );
    let two: PixelSums = add_block(
        img,
        larger_of(far_y, 0),
        smaller_of(far_y + 2, ih),
        left,
        right,
        one,
        Ghost(above),
    );
    let three: PixelSums = add_block(
        img,
        top,
        bottom,
        larger_of(x - 2, 0),
        smaller_of(x, iw),
        two,
        Ghost(above + below),
    );
    let sums: PixelSums = add_block(
        img,
        top,
        bottom,
        larger_of(far_x, 0),
        smaller_of(far_x + 2, iw),
        three,
        Ghost(above + below + before),
    );
    let fill: Pixel = if sums.count > 0 {
        Pixel {
            b: mean_of(sums.b, sums.count),
            g: mean_of(sums.g, sums.count),
            r: mean_of(sums.r, sums.count),
        }
    } else {
        Pixel { b: 128, g: 128, r: 128 }
    };
    let ghost was = *img;
    assert(fill == mean_pixel(border(was@, rect)));
    let mut r: i32 = top;
    while r < bottom
        invariant
            was.wf(),
            img.wf(),
            mask_wf(mask),
            img.rows == was.rows,
            img.cols == was.cols,
            img.readable() == was.readable(),
            border_fits(rect),
            x == rect.x,
            y == rect.y,
            far_x == x + rect.width,
            far_y == y + rect.height,
            left == larger_int(x as int, 0),
            right == smaller_int(far_x as int, was.cols as int),
            top == larger_int(y as int, 0),
            bottom == smaller_int(far_y as int, was.rows as int),
            top <= r,
            top < bottom ==> r <= bottom,
            forall|s: int, d: int|
                #![trigger img.at(s, d)]
                img.at(s, d) == (if was.at(s, d) is Some && covered(rect, mask, s, d) && s < r {
                    Some(fill)
                } else {
                    was.at(s, d)
                }),
        decreases bottom - r,
    {
        let mut c: i32 = left;
        while c < right
            invariant
                was.wf(),
                img.wf(),
                mask_wf(mask),
                img.rows == was.rows,
                img.cols == was.cols,
                img.readable() == was.readable(),
                border_fits(rect),
                x == rect.x,
                y == rect.y,
                far_x == x + rect.width,
                far_y == y + rect.height,
                left == larger_int(x as int, 0),
                right == smaller_int(far_x as int, was.cols as int),
                top == larger_int(y as int, 0),
                bottom == smaller_int(far_y as int, was.rows as int),
                top <= r < bottom,
                left <= c,
                left < right ==> c <= right,
                forall|s: int, d: int|
                    #![trigger img.at(s, d)]
                    img.at(s, d) == (if was.at(s, d) is Some && covered(rect, mask, s, d) && (s < r
                        || (s == r && d < c)) {
                        Some(fill)
                    } else {
                        was.at(s, d)
                    }),
            decreases right - c,
        {
            if !is_masked_out(mask, r - y, c - x) {
                img.set_pixel(r, c, fill);
            }
            c = c + 1;
        }
        r = r + 1;
    }
    proof {
        let over = |r: int, c: int, p: Pixel|
            if covered(rect, mask, r, c) {
                mean_pixel(border(was@, rect))
            } else {
                p
            };
        lemma_repainted(was@, over);
        assert forall|r: int, c: int| on_grid(was.rows as int, was.cols as int, r, c) implies (
        #[trigger] img@.at(r, c)) == was@.repainted(over).at(r, c) by {
            assert(img.at(r, c) == img@.at(r, c));
        }
        lemma_same_grid(img@, masked(was@, rect, mask));
    }
}

/// Painting over a rectangle changes only the pixels in it that the mask does
/// not leave out, and gives all of them the mean color of the border.
pub proof fn law_masking_paints_covered(img: Grid, rect: Rect, mask: &Option<Mask>, r: int, c: int)
    requires
        img.wf(),
    ensures
        masked(img, rect, mask).wf(),
        masked(img, rect, mask).at(r, c) == (if img.at(r, c) is Some && covered(rect, mask, r, c) {
            Some(mean_pixel(border(img, rect)))
        } else {
            img.at(r, c)
        }),
{
    let over = |r: int, c: int, p: Pixel|
        if covered(rect, mask, r, c) {
            mean_pixel(border(img, rect))
        } else {
            p
        };
    lemma_repainted(img, over);
    assert(masked(img, rect, mask) == img.repainted(over));
}

/// A component that is transparent all over leaves the picture as it is.
pub proof fn law_transparent_masks_nothing(img: Grid, rect: Rect, mask: &Option<Mask>)
    requires
        img.wf(),
        forall|r: int, c: int| !covered(rect, mask, r, c),
    ensures
        masked(img, rect, mask) == img,
{
    law_masking_paints_covered(img, rect, mask, 0, 0);
    assert forall|r: int, c: int| on_grid(img.rows, img.cols, r, c) implies (#[trigger] masked(
        img,
        rect,
        mask,
    ).at(r, c)) == img.at(r, c) by {
        law_masking_paints_covered(img, rect, mask, r, c);
    }
    lemma_same_grid(masked(img, rect, mask), img);
}

proof fn lemma_total_between(pixels: Seq<Pixel>, ch: int, lo: u8, hi: u8)
    requires
        forall|i: int|
            0 <= i < pixels.len() ==> lo <= channel(#[trigger] pixels[i], ch) <= hi,
    ensures
        lo * pixels.len() <= channel_total(pixels, ch) <= hi * pixels.len(),
    decreases pixels.len(),
{
    let n = pixels.len();
    if n > 0 {
        let few = pixels.drop_last();
        assert forall|i: int| 0 <= i < few.len() implies lo <= channel(
            #[trigger] few[i],
            ch,
        ) <= hi by {
            assert(few[i] == pixels[i]);
        }
        lemma_total_between(few, ch, lo, hi);
        assert(lo * (n - 1) + lo == lo * n) by (nonlinear_arith);
        assert(hi * (n - 1) + hi == hi * n) by (nonlinear_arith);
        assert(pixels.last() == pixels[n - 1]);
    }
}

/// The mean of one channel lies between the smallest and the largest value of
/// that channel; so a border of one color is met exactly.
pub proof fn law_mean_lies_between(pixels: Seq<Pixel>, ch: int, lo: u8, hi: u8)
    requires
        pixels.len() > 0,
        pixels.len() * 65025 < 2 * HIDDEN_BIT,
        forall|i: int|
            0 <= i < pixels.len() ==> lo <= channel(#[trigger] pixels[i], ch) <= hi,
    ensures
        lo <= mean_byte(pixels, ch) <= hi,
{
    let n = pixels.len();
    let total = channel_total(pixels, ch);
    law_sums_are_exact(pixels, ch);
    lemma_total_between(pixels, ch, lo, hi);
    lemma_quotient_between(total, n, lo as nat, hi as nat);
    let mean = quotient(from_nat(total), from_nat(n));
    lemma_whole(lo as nat);
    lemma_whole(hi as nat);
    lemma_to_byte_order(from_nat(lo as nat), mean);
    lemma_to_byte_order(mean, from_nat(hi as nat));
    lemma_whole_to_byte(lo as nat);
    lemma_whole_to_byte(hi as nat);
}

/// The cells of a block before row `r` and column `c`, row by row.
spec fn cells_before(top: int, left: int, right: int, r: int, c: int) -> Seq<(int, int)>
    decreases r - top, c - left,
{
    if c > left {
        cells_before(top, left, right, r, c - 1).push((r, c - 1))
    } else if r > top {
        cells_before(top, left, right, r - 1, right)
    } else {
        Seq::empty()
    }
}

/// The pixels of a picture in the given cells.
spec fn pixels_in(img: Grid, cells: Seq<(int, int)>) -> Seq<Pixel> {
    cells.map_values(|q: (int, int)| img.at(q.0, q.1)->0)
}

proof fn lemma_cells_before(img: Grid, top: int, left: int, right: int, r: int, c: int)
    requires
        img.readable(),
        0 <= top <= r,
        0 <= left <= c <= right <= img.cols,
        r < img.rows || (c == left && r <= img.rows),
    ensures
        block_before(img, top, left, right, r, c) == pixels_in(
            img,
            cells_before(top, left, right, r, c),
        ),
        cells_before(top, left, right, r, c).no_duplicates(),
        forall|s: int, d: int|
            #![trigger cells_before(top, left, right, r, c).contains((s, d))]
            cells_before(top, left, right, r, c).contains((s, d)) <==> top <= s && left <= d < right
                && (s < r || (s == r && d < c)),
        cells_before(top, left, right, r, c).len() == (r - top) * (right - left) + (c - left),
    decreases r - top, c - left,
{
    let all = cells_before(top, left, right, r, c);
    if c > left {
        lemma_cells_before(img, top, left, right, r, c - 1);
        let few = cells_before(top, left, right, r, c - 1);
        assert(!few.contains((r, c - 1)));
        assert forall|s: int, d: int| #[trigger] all.contains((s, d)) <==> top <= s && left <= d
            < right && (s < r || (s == r && d < c)) by {
            if all.contains((s, d)) {
                let i = all.index_of((s, d));
                if i < few.len() {
                    assert(few[i] == (s, d));
                    assert(few.contains((s, d)));
                }
            }
            if few.contains((s, d)) {
                let i = few.index_of((s, d));
                assert(all[i] == (s, d));
            }
            assert(all[few.len() as int] == (r, c - 1));
        }
        assert(pixels_in(img, all) =~= pixels_in(img, few).push(img.at(r, c - 1)->0));
        assert(all.no_duplicates()) by {
            assert forall|i: int, j: int| 0 <= i < all.len() && 0 <= j < all.len() && i != j implies all[i]
                != all[j] by {
                if i < few.len() && j < few.len() {
                    assert(few[i] != few[j]);
                } else if i < few.len() {
                    assert(few.contains(few[i]));
                } else {
                    assert(few.contains(few[j]));
                }
            }
        }
    } else if r > top {
        if left < right {
            lemma_cells_before(img, top, left, right, r - 1, right);
        } else {
            lemma_cells_before(img, top, left, right, r - 1, left);
        }
        assert((r - 1 - top) * (right - left) + (right - left) == (r - top) * (right - left))
            by (nonlinear_arith);
        assert forall|s: int, d: int| #[trigger] all.contains((s, d)) <==> top <= s && left <= d
            < right && (s < r || (s == r && d < c)) by {}
    } else {
        assert((r - top) * (right - left) == 0) by (nonlinear_arith)
            requires
                r == top,
        ;
        assert(pixels_in(img, all) =~= Seq::empty());
    }
}

/// The cells of a block.
spec fn block_cells(top: int, bottom: int, left: int, right: int) -> Seq<(int, int)> {
    cells_before(top, left, right, bottom, left)
}

proof fn lemma_no_cells(top: int, left: int, right: int, r: int, c: int)
    requires
        right <= left,
        c <= left,
    ensures
        cells_before(top, left, right, r, c) == Seq::<(int, int)>::empty(),
    decreases r - top,
{
    if r > top {
        lemma_no_cells(top, left, right, r - 1, right);
    }
}

proof fn lemma_no_pixels(img: Grid, top: int, left: int, right: int, r: int, c: int)
    requires
        right <= left,
        c <= left,
    ensures
        block_before(img, top, left, right, r, c) == Seq::<Pixel>::empty(),
    decreases r - top,
{
    if r > top {
        lemma_no_pixels(img, top, left, right, r - 1, right);
    }
}

proof fn lemma_block_cells(img: Grid, top: int, bottom: int, left: int, right: int)
    requires
        img.readable(),
        img.rows >= 0,
        img.cols >= 0,
        0 <= top,
        0 <= left,
        bottom <= img.rows,
        right <= img.cols,
    ensures
        block(img, top, bottom, left, right) == pixels_in(
            img,
            block_cells(top, bottom, left, right),
        ),
        block_cells(top, bottom, left, right).no_duplicates(),
        forall|s: int, d: int|
            #![trigger block_cells(top, bottom, left, right).contains((s, d))]
            block_cells(top, bottom, left, right).contains((s, d)) <==> top <= s < bottom && left
                <= d < right,
        bottom - top <= 2 || right - left <= 2 ==> block_cells(top, bottom, left, right).len()
            <= 2 * (img.rows + img.cols),
{
    let cells = block_cells(top, bottom, left, right);
    if bottom <= top || right <= left {
        if right <= left {
            lemma_no_cells(top, left, right, bottom, left);
            lemma_no_pixels(img, top, left, right, bottom, left);
        }
        assert(cells =~= Seq::empty());
        assert(pixels_in(img, cells) =~= Seq::empty());
    } else {
        lemma_cells_before(img, top, left, right, bottom, left);
        let (tall, wide) = (bottom - top, right - left);
        assert(tall <= 2 ==> tall * wide <= 2 * wide) by (nonlinear_arith)
            requires
                tall > 0,
                wide > 0,
        ;
        assert(wide <= 2 ==> tall * wide <= tall * 2) by (nonlinear_arith)
            requires
                tall > 0,
                wide > 0,
        ;
    }
}

/// Whether a cell lies beside a rectangle: in its columns and in one of the two
/// rows above or below it, or in its rows and in one of the two columns to its
/// left or right.
pub open spec fn beside(rect: Rect, r: int, c: int) -> bool {
    let (x, y, w, h) = (rect.x as int, rect.y as int, rect.width as int, rect.height as int);
    ||| x <= c < x + w && (y - 2 <= r < y || y + h <= r < y + h + 2)
    ||| y <= r < y + h && (x - 2 <= c < x || x + w <= c < x + w + 2)
}

proof fn lemma_disjoint_sum(a: Seq<(int, int)>, b: Seq<(int, int)>)
    requires
        a.no_duplicates(),
        b.no_duplicates(),
        forall|r: int, c: int| !(#[trigger] a.contains((r, c)) && b.contains((r, c))),
    ensures
        (a + b).no_duplicates(),
        forall|r: int, c: int|
            #![trigger (a + b).contains((r, c))]
            (a + b).contains((r, c)) <==> a.contains((r, c)) || b.contains((r, c)),
{
    let all = a + b;
    assert forall|i: int, j: int| 0 <= i < all.len() && 0 <= j < all.len() && i != j implies all[i]
        != all[j] by {
        if i < a.len() && j < a.len() {
            assert(a[i] != a[j]);
        } else if i >= a.len() && j >= a.len() {
            assert(b[i - a.len()] != b[j - a.len()]);
        } else if i < a.len() {
            assert(a.contains((a[i].0, a[i].1)) && b.contains(b[j - a.len()]));
        } else {
            assert(a.contains((a[j].0, a[j].1)) && b.contains(b[i - a.len()]));
        }
    }
    assert forall|r: int, c: int| #[trigger] all.contains((r, c)) <==> a.contains((r, c))
        || b.contains((r, c)) by {
        if all.contains((r, c)) {
            let i = all.index_of((r, c));
            if i < a.len() {
                assert(a[i] == (r, c));
            } else {
                assert(b[i - a.len()] == (r, c));
            }
        }
        if a.contains((r, c)) {
            let i = a.index_of((r, c));
            assert(all[i] == (r, c));
        }
        if b.contains((r, c)) {
            let i = b.index_of((r, c));
            assert(all[i + a.len()] == (r, c));
        }
    }
}

/// The cells of the border of a rectangle, each once.
proof fn lemma_border_cells(img: Grid, rect: Rect) -> (cells: Seq<(int, int)>)
    requires
        img.readable(),
        img.rows >= 0,
        img.cols >= 0,
        rect.width >= 0,
        rect.height >= 0,
    ensures
        cells.no_duplicates(),
        forall|r: int, c: int|
            #![trigger cells.contains((r, c))]
            cells.contains((r, c)) <==> on_grid(img.rows, img.cols, r, c) && beside(rect, r, c),
        border(img, rect) == pixels_in(img, cells),
        cells.len() <= 8 * (img.rows + img.cols),
{
    let (x, y, w, h) = (rect.x as int, rect.y as int, rect.width as int, rect.height as int);
    let (iw, ih) = (img.cols, img.rows);
    let left = larger_int(x, 0);
    let right = smaller_int(x + w, iw);
    let top = larger_int(y, 0);
    let bottom = smaller_int(y + h, ih);
    lemma_block_cells(img, larger_int(y - 2, 0), smaller_int(y, ih), left, right);
    lemma_block_cells(img, larger_int(y + h, 0), smaller_int(y + h + 2, ih), left, right);
    lemma_block_cells(img, top, bottom, larger_int(x - 2, 0), smaller_int(x, iw));
    lemma_block_cells(img, top, bottom, larger_int(x + w, 0), smaller_int(x + w + 2, iw));
    let a = block_cells(larger_int(y - 2, 0), smaller_int(y, ih), left, right);
    let b = block_cells(larger_int(y + h, 0), smaller_int(y + h + 2, ih), left, right);
    let c = block_cells(top, bottom, larger_int(x - 2, 0), smaller_int(x, iw));
    let d = block_cells(top, bottom, larger_int(x + w, 0), smaller_int(x + w + 2, iw));
    lemma_disjoint_sum(a, b);
    lemma_disjoint_sum(a + b, c);
    lemma_disjoint_sum(a + b + c, d);
    assert(border(img, rect) =~= pixels_in(img, a + b + c + d));
    a + b + c + d
}

/// The sum of what a function gives for each of some cells.
pub open spec fn total_over(cells: Seq<(int, int)>, value: spec_fn(int, int) -> nat) -> nat
    decreases cells.len(),
{
    if cells.len() == 0 {
        0
    } else {
        total_over(cells.drop_last(), value) + value(cells.last().0, cells.last().1)
    }
}

proof fn lemma_totals(img: Grid, cells: Seq<(int, int)>)
    ensures
        channel_total(pixels_in(img, cells), 0) == total_over(
            cells,
            |r: int, c: int| img.at(r, c)->0.b as nat,
        ),
        channel_total(pixels_in(img, cells), 1) == total_over(
            cells,
            |r: int, c: int| img.at(r, c)->0.g as nat,
        ),
        channel_total(pixels_in(img, cells), 2) == total_over(
            cells,
            |r: int, c: int| img.at(r, c)->0.r as nat,
        ),
    decreases cells.len(),
{
    let pixels = pixels_in(img, cells);
    if cells.len() > 0 {
        lemma_totals(img, cells.drop_last());
        assert(pixels.drop_last() =~= pixels_in(img, cells.drop_last()));
    }
}

/// A quotient of whole numbers that fits a byte, cut down to a whole number.
proof fn lemma_mean_cut(total: nat, n: nat)
    requires
        n > 0,
        total <= 255 * n,
        n <= 0x20_0000_0000,
    ensures
        to_byte(quotient(from_nat(total), from_nat(n))) == total / n,
{
    let u = one_in_units();
    let q = total / n;
    let mean = quotient(from_nat(total), from_nat(n));
    let m = units(mean.magnitude());
    vstd::arithmetic::div_mod::lemma_fundamental_div_mod(total as int, n as int);
    let rem = total % n;
    assert(q <= 255 && q * n <= total && total + 1 <= (q + 1) * n) by (nonlinear_arith)
        requires
            total == n * q + rem,
            0 <= rem < n,
            total <= 255 * n,
    ;
    lemma_quotient_between(total, n, q, q + 1);
    lemma_quotient_magnitude(total, n);
    lemma_whole(q);
    lemma_units_order(from_nat(q).magnitude(), mean.magnitude());
    assert(q * u <= m);
    let e = pow2(1029);
    lemma_pow2_pos(1029);
    vstd::arithmetic::power2::lemma2_to64();
    vstd::arithmetic::power2::lemma2_to64_rest();
    vstd::arithmetic::power2::lemma_pow2_adds(45, 1029);
    assert(u == 0x2000_0000_0000 * e);
    let (a, d) = ((total * u) * u, n * u);
    assert(a <= d * (2 * HIDDEN_BIT * e)) by (nonlinear_arith)
        requires
            a == (total * u) * u,
            d == n * u,
            total <= 255 * n,
            255 * u <= 2 * HIDDEN_BIT * e,
    ;
    law_rounding_error(a, d, 1029);
    assert(mean.magnitude() == crate::rounding::nearest(a, d));
    assert(n * e < u) by (nonlinear_arith)
        requires
            n <= 0x20_0000_0000,
            u == 0x2000_0000_0000 * e,
            e > 0,
    ;
    assert(m < (q + 1) * u) by (nonlinear_arith)
        requires
            a == (total * u) * u,
            d == n * u,
            d * m - a <= d * e,
            total + 1 <= (q + 1) * n,
            n * e < u,
            u > 0,
            n > 0,
    ;
    assert(m / u == q) by {
        assert((q + 1) * u == q * u + u) by (nonlinear_arith);
        vstd::arithmetic::div_mod::lemma_fundamental_div_mod_converse(
            m as int,
            u as int,
            q as int,
            m - q * u,
        );
    }
}

/// Whether a pixel is the mean of the pixels that a picture shows in some cells,
/// each channel for itself and cut down to a whole number, or gray where there
/// are no cells.
pub open spec fn is_mean_over(img: Grid, cells: Seq<(int, int)>, q: Pixel) -> bool {
    if cells.len() > 0 {
        let n = cells.len() as int;
        &&& q.b == total_over(cells, |r: int, c: int| img.at(r, c)->0.b as nat) as int / n
        &&& q.g == total_over(cells, |r: int, c: int| img.at(r, c)->0.g as nat) as int / n
        &&& q.r == total_over(cells, |r: int, c: int| img.at(r, c)->0.r as nat) as int / n
    } else {
        q == (Pixel { b: 128, g: 128, r: 128 })
    }
}

/// Painting over a rectangle gives the pixels in it, but for those where the mask
/// reads zero, the mean color of the cells beside it, each of which counts once,
/// and leaves every other pixel as it is.
pub proof fn law_masking_paints_mean(img: Grid, rect: Rect, mask: &Option<Mask>) -> (cells: Seq<
    (int, int),
>)
    requires
        img.wf(),
        img.readable(),
        img.rows <= i32::MAX,
        img.cols <= i32::MAX,
        rect.width >= 0,
        rect.height >= 0,
    ensures
        cells.no_duplicates(),
        forall|r: int, c: int|
            #![trigger cells.contains((r, c))]
            cells.contains((r, c)) <==> on_grid(img.rows, img.cols, r, c) && beside(rect, r, c),
        masked(img, rect, mask).wf(),
        masked(img, rect, mask).rows == img.rows,
        masked(img, rect, mask).cols == img.cols,
        forall|r: int, c: int|
            #![trigger masked(img, rect, mask).at(r, c)]
            on_grid(img.rows, img.cols, r, c) ==> ({
                let q = masked(img, rect, mask).at(r, c);
                let inside = rect.y <= r < rect.y + rect.height && rect.x <= c < rect.x + rect.width;
                let hole = mask is Some && mask->0.at(r - rect.y, c - rect.x) == Some(0u8);
                if inside && !hole {
                    q is Some && is_mean_over(img, cells, q->0)
                } else {
                    q == img.at(r, c)
                }
            }),
{
    let cells = lemma_border_cells(img, rect);
    let pixels = border(img, rect);
    let fill = mean_pixel(pixels);
    lemma_totals(img, cells);
    if cells.len() > 0 {
        law_sums_are_exact(pixels, 0);
        law_sums_are_exact(pixels, 1);
        law_sums_are_exact(pixels, 2);
        lemma_mean_cut(channel_total(pixels, 0), pixels.len());
        lemma_mean_cut(channel_total(pixels, 1), pixels.len());
        lemma_mean_cut(channel_total(pixels, 2), pixels.len());
    }
    assert(is_mean_over(img, cells, fill));
    law_masking_paints_covered(img, rect, mask, 0, 0);
    assert forall|r: int, c: int| on_grid(img.rows, img.cols, r, c) implies ({
        let q = #[trigger] masked(img, rect, mask).at(r, c);
        let inside = rect.y <= r < rect.y + rect.height && rect.x <= c < rect.x + rect.width;
        let hole = mask is Some && mask->0.at(r - rect.y, c - rect.x) == Some(0u8);
        if inside && !hole {
            q is Some && is_mean_over(img, cells, q->0)
        } else {
            q == img.at(r, c)
        }
    }) by {
        law_masking_paints_covered(img, rect, mask, r, c);
    }
    cells
}

/// Each channel of what is painted over a rectangle lies between the smallest and
/// the largest value that this channel has beside it; so beside one single color
/// nothing but this color is painted.
pub proof fn law_masking_stays_within(
    img: Grid,
    rect: Rect,
    mask: &Option<Mask>,
    lo: Pixel,
    hi: Pixel,
    r: int,
    c: int,
)
    requires
        img.wf(),
        img.rows <= i32::MAX,
        img.cols <= i32::MAX,
        rect.width >= 0,
        rect.height >= 0,
        exists|s: int, d: int| (#[trigger] img.at(s, d)) is Some && beside(rect, s, d),
        forall|s: int, d: int|
            (#[trigger] img.at(s, d)) is Some && beside(rect, s, d) ==> {
                &&& lo.b <= img.at(s, d)->0.b <= hi.b
                &&& lo.g <= img.at(s, d)->0.g <= hi.g
                &&& lo.r <= img.at(s, d)->0.r <= hi.r
            },
        img.at(r, c) is Some,
        covered(rect, mask, r, c),
    ensures
        masked(img, rect, mask).at(r, c) is Some,
        ({
            let q = masked(img, rect, mask).at(r, c)->0;
            &&& lo.b <= q.b <= hi.b
            &&& lo.g <= q.g <= hi.g
            &&& lo.r <= q.r <= hi.r
        }),
{
    let cells = lemma_border_cells(img, rect);
    let pixels = border(img, rect);
    let (s, d) = choose|s: int, d: int| (#[trigger] img.at(s, d)) is Some && beside(rect, s, d);
    assert(cells.contains((s, d)));
    assert forall|i: int| 0 <= i < pixels.len() implies {
        &&& lo.b <= (#[trigger] pixels[i]).b <= hi.b
        &&& lo.g <= pixels[i].g <= hi.g
        &&& lo.r <= pixels[i].r <= hi.r
    } by {
        let (s, d) = cells[i];
        assert(cells.contains((s, d)));
        assert(img.at(s, d) == Some(pixels[i]));
    }
    law_mean_lies_between(pixels, 0, lo.b, hi.b);
    law_mean_lies_between(pixels, 1, lo.g, hi.g);
    law_mean_lies_between(pixels, 2, lo.r, hi.r);
    law_masking_paints_covered(img, rect, mask, r, c);
}

} // verus!
