//! Drawing over pictures.
use crate::descent::{views, Position};
use crate::double::{
    difference, from_nat, less, one, one_in_units, opposite, product, quotient, sum, to_byte, zero,
    Double, ONE_BITS,
};
use crate::exact::{
    law_share_error, lemma_distance_scaled, lemma_finite, lemma_one, lemma_quotient_between,
    lemma_quotient_magnitude, lemma_units_order, lemma_whole, lemma_whole_difference,
    lemma_whole_product, lemma_whole_quotient, lemma_whole_sum, lemma_whole_to_byte,
};
use crate::picture::{
    cell, lemma_cell, lemma_repainted, lemma_same_grid, on_grid, place, Grid, Picture, Pixel,
};
use crate::svg::{
    blank_drawing, boxes_in_reach, lemma_blank_mask, mark_labels_fit, markup_free, mask_svg,
    mask_svg_text, own_drawing, sound_drawing, sound_mask,
};
use crate::rounding::{
    distance, law_rounding_error, law_rounding_keeps_order, lemma_nearest_of_units, nearest, units,
    HIDDEN_BIT,
};
use vstd::arithmetic::power2::{lemma_pow2_adds, lemma_pow2_pos, pow2};
use vstd::prelude::*;

verus! {

/// Why a picture could not be drawn over.
#[derive(Clone, Copy, Debug, PartialEq, Eq, Structural)]
pub enum RenderError {
    /// The drawing is not well formed.
    BadSvg,
    /// There is no canvas of that size.
    BadSize,
    /// The pixels of the picture cannot be read.
    Unreadable,
}

/// An alpha value as a weight from zero to one.
pub open spec fn weight(alpha: u8) -> Double {
    quotient(from_nat(alpha as nat), from_nat(255))
}

/// One channel of a pixel laid over another with the given alpha value.
pub open spec fn blended(over: u8, under: u8, alpha: u8) -> u8 {
    let w = weight(alpha);
    to_byte(
        sum(
            product(from_nat(over as nat), w),
            product(from_nat(under as nat), difference(one(), w)),
        ),
    )
}

/// A pixel laid over another with the given alpha value.
pub open spec fn blended_pixel(over: Pixel, under: Pixel, alpha: u8) -> Pixel {
    Pixel {
        b: blended(over.b, under.b, alpha),
        g: blended(over.g, under.g, alpha),
        r: blended(over.r, under.r, alpha),
    }
}

/// An alpha value as a weight from zero to one.
pub(crate) fn weight_of(alpha: u8) -> (w: Double)
    ensures
        w == weight(alpha),
{
    Double::from_u64(alpha as u64).divided_by(Double::from_u64(255))
}

/// One channel of a pixel laid over another.
fn blend_channel(over: u8, under: u8, w: Double, rest: Double) -> (r: u8)
    ensures
        r == to_byte(
            sum(product(from_nat(over as nat), w), product(from_nat(under as nat), rest)),
        ),
{
    let a: Double = Double::from_u64(over as u64).times(w);
    let b: Double = Double::from_u64(under as u64).times(rest);
    a.plus(b).to_u8()
}

/// A pixel laid over another with the given alpha value.
pub fn blend_pixel(over: Pixel, under: Pixel, alpha: u8) -> (p: Pixel)
    ensures
        p == blended_pixel(over, under, alpha),
{
    let w: Double = weight_of(alpha);
    let rest: Double = Double { bits: ONE_BITS }.minus(w);
    Pixel {
        b: blend_channel(over.b, under.b, w, rest),
        g: blend_channel(over.g, under.g, w, rest),
        r: blend_channel(over.r, under.r, w, rest),
    }
}

/// The color of a drawing, four bytes a pixel in the order red, green, blue,
/// alpha, in the given cell.
pub open spec fn drawn_color(drawing: Seq<u8>, cols: int, r: int, c: int) -> Pixel {
    let i = 4 * cell(cols, r, c);
    Pixel { b: drawing[i + 2], g: drawing[i + 1], r: drawing[i] }
}

/// The alpha value of a drawing in the given cell.
pub open spec fn drawn_alpha(drawing: Seq<u8>, cols: int, r: int, c: int) -> u8 {
    drawing[4 * cell(cols, r, c) + 3]
}

/// Whether a drawing shows in the given cell.
pub open spec fn shows(drawing: Seq<u8>, cols: int, r: int, c: int) -> bool {
    less(zero(), weight(drawn_alpha(drawing, cols, r, c)))
}

/// Whether a drawing shows anywhere.
pub open spec fn shows_somewhere(drawing: Seq<u8>, rows: int, cols: int) -> bool {
    exists|r: int, c: int| on_grid(rows, cols, r, c) && #[trigger] shows(drawing, cols, r, c)
}

/// A pixel under a drawing.
pub open spec fn overlaid_pixel(drawing: Seq<u8>, cols: int, r: int, c: int, p: Pixel) -> Pixel {
    if shows(drawing, cols, r, c) {
        blended_pixel(
            drawn_color(drawing, cols, r, c),
            p,
            drawn_alpha(drawing, cols, r, c),
        )
    } else {
        p
    }
}

/// A picture with a drawing laid over it.
pub open spec fn overlaid(img: Grid, drawing: Seq<u8>) -> Grid {
    img.repainted(|r: int, c: int, p: Pixel| overlaid_pixel(drawing, img.cols, r, c, p))
}

/// Lays a drawing over a picture. It fails where the drawing shows on a picture
/// that cannot be read.
pub fn blend_overlay(img: &mut Picture, drawing: &Vec<u8>) -> (result: Result<(), RenderError>)
    requires
        old(img).wf(),
        drawing@.len() == 4 * (old(img).rows * old(img).cols),
    ensures
        result == (if !old(img).readable() && shows_somewhere(
            drawing@,
            old(img).rows as int,
            old(img).cols as int,
        ) {
            Err::<(), RenderError>(RenderError::Unreadable)
        } else {
            Ok(())
        }),
        final(img).wf(),
        final(img)@ == overlaid(old(img)@, drawing@),
        forall|r: int, c: int|
            #![trigger final(img).at(r, c)]
            old(img).at(r, c) is Some ==> final(img).at(r, c) is Some && drawn_on(
                drawing@,
                4 * (r * old(img).cols + c),
                old(img).at(r, c)->0,
                final(img).at(r, c)->0,
            ),
{
    let rows: i32 = img.rows;
    let cols: i32 = img.cols;
    let ghost was = *img;
    let cells: usize = drawing.len() / 4;
    let ghost over = |r: int, c: int, p: Pixel| overlaid_pixel(drawing@, was@.cols, r, c, p);
    proof {
        lemma_repainted(was@, over);
    }
    let mut r: i32 = 0;
    while r < rows
        invariant
            was == *old(img),
            over == (|y: int, x: int, p: Pixel| overlaid_pixel(drawing@, was@.cols, y, x, p)),
            forall|s: int, d: int|
                #![trigger was@.repainted(over).at(s, d)]
                was@.repainted(over).at(s, d) == (match was@.at(s, d) {
                    Some(p) => Some(over(s, d, p)),
                    None => None,
                }),
            was@.repainted(over).wf(),
            was.wf(),
            img.wf(),
            rows == was.rows,
            cols == was.cols,
            img.rows == was.rows,
            img.cols == was.cols,
            img.readable() == was.readable(),
            drawing@.len() == 4 * (rows * cols),
            cells == rows * cols,
            0 <= r <= rows,
            !was.readable() ==> forall|s: int, d: int|
                on_grid(rows as int, cols as int, s, d) && s < r ==> !#[trigger] shows(
                    drawing@,
                    cols as int,
                    s,
                    d,
                ),
            forall|s: int, d: int|
                #![trigger img.at(s, d)]
                img.at(s, d) == (if s < r {
                    was@.repainted(over).at(s, d)
                } else {
                    was.at(s, d)
                }),
        decreases rows - r,
    {
        let mut c: i32 = 0;
        while c < cols
            invariant
                was == *old(img),
                over == (|y: int, x: int, p: Pixel| overlaid_pixel(drawing@, was@.cols, y, x, p)),
                forall|s: int, d: int|
                    #![trigger was@.repainted(over).at(s, d)]
                    was@.repainted(over).at(s, d) == (match was@.at(s, d) {
                        Some(p) => Some(over(s, d, p)),
                        None => None,
                    }),
                was@.repainted(over).wf(),
                was.wf(),
                img.wf(),
                rows == was.rows,
                cols == was.cols,
                img.rows == was.rows,
                img.cols == was.cols,
                img.readable() == was.readable(),
                drawing@.len() == 4 * (rows * cols),
                cells == rows * cols,
                0 <= r < rows,
                0 <= c <= cols,
                !was.readable() ==> forall|s: int, d: int|
                    on_grid(rows as int, cols as int, s, d) && (s < r || (s == r && d < c))
                        ==> !#[trigger] shows(drawing@, cols as int, s, d),
                forall|s: int, d: int|
                    #![trigger img.at(s, d)]
                    img.at(s, d) == (if s < r || (s == r && d < c) {
                        was@.repainted(over).at(s, d)
                    } else {
                        was.at(s, d)
                    }),
            decreases cols - c,
        {
            assert(4 * cells == drawing.len());
            let i: usize = 4 * place(rows, cols, r, c, cells);
            let alpha: u8 = drawing[i + 3];
            let zero: Double = Double { bits: 0 };
            if weight_of(alpha).above(zero) {
                let top: Pixel = Pixel { b: drawing[i + 2], g: drawing[i + 1], r: drawing[i] };
                match img.pixel(r, c) {
                    Some(under) => {
                        assert(img.at(r as int, c as int) is Some);
                        img.set_pixel(r, c, blend_pixel(top, under, alpha));
                    },
                    None => {
                        proof {
                            assert(on_grid(rows as int, cols as int, r as int, c as int));
                            assert(shows(drawing@, cols as int, r as int, c as int));
                            assert(shows_somewhere(drawing@, rows as int, cols as int));
                            assert(img.at(r as int, c as int) is None);
                            assert(!was.readable());
                            lemma_same_grid(img@, was@.repainted(over));
                        }
                        return Err(RenderError::Unreadable);
                    },
                }
            }
            c = c + 1;
        }
        r = r + 1;
    }
    proof {
        assert forall|s: int, d: int| on_grid(rows as int, cols as int, s, d) implies (
        #[trigger] img@.at(s, d)) == was@.repainted(over).at(s, d) by {
            assert(img.at(s, d) == img@.at(s, d));
        }
        lemma_same_grid(img@, was@.repainted(over));
        assert forall|s: int, d: int| was.at(s, d) is Some implies (#[trigger] img.at(s, d)) is Some
            && drawn_on(
            drawing@,
            4 * (s * was.cols + d),
            was.at(s, d)->0,
            img.at(s, d)->0,
        ) by {
            law_overlay_weighs(was@, drawing@, s, d);
        }
    }
    Ok(())
}

/// Whether there is a canvas of the given size.
pub open spec fn canvas_exists(width: int, height: int) -> bool {
    0 < width <= 536_870_911 && 0 < height
}

/// A canvas of the given size, if there is one, can be held in memory, has a
/// 32-bit number for each of its bytes, and leaves room for the margins that
/// drawing adds around it.
pub open spec fn canvas_fits(width: int, height: int) -> bool {
    canvas_exists(width, height) ==> {
        &&& width <= 429_496_729
        &&& height <= 429_496_729
        &&& 4 * (width * height) <= isize::MAX
        &&& 4 * (width * height) <= 0x1_0000_0000
    }
}

/// Whether `usvg::Tree::from_str` accepts a text under the default options.
pub uninterp spec fn well_formed_svg(svg: Seq<char>) -> bool;

/// What `resvg::render` makes of an SVG text on an empty canvas of the given
/// size, by `tiny_skia::Pixmap::data`.
pub uninterp spec fn drawing_of(svg: Seq<char>, width: int, height: int) -> Seq<u8>;

/// Draws SVG text on an empty canvas, by `usvg::Tree::from_str` with the
/// default options, `tiny_skia::Pixmap::new`, `resvg::render` without a
/// transform and `tiny_skia::Pixmap::data`.
///
/// Only the drawings that this library makes are handed over: some other texts
/// stop the parser, and a box that starts far enough above the canvas stops the
/// renderer.
///
/// Trusted: whether the text is accepted depends on the text alone, and is
/// found out before the canvas is made; a drawing with sides above zero, a plain
/// name and at most 300,000 marks is accepted; there is a canvas unless a side
/// is zero or a row takes more than `i32::MAX` bytes. The drawing depends on the
/// text and the size alone: boxes of one color are filled by counting whole
/// samples and blended in whole numbers, and there is no font for the labels. It
/// has four bytes a pixel, all of them zero where there is nothing to draw. Which
/// other text is accepted, and which color each pixel gets, is left unsaid.
#[verifier::external_body]
fn rasterize(svg: &str, width: u32, height: u32) -> (result: Result<Vec<u8>, RenderError>)
    requires
        canvas_fits(width as int, height as int),
        own_drawing(svg@),
    ensures
        match result {
            Ok(drawing) => {
                &&& well_formed_svg(svg@)
                &&& canvas_exists(width as int, height as int)
                &&& drawing@ == drawing_of(svg@, width as int, height as int)
                &&& drawing@.len() == 4 * (width * height)
                &&& blank_drawing(svg@) ==> forall|i: int|
                    0 <= i < drawing@.len() ==> #[trigger] drawing@[i] == 0
            },
            Err(RenderError::BadSvg) => !well_formed_svg(svg@) && !sound_drawing(svg@),
            Err(RenderError::BadSize) => well_formed_svg(svg@) && !canvas_exists(
                width as int,
                height as int,
            ),
            Err(RenderError::Unreadable) => false,
        },
{
    let options = usvg::Options::default();
    let tree = match usvg::Tree::from_str(svg, &options) {
        Ok(tree) => tree,
        Err(_) => return Err(RenderError::BadSvg),
    };
    let mut pixmap = match resvg::tiny_skia::Pixmap::new(width, height) {
        Some(pixmap) => pixmap,
        None => return Err(RenderError::BadSize),
    };
    let transform = resvg::tiny_skia::Transform::identity();
    resvg::render(&tree, transform, &mut pixmap.as_mut());
    Ok(pixmap.data().to_vec())
}

/// A picture with an SVG text drawn over it, or why there is none.
pub open spec fn drawn_over(img: Grid, svg: Seq<char>) -> Result<Grid, RenderError> {
    let drawing = drawing_of(svg, img.cols, img.rows);
    if !well_formed_svg(svg) {
        Err(RenderError::BadSvg)
    } else if !canvas_exists(img.cols, img.rows) {
        Err(RenderError::BadSize)
    } else if !img.readable() && shows_somewhere(drawing, img.rows, img.cols) {
        Err(RenderError::Unreadable)
    } else {
        Ok(overlaid(img, drawing))
    }
}

/// A drawing whose bytes are all zero shows nowhere.
proof fn lemma_blank_shows_nowhere(drawing: Seq<u8>, rows: int, cols: int)
    requires
        drawing.len() == 4 * (rows * cols),
        forall|i: int| 0 <= i < drawing.len() ==> #[trigger] drawing[i] == 0,
    ensures
        !shows_somewhere(drawing, rows, cols),
{
    assert forall|r: int, c: int| on_grid(rows, cols, r, c) implies !#[trigger] shows(
        drawing,
        cols,
        r,
        c,
    ) by {
        lemma_cell(rows, cols, r, c);
        law_shows_unless_transparent(drawing, cols, r, c);
        assert(drawing[4 * cell(cols, r, c) + 3] == 0);
    }
}

/// Draws SVG text over a picture. A blank drawing changes nothing.
pub(crate) fn draw_over(img: &mut Picture, svg: &str) -> (result: Result<(), RenderError>)
    requires
        old(img).wf(),
        canvas_fits(old(img).cols as int, old(img).rows as int),
        own_drawing(svg@),
    ensures
        final(img).wf(),
        match drawn_over(old(img)@, svg@) {
            Ok(after) => result is Ok && final(img)@ == after,
            Err(e) => result == Err::<(), RenderError>(e) && final(img)@ == old(img)@,
        },
        sound_drawing(svg@) ==> well_formed_svg(svg@),
        blank_drawing(svg@) && result is Ok ==> final(img)@ == old(img)@,
        blank_drawing(svg@) ==> result != Err::<(), RenderError>(RenderError::Unreadable),
{
    let drawing: Vec<u8> = match rasterize(svg, img.cols as u32, img.rows as u32) {
        Ok(drawing) => drawing,
        Err(e) => {
            return Err(e);
        },
    };
    let ghost was = *img;
    proof {
        assert(was.cols * was.rows == was.rows * was.cols) by (nonlinear_arith);
        if blank_drawing(svg@) {
            lemma_blank_shows_nowhere(drawing@, was.rows as int, was.cols as int);
            law_empty_drawing_changes_nothing(was@, drawing@);
        }
    }
    let result: Result<(), RenderError> = blend_overlay(img, &drawing);
    proof {
        if result is Err {
            lemma_unreadable_overlaid(was@, drawing@);
        }
    }
    result
}

/// A drawing cannot change a picture that cannot be read.
proof fn lemma_unreadable_overlaid(img: Grid, drawing: Seq<u8>)
    requires
        !img.readable(),
    ensures
        overlaid(img, drawing) == img,
{
}

/// The design with a mark over every position of a component: a box in the
/// color of its trust, and a label. Without positions it is the design itself.
pub fn generate_mask_image(
    design: &Picture,
    positions: &Vec<Position>,
    component_name: &str,
) -> (result: Result<Picture, RenderError>)
    requires
        design.wf(),
        mark_labels_fit(views(positions@)),
        boxes_in_reach(views(positions@)),
        canvas_fits(design.cols as int, design.rows as int),
        markup_free(component_name@),
    ensures
        ({
            let svg = mask_svg_text(
                design.cols as int,
                design.rows as int,
                views(positions@),
                component_name@,
            );
            match drawn_over(design@, svg) {
                Ok(after) => result matches Ok(out) && out.wf() && out@ == after,
                Err(e) => result == Err::<Picture, RenderError>(e),
            }
        }),
        design.readable() && canvas_exists(design.cols as int, design.rows as int) && sound_mask(
            design.cols as int,
            design.rows as int,
            views(positions@),
            component_name@,
        ) ==> result is Ok,
        positions@.len() == 0 ==> (result matches Ok(out) ==> out@ == design@),
        result matches Ok(out) ==> out.rows == design.rows && out.cols == design.cols && forall|
            r: int,
            c: int,
        |
            #![trigger out.at(r, c)]
            design.at(r, c) is Some ==> out.at(r, c) is Some && drawn_on(
                drawing_of(
                    mask_svg_text(
                        design.cols as int,
                        design.rows as int,
                        views(positions@),
                        component_name@,
                    ),
                    design.cols as int,
                    design.rows as int,
                ),
                4 * (r * design.cols + c),
                design.at(r, c)->0,
                out.at(r, c)->0,
            ),
{
    let svg: String = mask_svg(design.cols, design.rows, positions, component_name);
    proof {
        assert(svg@ == mask_svg_text(
            design.cols as int,
            design.rows as int,
            views(positions@),
            component_name@,
        ));
        if positions@.len() == 0 {
            assert(views(positions@) =~= Seq::empty());
            lemma_blank_mask(design.cols, design.rows, component_name@);
        }
    }
    let mut out: Picture = copy_picture(design);
    proof {
        if drawn_over(design@, svg@) is Ok {
            assert forall|r: int, c: int| design.at(r, c) is Some implies (#[trigger] overlaid(
                design@,
                drawing_of(svg@, design.cols as int, design.rows as int),
            ).at(r, c)) is Some && drawn_on(
                drawing_of(svg@, design.cols as int, design.rows as int),
                4 * (r * design.cols + c),
                design.at(r, c)->0,
                overlaid(
                    design@,
                    drawing_of(svg@, design.cols as int, design.rows as int),
                ).at(r, c)->0,
            ) by {
                law_overlay_weighs(
                    design@,
                    drawing_of(svg@, design.cols as int, design.rows as int),
                    r,
                    c,
                );
            }
        }
    }
    match draw_over(&mut out, svg.as_str()) {
        Ok(()) => Ok(out),
        Err(e) => Err(e),
    }
}

/// A copy of a picture.
pub fn copy_picture(img: &Picture) -> (copy: Picture)
    requires
        img.wf(),
    ensures
        copy.wf(),
        copy@ == img@,
{
    let pixels: Option<Vec<Pixel>> = match &img.pixels {
        Some(pixels) => {
            let mut copy: Vec<Pixel> = Vec::new();
            let mut i: usize = 0;
            while i < pixels.len()
                invariant
                    i <= pixels.len(),
                    copy@ == pixels@.take(i as int),
                decreases pixels.len() - i,
            {
                copy.push(pixels[i]);
                assert(copy@ =~= pixels@.take(i + 1));
                i = i + 1;
            }
            assert(copy@ =~= pixels@);
            Some(copy)
        },
        None => None,
    };
    Picture { rows: img.rows, cols: img.cols, pixels }
}

/// Full alpha shows the upper color alone, and no alpha the lower one.
pub proof fn law_blending_ends(over: u8, under: u8)
    ensures
        blended(over, under, 255) == over,
        blended(over, under, 0) == under,
{
    lemma_whole_quotient(1, 255);
    lemma_whole_quotient(0, 255);
    lemma_one();
    lemma_whole_difference(1, 1);
    lemma_whole_difference(1, 0);
    lemma_whole_product(over as nat, 1);
    lemma_whole_product(over as nat, 0);
    lemma_whole_product(under as nat, 1);
    lemma_whole_product(under as nat, 0);
    lemma_whole_sum(over as nat, 0);
    lemma_whole_sum(0, under as nat);
    lemma_whole_to_byte(over as nat);
    lemma_whole_to_byte(under as nat);
    assert(over as nat * 1 == over && over as nat * 0 == 0);
    assert(under as nat * 1 == under && under as nat * 0 == 0);
}

/// Sums and products of weights that are off by little are off by little.
proof fn lemma_weighed(
    over: nat,
    under: nat,
    alpha: nat,
    w: nat,
    rest: nat,
    a: nat,
    b: nat,
    s: nat,
    t: nat,
)
    requires
        over <= 255,
        under <= 255,
        alpha <= 255,
        distance((alpha * (0x20_0000_0000_0000 * t)) as int, (255 * w) as int) <= 255 * t,
        distance(0x20_0000_0000_0000 * t - w, rest as int) <= t,
        distance((over * w) as int, a as int) <= 256 * t,
        distance((under * rest) as int, b as int) <= 256 * t,
        distance((a + b) as int, s as int) <= 512 * t,
    ensures
        distance(
            (255 * s) as int,
            (over * alpha + under * (255 - alpha)) * (0x20_0000_0000_0000 * t),
        ) <= 0x10_0000_0000 * t,
{
    let u = 0x20_0000_0000_0000 * t;
    let full = alpha * u - 255 * w;
    let left = (u - w) - rest;
    assert(over * full <= 255 * (255 * t) && over * full >= -(255 * (255 * t)))
        by (nonlinear_arith)
        requires
            0 <= over <= 255,
            -(255 * t) <= full <= 255 * t,
    ;
    assert(under * full <= 255 * (255 * t) && under * full >= -(255 * (255 * t)))
        by (nonlinear_arith)
        requires
            0 <= under <= 255,
            -(255 * t) <= full <= 255 * t,
    ;
    assert(under * left <= 255 * t && under * left >= -(255 * t)) by (nonlinear_arith)
        requires
            0 <= under <= 255,
            -t <= left <= t,
    ;
    assert((over * alpha + under * (255 - alpha)) * u == over * full + 255 * (over * w)
        + 255 * (under * left) + 255 * (under * rest) - under * full) by (nonlinear_arith)
        requires
            full == alpha * u - 255 * w,
            left == (u - w) - rest,
    ;
}

/// A weight is within 2^-53 of its share of 255.
proof fn lemma_weight(alpha: u8)
    ensures
        weight(alpha).finite(),
        !weight(alpha).negative(),
        units(weight(alpha).magnitude()) <= one_in_units(),
        distance(
            (alpha * one_in_units()) as int,
            (255 * units(weight(alpha).magnitude())) as int,
        ) <= 255 * pow2(1021),
{
    law_share_error(alpha as nat, 255);
}

/// One, and some of its parts, in units.
proof fn lemma_in_units()
    ensures
        pow2(1021) > 0,
        one_in_units() == 0x20_0000_0000_0000 * pow2(1021),
        pow2(1029) == 256 * pow2(1021),
        pow2(1030) == 512 * pow2(1021),
{
    lemma_pow2_pos(1021);
    vstd::arithmetic::power2::lemma2_to64();
    vstd::arithmetic::power2::lemma2_to64_rest();
    lemma_pow2_adds(53, 1021);
    lemma_pow2_adds(8, 1021);
    lemma_pow2_adds(9, 1021);
}

/// A byte times a number from zero to one.
proof fn lemma_weighed_byte(v: u8, x: Double)
    requires
        x.finite(),
        !x.negative(),
        units(x.magnitude()) <= one_in_units(),
    ensures
        product(from_nat(v as nat), x).finite(),
        !product(from_nat(v as nat), x).negative(),
        distance(
            (v * units(x.magnitude())) as int,
            units(product(from_nat(v as nat), x).magnitude()) as int,
        ) <= pow2(1029),
        units(product(from_nat(v as nat), x).magnitude()) <= 255 * one_in_units() + pow2(1029),
{
    let u = one_in_units();
    let w = units(x.magnitude());
    lemma_in_units();
    lemma_whole(v as nat);
    let n = (v as nat * u) * w;
    assert(n <= u * (255 * u)) by (nonlinear_arith)
        requires
            n == (v as nat * u) * w,
            v <= 255,
            w <= u,
            w >= 0,
            u >= 0,
    ;
    assert(u * (255 * u) <= u * (2 * HIDDEN_BIT * pow2(1029))) by (nonlinear_arith)
        requires
            u >= 0,
            255 * u <= 2 * HIDDEN_BIT * pow2(1029),
    ;
    law_rounding_error(n, u, 1029);
    let a = units(nearest(n, u));
    assert(u * (v * w) == n) by (nonlinear_arith)
        requires
            n == (v as nat * u) * w,
    ;
    lemma_distance_scaled((v * w) as int, a as int, pow2(1029) as int, u as int);
    assert(v * w <= 255 * u) by (nonlinear_arith)
        requires
            0 <= v <= 255,
            0 <= w <= u,
    ;
    vstd::arithmetic::power2::lemma2_to64();
    assert(256 * u == 256nat * one_in_units());
    lemma_finite(nearest(n, u), 256);
}

/// What a weight leaves of one.
proof fn lemma_rest(alpha: u8)
    ensures
        ({
            let w = units(weight(alpha).magnitude());
            let y = difference(one(), weight(alpha));
            &&& y.finite()
            &&& !y.negative()
            &&& units(y.magnitude()) <= one_in_units()
            &&& distance(one_in_units() - w, units(y.magnitude()) as int) <= pow2(1021)
        }),
{
    let u = one_in_units();
    let x = weight(alpha);
    let w = units(x.magnitude());
    lemma_in_units();
    lemma_one();
    lemma_weight(alpha);
    let gap = (u - w) as nat;
    assert(opposite(x).negative() && opposite(x).magnitude() == x.magnitude());
    assert(opposite(x).value() == -w);
    assert(one().value() == u);
    law_rounding_error(gap, 1, 1021);
    law_rounding_keeps_order(gap, 1, u, 1);
    lemma_nearest_of_units(ONE_BITS as nat);
    lemma_units_order(nearest(gap, 1), ONE_BITS as nat);
    vstd::arithmetic::power2::lemma2_to64();
    lemma_finite(nearest(gap, 1), 1);
    assert(units(0) == 0);
}

/// The sum of two numbers from zero to about 256.
proof fn lemma_small_sum(p: Double, q: Double)
    requires
        p.finite(),
        !p.negative(),
        q.finite(),
        !q.negative(),
        units(p.magnitude()) <= 255 * one_in_units() + pow2(1029),
        units(q.magnitude()) <= 255 * one_in_units() + pow2(1029),
    ensures
        sum(p, q).finite(),
        !sum(p, q).negative(),
        distance(
            (units(p.magnitude()) + units(q.magnitude())) as int,
            units(sum(p, q).magnitude()) as int,
        ) <= pow2(1030),
{
    let n = units(p.magnitude()) + units(q.magnitude());
    lemma_in_units();
    law_rounding_error(n, 1, 1030);
    vstd::arithmetic::power2::lemma2_to64();
    lemma_finite(nearest(n, 1), 1024);
    assert(units(0) == 0);
}

/// The byte that a number from zero to about 256 is cut down to.
proof fn lemma_cut_to_byte(z: Double, e: int)
    requires
        z.finite(),
        !z.negative(),
        e <= 255 * 255,
        distance((255 * units(z.magnitude())) as int, e * one_in_units()) < one_in_units(),
    ensures
        255 * to_byte(z) <= e <= 255 * to_byte(z) + 255,
{
    lemma_pow2_pos(1074);
    lemma_cut(units(z.magnitude()), e, one_in_units());
}

/// Whether a byte is the mean of two others, weighed by an alpha value, and cut
/// down to a whole number. A mean that is whole may come out as one less.
pub open spec fn weighed(mean: u8, over: u8, under: u8, alpha: u8) -> bool {
    255 * mean <= over * alpha + under * (255 - alpha) <= 255 * mean + 255
}

/// A weighed mean lies between the two values, up to the cut to a whole number.
pub proof fn law_weighed_lies_between(mean: u8, over: u8, under: u8, alpha: u8, lo: u8, hi: u8)
    requires
        weighed(mean, over, under, alpha),
        lo <= over <= hi,
        lo <= under <= hi,
    ensures
        lo - 1 <= mean <= hi,
{
    let e = over * alpha + under * (255 - alpha);
    assert(lo * 255 <= e <= hi * 255) by (nonlinear_arith)
        requires
            e == over * alpha + under * (255 - alpha),
            lo <= over <= hi,
            lo <= under <= hi,
            0 <= alpha <= 255,
    ;
}

/// One channel of a blended pixel is the mean of the upper and the lower value,
/// weighed by the alpha value.
#[verifier::spinoff_prover]
#[verifier::rlimit(40)]
pub proof fn law_blending_weighs(over: u8, under: u8, alpha: u8)
    ensures
        weighed(blended(over, under, alpha), over, under, alpha),
{
    let x = weight(alpha);
    let y = difference(one(), x);
    let p = product(from_nat(over as nat), x);
    let q = product(from_nat(under as nat), y);
    let z = sum(p, q);
    lemma_weight(alpha);
    lemma_rest(alpha);
    lemma_weighed_byte(over, x);
    lemma_weighed_byte(under, y);
    lemma_small_sum(p, q);
    lemma_in_units();
    lemma_weighed(
        over as nat,
        under as nat,
        alpha as nat,
        units(x.magnitude()),
        units(y.magnitude()),
        units(p.magnitude()),
        units(q.magnitude()),
        units(z.magnitude()),
        pow2(1021),
    );
    let e = over * alpha + under * (255 - alpha);
    assert(e <= 255 * 255) by (nonlinear_arith)
        requires
            e == over * alpha + under * (255 - alpha),
            0 <= over <= 255,
            0 <= under <= 255,
            0 <= alpha <= 255,
    ;
    lemma_cut_to_byte(z, e);
}

/// A number that is off by less than its unit is cut to a byte as stated.
proof fn lemma_cut(s: nat, e: int, u: nat)
    requires
        u > 0,
        distance((255 * s) as int, e * u) < u,
    ensures
        255 * (s / u) <= e <= 255 * (s / u) + 255,
{
    let b = s / u;
    let r = s % u;
    vstd::arithmetic::div_mod::lemma_fundamental_div_mod(s as int, u as int);
    assert(255 * b <= e <= 255 * b + 255) by (nonlinear_arith)
        requires
            u > 0,
            s == u * b + r,
            0 <= r < u,
            255 * s - e * u < u,
            e * u - 255 * s < u,
    ;
}

/// A drawing shows exactly where it is not fully transparent.
pub proof fn law_shows_unless_transparent(drawing: Seq<u8>, cols: int, r: int, c: int)
    ensures
        shows(drawing, cols, r, c) <==> drawn_alpha(drawing, cols, r, c) > 0,
{
    let a = drawn_alpha(drawing, cols, r, c) as nat;
    let u = one_in_units();
    lemma_one();
    if a == 0 {
        lemma_whole_quotient(0, 255);
    } else {
        lemma_quotient_magnitude(a, 255);
        vstd::arithmetic::power2::lemma2_to64();
        vstd::arithmetic::power2::lemma_pow2_strictly_increases(8, 1074);
        lemma_pow2_pos(1074);
        assert(1 * (255 * u) <= ((a * u) * u) * 1) by (nonlinear_arith)
            requires
                a >= 1,
                u >= 256,
        ;
        law_rounding_keeps_order(1, 1, (a * u) * u, 255 * u);
        lemma_nearest_of_units(1);
        assert(units(1) == 1);
        lemma_quotient_between(a, 255, 0, a);
    }
}

/// A drawing that shows nowhere leaves the picture as it is.
pub proof fn law_empty_drawing_changes_nothing(img: Grid, drawing: Seq<u8>)
    requires
        img.wf(),
        !shows_somewhere(drawing, img.rows, img.cols),
    ensures
        overlaid(img, drawing) == img,
{
    let over = |r: int, c: int, p: Pixel| overlaid_pixel(drawing, img.cols, r, c, p);
    lemma_repainted(img, over);
    assert(overlaid(img, drawing) == img.repainted(over));
    assert forall|r: int, c: int| on_grid(img.rows, img.cols, r, c) implies (#[trigger] overlaid(
        img,
        drawing,
    ).at(r, c)) == img.at(r, c) by {
        assert(!shows(drawing, img.cols, r, c));
        assert(img.repainted(over).at(r, c) == img.at(r, c));
    }
    lemma_same_grid(overlaid(img, drawing), img);
}

/// Whether the four bytes of a drawing from `i` on, its red, green, blue and
/// alpha values, laid over a pixel give another one: the pixel itself where the
/// drawing is transparent, the drawing's color where it is opaque, and their
/// weighed mean in between, each channel for itself.
pub open spec fn drawn_on(drawing: Seq<u8>, i: int, under: Pixel, q: Pixel) -> bool {
    let (red, green, blue, alpha) = (drawing[i], drawing[i + 1], drawing[i + 2], drawing[i + 3]);
    &&& alpha == 0 ==> q == under
    &&& alpha == 255 ==> q == (Pixel { b: blue, g: green, r: red })
    &&& weighed(q.b, blue, under.b, alpha)
    &&& weighed(q.g, green, under.g, alpha)
    &&& weighed(q.r, red, under.r, alpha)
}

/// A drawing is laid over every cell of a picture, and the picture keeps its size.
#[verifier::spinoff_prover]
#[verifier::rlimit(40)]
pub proof fn law_overlay_weighs(img: Grid, drawing: Seq<u8>, r: int, c: int)
    requires
        img.wf(),
        img.at(r, c) is Some,
    ensures
        overlaid(img, drawing).wf(),
        overlaid(img, drawing).rows == img.rows,
        overlaid(img, drawing).cols == img.cols,
        overlaid(img, drawing).at(r, c) is Some,
        drawn_on(
            drawing,
            4 * (r * img.cols + c),
            img.at(r, c)->0,
            overlaid(img, drawing).at(r, c)->0,
        ),
{
    let over = |r: int, c: int, p: Pixel| overlaid_pixel(drawing, img.cols, r, c, p);
    lemma_repainted(img, over);
    assert(overlaid(img, drawing) == img.repainted(over));
    let p = img.at(r, c)->0;
    assert(overlaid(img, drawing).at(r, c) == Some(over(r, c, p)));
    let top = drawn_color(drawing, img.cols, r, c);
    let alpha = drawn_alpha(drawing, img.cols, r, c);
    law_shows_unless_transparent(drawing, img.cols, r, c);
    law_blending_weighs(top.b, p.b, alpha);
    law_blending_weighs(top.g, p.g, alpha);
    law_blending_weighs(top.r, p.r, alpha);
    law_blending_ends(top.b, p.b);
    law_blending_ends(top.g, p.g);
    law_blending_ends(top.r, p.r);
}

/// A drawing acts on each channel for itself: two pictures that agree in one
/// channel of a cell still do once drawings that agree there in that channel and
/// in their alpha value are laid over them.
#[verifier::spinoff_prover]
#[verifier::rlimit(40)]
pub proof fn law_overlay_channels_apart(
    one: Grid,
    two: Grid,
    first: Seq<u8>,
    second: Seq<u8>,
    r: int,
    c: int,
)
    requires
        one.wf(),
        two.wf(),
        one.cols == two.cols,
        one.at(r, c) is Some,
        two.at(r, c) is Some,
        first[4 * (r * one.cols + c) + 3] == second[4 * (r * one.cols + c) + 3],
    ensures
        ({
            let i = 4 * (r * one.cols + c);
            let (p, q) = (one.at(r, c)->0, two.at(r, c)->0);
            let (a, b) = (overlaid(one, first).at(r, c)->0, overlaid(two, second).at(r, c)->0);
            &&& p.b == q.b && first[i + 2] == second[i + 2] ==> a.b == b.b
            &&& p.g == q.g && first[i + 1] == second[i + 1] ==> a.g == b.g
            &&& p.r == q.r && first[i] == second[i] ==> a.r == b.r
        }),
{
    let f = |r: int, c: int, p: Pixel| overlaid_pixel(first, one.cols, r, c, p);
    let g = |r: int, c: int, p: Pixel| overlaid_pixel(second, two.cols, r, c, p);
    lemma_repainted(one, f);
    lemma_repainted(two, g);
    assert(overlaid(one, first) == one.repainted(f));
    assert(overlaid(two, second) == two.repainted(g));
    assert(overlaid(one, first).at(r, c) == Some(f(r, c, one.at(r, c)->0)));
    assert(overlaid(two, second).at(r, c) == Some(g(r, c, two.at(r, c)->0)));
}

/// A picture that cannot be read cannot be drawn over exactly where some alpha
/// value of the drawing is above zero.
pub proof fn law_shows_by_alpha(drawing: Seq<u8>, rows: int, cols: int)
    ensures
        shows_somewhere(drawing, rows, cols) <==> exists|r: int, c: int|
            0 <= r < rows && 0 <= c < cols && #[trigger] drawing[4 * (r * cols + c) + 3] > 0,
{
    if shows_somewhere(drawing, rows, cols) {
        let (r, c) = choose|r: int, c: int|
            on_grid(rows, cols, r, c) && #[trigger] shows(drawing, cols, r, c);
        law_shows_unless_transparent(drawing, cols, r, c);
        assert(drawing[4 * (r * cols + c) + 3] > 0);
    }
    if exists|r: int, c: int|
        0 <= r < rows && 0 <= c < cols && #[trigger] drawing[4 * (r * cols + c) + 3] > 0 {
        let (r, c) = choose|r: int, c: int|
            0 <= r < rows && 0 <= c < cols && #[trigger] drawing[4 * (r * cols + c) + 3] > 0;
        law_shows_unless_transparent(drawing, cols, r, c);
        assert(shows(drawing, cols, r, c));
    }
}

/// When a picture cannot be drawn over, and why: the text is not accepted, there
/// is no canvas of the size of the picture, or the drawing shows somewhere on a
/// picture that cannot be read, in this order. Otherwise the drawing is laid over
/// it.
pub proof fn law_drawn_over(img: Grid, svg: Seq<char>)
    ensures
        ({
            let drawing = drawing_of(svg, img.cols, img.rows);
            let blocked = img.pixels is None && shows_somewhere(drawing, img.rows, img.cols);
            match drawn_over(img, svg) {
                Ok(after) => well_formed_svg(svg) && canvas_exists(img.cols, img.rows) && !blocked
                    && after == overlaid(img, drawing),
                Err(RenderError::BadSvg) => !well_formed_svg(svg),
                Err(RenderError::BadSize) => well_formed_svg(svg) && !canvas_exists(
                    img.cols,
                    img.rows,
                ),
                Err(RenderError::Unreadable) => well_formed_svg(svg) && canvas_exists(
                    img.cols,
                    img.rows,
                ) && blocked,
            }
        }),
{
}

/// What a drawing makes of a picture lies, in each channel of each cell, between
/// the picture's own value and the drawing's, up to the cut to a whole number.
pub proof fn law_overlay_lies_between(img: Grid, drawing: Seq<u8>, r: int, c: int, lo: Pixel, hi: Pixel)
    requires
        img.wf(),
        img.at(r, c) is Some,
        ({
            let i = 4 * (r * img.cols + c);
            let p = img.at(r, c)->0;
            &&& lo.b <= p.b <= hi.b && lo.b <= drawing[i + 2] <= hi.b
            &&& lo.g <= p.g <= hi.g && lo.g <= drawing[i + 1] <= hi.g
            &&& lo.r <= p.r <= hi.r && lo.r <= drawing[i] <= hi.r
        }),
    ensures
        overlaid(img, drawing).at(r, c) is Some,
        ({
            let q = overlaid(img, drawing).at(r, c)->0;
            &&& lo.b - 1 <= q.b <= hi.b
            &&& lo.g - 1 <= q.g <= hi.g
            &&& lo.r - 1 <= q.r <= hi.r
        }),
{
    let i = 4 * (r * img.cols + c);
    let (p, a) = (img.at(r, c)->0, drawing[i + 3]);
    let q = overlaid(img, drawing).at(r, c)->0;
    law_overlay_weighs(img, drawing, r, c);
    law_weighed_lies_between(q.b, drawing[i + 2], p.b, a, lo.b, hi.b);
    law_weighed_lies_between(q.g, drawing[i + 1], p.g, a, lo.g, hi.g);
    law_weighed_lies_between(q.r, drawing[i], p.r, a, lo.r, hi.r);
}

} // verus!
