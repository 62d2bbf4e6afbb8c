//! Parting the alpha values of a picture from its colors.
use crate::picture::{cell, lemma_cell, on_grid, Mask, Picture, Pixel};
use vstd::prelude::*;

verus! {

/// One pixel with its alpha value, in the order blue, green, red, alpha.
#[derive(Clone, Copy, Debug, PartialEq, Eq, Structural)]
pub struct AlphaPixel {
    pub b: u8,
    pub g: u8,
    pub r: u8,
    pub a: u8,
}

/// The alpha value that a mask holds: zero where it is below the threshold.
pub open spec fn thresholded(a: u8, alpha_threshold: u8) -> u8 {
    if a < alpha_threshold {
        0
    } else {
        a
    }
}

/// The color of a pixel without its alpha value.
pub open spec fn color_of(p: AlphaPixel) -> Pixel {
    Pixel { b: p.b, g: p.g, r: p.r }
}

/// Parts the colors of a picture from its alpha values, and zeroes those below
/// the threshold.
pub fn split_alpha(rows: i32, cols: i32, pixels: &Vec<AlphaPixel>, alpha_threshold: u8) -> (parts: (
    Picture,
    Mask,
))
    requires
        rows >= 0,
        cols >= 0,
        pixels@.len() == rows * cols,
    ensures
        parts.0.wf(),
        parts.0.rows == rows,
        parts.0.cols == cols,
        parts.0.pixels matches Some(colors) && colors@ == pixels@.map_values(
            |p: AlphaPixel| color_of(p),
        ),
        parts.1.wf(),
        parts.1.rows == rows,
        parts.1.cols == cols,
        parts.1.alpha matches Some(alpha) && alpha@ == pixels@.map_values(
            |p: AlphaPixel| thresholded(p.a, alpha_threshold),
        ),
        forall|r: int, c: int|
            #![trigger parts.0.at(r, c)]
            #![trigger parts.1.at(r, c)]
            on_grid(rows as int, cols as int, r, c) ==> ({
                let p = pixels@[r * cols + c];
                &&& parts.0.at(r, c) == Some(Pixel { b: p.b, g: p.g, r: p.r })
                &&& parts.1.at(r, c) == Some(
                    if p.a < alpha_threshold {
                        0u8
                    } else {
                        p.a
                    },
                )
            }),
{
    let mut colors: Vec<Pixel> = Vec::new();
    let mut alpha: Vec<u8> = Vec::new();
    let mut i: usize = 0;
    while i < pixels.len()
        invariant
            i <= pixels.len(),
            colors@.len() == i,
            alpha@.len() == i,
            forall|j: int| 0 <= j < i ==> #[trigger] colors@[j] == color_of(pixels@[j]),
            forall|j: int|
                0 <= j < i ==> #[trigger] alpha@[j] == thresholded(pixels@[j].a, alpha_threshold),
        decreases pixels.len() - i,
    {
        let p: AlphaPixel = pixels[i];
        colors.push(Pixel { b: p.b, g: p.g, r: p.r });
        alpha.push(if p.a < alpha_threshold { 0 } else { p.a });
        i = i + 1;
    }
    assert(colors@ =~= pixels@.map_values(|p: AlphaPixel| color_of(p)));
    assert(alpha@ =~= pixels@.map_values(|p: AlphaPixel| thresholded(p.a, alpha_threshold)));
    proof {
        assert forall|r: int, c: int| on_grid(rows as int, cols as int, r, c) implies 0
            <= #[trigger] cell(cols as int, r, c) < pixels@.len() by {
            lemma_cell(rows as int, cols as int, r, c);
        }
    }
    (Picture { rows, cols, pixels: Some(colors) }, Mask { rows, cols, alpha: Some(alpha) })
}

/// A threshold of zero keeps every alpha value, and any threshold keeps or
/// zeroes each of them.
pub proof fn law_zero_threshold_keeps_all(a: u8, alpha_threshold: u8)
    ensures
        thresholded(a, 0) == a,
        thresholded(a, alpha_threshold) == a || thresholded(a, alpha_threshold) == 0,
        thresholded(a, alpha_threshold) > 0 ==> a >= alpha_threshold,
{
}

/// A mask keeps an alpha value that reaches the threshold, and zeroes every other.
pub proof fn law_threshold_parts_values(a: u8, alpha_threshold: u8)
    ensures
        a >= alpha_threshold ==> thresholded(a, alpha_threshold) == a,
        a < alpha_threshold ==> thresholded(a, alpha_threshold) == 0,
{
}

} // verus!
