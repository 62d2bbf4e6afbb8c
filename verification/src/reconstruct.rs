//! Putting a design together again from the components that were found.
use crate::descent::{views, Position, PositionView};
use crate::entry::{entry_views, EntryView, MatchEntry};
use crate::files::{short_name, without_png};
use crate::overlap::{larger_int, smaller_int};
use crate::overlay::{
    blend_pixel, blended_pixel, canvas_exists, canvas_fits, draw_over, drawing_of, drawn_on,
    drawn_over, law_blending_ends, law_blending_weighs, law_overlay_weighs,
    law_weighed_lies_between, weighed, well_formed_svg, RenderError,
};
use crate::picture::{
    lemma_repainted, lemma_same_grid, mask_wf, on_grid, Grid, Mask, Picture, Pixel, Rect,
};
use crate::svg::{
    all_boxes_in_reach, box_count, design_svg, design_svg_text, label_fits, label_line, label_y,
    lemma_blank_design, palette, palette_color, sound_design,
};
use crate::text::{append_two_places, two_places};
use vstd::prelude::*;
use vstd::string::*;

verus! {

/// A component as it is pasted: its colors, and its alpha values if it has any.
#[derive(Clone, Debug, PartialEq, Eq)]
pub struct Layer {
    pub colors: Picture,
    pub alpha: Option<Mask>,
}

impl Layer {
    pub open spec fn wf(&self) -> bool {
        self.colors.wf() && mask_wf(&self.alpha)
    }
}

/// The part of a canvas that a layer covers at a position: its top left corner,
/// and how much of the layer is on the canvas.
pub open spec fn target(width: int, height: int, layer: &Layer, p: PositionView) -> (int, int, int, int) {
    let x = larger_int(p.x as int, 0);
    let y = larger_int(p.y as int, 0);
    (x, y, smaller_int(layer.colors.cols as int, width - x), smaller_int(
        layer.colors.rows as int,
        height - y,
    ))
}

/// The alpha value of a layer in one of its cells; zero where it cannot be read.
pub open spec fn layer_alpha(mask: &Mask, r: int, c: int) -> u8 {
    match mask.at(r, c) {
        Some(a) => a,
        None => 0,
    }
}

/// What a canvas shows in a cell once a layer is pasted at a position. With
/// alpha values the layer is blended where it is not transparent; without, it
/// replaces what was there.
pub open spec fn pasted_pixel(
    width: int,
    height: int,
    layer: &Layer,
    p: PositionView,
    r: int,
    c: int,
    under: Pixel,
) -> Pixel {
    let (x, y, w, h) = target(width, height, layer, p);
    if !on_grid(h, w, r - y, c - x) || !layer.colors.readable() {
        under
    } else {
        let over = layer.colors.at(r - y, c - x)->0;
        match &layer.alpha {
            Some(mask) => {
                let a = layer_alpha(mask, r - y, c - x);
                if a > 0 {
                    blended_pixel(over, under, a)
                } else {
                    under
                }
            },
            None => over,
        }
    }
}

/// A canvas once a layer is pasted at a position.
pub open spec fn pasted(canvas: Grid, layer: &Layer, p: PositionView) -> Grid {
    canvas.repainted(
        |r: int, c: int, under: Pixel|
            pasted_pixel(canvas.cols, canvas.rows, layer, p, r, c, under),
    )
}

/// Whether a layer with alpha values has to be read at a position although it
/// cannot be.
pub open spec fn paste_fails(width: int, height: int, layer: &Layer, p: PositionView) -> bool {
    &&& !layer.colors.readable()
    &&& layer.alpha is Some
    &&& exists|r: int, c: int|
        {
            let (x, y, w, h) = target(width, height, layer, p);
            on_grid(h, w, r, c) && #[trigger] layer_alpha(&layer.alpha->0, r, c) > 0
        }
}

/// A canvas once a layer is pasted at all of its positions, in order.
pub open spec fn pasted_at_all(canvas: Grid, layer: &Layer, positions: Seq<PositionView>) -> Grid
    decreases positions.len(),
{
    if positions.len() == 0 {
        canvas
    } else {
        pasted(pasted_at_all(canvas, layer, positions.drop_last()), layer, positions.last())
    }
}

/// A canvas once the layers of all entries are pasted, in order.
pub open spec fn all_pasted(canvas: Grid, layers: Seq<Layer>, entries: Seq<EntryView>) -> Grid
    decreases entries.len(),
{
    if entries.len() == 0 {
        canvas
    } else {
        let n = entries.len() - 1;
        pasted_at_all(
            all_pasted(canvas, layers, entries.drop_last()),
            &layers[n],
            entries[n].positions,
        )
    }
}

/// Whether some layer has to be read although it cannot be.
pub open spec fn some_paste_fails(
    width: int,
    height: int,
    layers: Seq<Layer>,
    entries: Seq<EntryView>,
) -> bool {
    exists|i: int, j: int|
        0 <= i < entries.len() && 0 <= j < entries[i].positions.len() && #[trigger] paste_fails(
            width,
            height,
            &layers[i],
            entries[i].positions[j],
        )
}

/// A picture that is white all over.
pub open spec fn white(rows: int, cols: int) -> Grid {
    Grid {
        rows,
        cols,
        pixels: Some(Seq::new((rows * cols) as nat, |i: int| Pixel { b: 255, g: 255, r: 255 })),
    }
}

/// A white canvas.
fn white_canvas(rows: i32, cols: i32) -> (canvas: Picture)
    requires
        rows >= 0,
        cols >= 0,
        rows * cols <= usize::MAX,
    ensures
        canvas.wf(),
        canvas@ == white(rows as int, cols as int),
{
    let mut pixels: Vec<Pixel> = Vec::new();
    proof {
        if rows > 0 && cols > 0 {
            assert(rows <= rows * cols && cols <= rows * cols) by (nonlinear_arith)
                requires
                    rows > 0,
                    cols > 0,
            ;
        } else {
            assert(rows * cols == 0) by (nonlinear_arith)
                requires
                    rows == 0 || cols == 0,
            ;
        }
    }
    let cells: usize = if rows > 0 && cols > 0 { rows as usize * cols as usize } else { 0 };
    let mut i: usize = 0;
    while i < cells
        invariant
            i <= cells,
            pixels@.len() == i,
            forall|j: int| 0 <= j < i ==> #[trigger] pixels@[j] == (Pixel { b: 255, g: 255, r: 255 }),
        decreases cells - i,
    {
        pixels.push(Pixel { b: 255, g: 255, r: 255 });
        i = i + 1;
    }
    proof {
        assert(0 <= rows * cols) by (nonlinear_arith)
            requires
                rows >= 0,
                cols >= 0,
        ;
        assert(pixels@ =~= white(rows as int, cols as int).pixels->0);
    }
    Picture { rows, cols, pixels: Some(pixels) }
}

/// Pastes a layer onto a canvas at a position.
#[verifier::spinoff_prover]
#[verifier::rlimit(40)]
fn paste(canvas: &mut Picture, layer: &Layer, p: &Position) -> (result: Result<(), RenderError>)
    requires
        old(canvas).wf(),
        old(canvas).readable(),
        layer.wf(),
    ensures
        final(canvas).wf(),
        result == (if paste_fails(
            old(canvas).cols as int,
            old(canvas).rows as int,
            layer,
            p@,
        ) {
            Err::<(), RenderError>(RenderError::Unreadable)
        } else {
            Ok(())
        }),
        result is Ok ==> final(canvas)@ == pasted(old(canvas)@, layer, p@),
{
    let dw: i32 = canvas.cols;
    let dh: i32 = canvas.rows;
    let x: i32 = if p.x >= 0 { p.x } else { 0 };
    let y: i32 = if p.y >= 0 { p.y } else { 0 };
    let w: i32 = if layer.colors.cols <= dw - x { layer.colors.cols } else { dw - x };
    let h: i32 = if layer.colors.rows <= dh - y { layer.colors.rows } else { dh - y };
    let ghost was = *canvas;
    let ghost over = |s: int, d: int, under: Pixel|
        pasted_pixel(was@.cols, was@.rows, layer, p@, s, d, under);
    let ghost after = was@.repainted(over);
    proof {
        lemma_repainted(was@, over);
    }
    let ghost tgt = target(dw as int, dh as int, layer, p@);
    assert(tgt == (x as int, y as int, w as int, h as int));
    if w <= 0 || h <= 0 {
        proof {
            lemma_same_grid(was@, after);
        }
        return Ok(());
    }
    let mut r: i32 = 0;
    while r < h
        invariant
            dw == old(canvas).cols,
            dh == old(canvas).rows,
            canvas.rows == dh,
            canvas.cols == dw,
            canvas.wf(),
            canvas.readable(),
            layer.wf(),
            was == *old(canvas),
            was.wf(),
            was.readable(),
            after.wf(),
            after == was@.repainted(over),
            after == pasted(was@, layer, p@),
            over == (|s: int, d: int, under: Pixel|
                pasted_pixel(was@.cols, was@.rows, layer, p@, s, d, under)),
            forall|s: int, d: int|
                #![trigger after.at(s, d)]
                after.at(s, d) == (match was@.at(s, d) {
                    Some(q) => Some(over(s, d, q)),
                    None => None,
                }),
            tgt == target(dw as int, dh as int, layer, p@),
            tgt == (x as int, y as int, w as int, h as int),
            x >= 0,
            y >= 0,
            w <= layer.colors.cols,
            h <= layer.colors.rows,
            x + w <= dw,
            y + h <= dh,
            w > 0,
            0 <= r <= h,
            !layer.colors.readable() && layer.alpha is Some ==> forall|s: int, d: int|
                on_grid(h as int, w as int, s, d) && s < r ==> #[trigger] layer_alpha(
                    &layer.alpha->0,
                    s,
                    d,
                ) == 0,
            forall|s: int, d: int|
                #![trigger canvas.at(s, d)]
                canvas.at(s, d) == (if s < y + r {
                    after.at(s, d)
                } else {
                    was.at(s, d)
                }),
        decreases h - r,
    {
        let mut c: i32 = 0;
        while c < w
            invariant
                dw == old(canvas).cols,
                dh == old(canvas).rows,
                canvas.rows == dh,
                canvas.cols == dw,
                canvas.wf(),
                canvas.readable(),
                layer.wf(),
                was == *old(canvas),
                was.wf(),
                was.readable(),
                after.wf(),
                after == was@.repainted(over),
                after == pasted(was@, layer, p@),
                over == (|s: int, d: int, under: Pixel|
                    pasted_pixel(was@.cols, was@.rows, layer, p@, s, d, under)),
                forall|s: int, d: int|
                    #![trigger after.at(s, d)]
                    after.at(s, d) == (match was@.at(s, d) {
                        Some(q) => Some(over(s, d, q)),
                        None => None,
                    }),
                tgt == target(dw as int, dh as int, layer, p@),
                tgt == (x as int, y as int, w as int, h as int),
                x >= 0,
                y >= 0,
                w <= layer.colors.cols,
                h <= layer.colors.rows,
                x + w <= dw,
                y + h <= dh,
                0 <= r < h,
                0 <= c <= w,
                !layer.colors.readable() && layer.alpha is Some ==> forall|s: int, d: int|
                    on_grid(h as int, w as int, s, d) && (s < r || (s == r && d < c))
                        ==> #[trigger] layer_alpha(&layer.alpha->0, s, d) == 0,
                forall|s: int, d: int|
                    #![trigger canvas.at(s, d)]
                    canvas.at(s, d) == (if s < y + r || (s == y + r && d < x + c) {
                        after.at(s, d)
                    } else {
                        was.at(s, d)
                    }),
            decreases w - c,
        {
            assert(on_grid(h as int, w as int, r as int, c as int));
            assert(on_grid(dh as int, dw as int, y + r, x + c));
            assert(canvas.at(y + r, x + c) == was.at(y + r, x + c));
            assert(after.at(y + r, x + c) is Some);
            match &layer.alpha {
                Some(mask) => {
                    let a: u8 = match mask.value(r, c) {
                        Some(a) => a,
                        None => 0,
                    };
                    assert(a == layer_alpha(mask, r as int, c as int));
                    if a > 0 {
                        match layer.colors.pixel(r, c) {
                            Some(top) => {
                                if let Some(bottom) = canvas.pixel(y + r, x + c) {
                                    let _ = canvas.set_pixel(
                                        y + r,
                                        x + c,
                                        blend_pixel(top, bottom, a),
                                    );
                                }
                            },
                            None => {
                                assert(paste_fails(dw as int, dh as int, layer, p@));
                                return Err(RenderError::Unreadable);
                            },
                        }
                    }
                },
                None => {
                    if let Some(top) = layer.colors.pixel(r, c) {
                        let _ = canvas.set_pixel(y + r, x + c, top);
                    }
                },
            }
            c = c + 1;
        }
        r = r + 1;
    }
    proof {
        assert forall|s: int, d: int| on_grid(dh as int, dw as int, s, d) implies (
        #[trigger] canvas@.at(s, d)) == after.at(s, d) by {
            assert(canvas@.at(s, d) == canvas.at(s, d));
        }
        lemma_same_grid(canvas@, after);
        assert(!paste_fails(dw as int, dh as int, layer, p@));
    }
    Ok(())
}

/// Pastes a layer onto a canvas at all of its positions.
fn paste_at_all(canvas: &mut Picture, layer: &Layer, positions: &Vec<Position>) -> (result: Result<
    (),
    RenderError,
>)
    requires
        old(canvas).wf(),
        old(canvas).readable(),
        layer.wf(),
    ensures
        final(canvas).wf(),
        result is Ok || result == Err::<(), RenderError>(RenderError::Unreadable),
        result is Err <==> exists|j: int|
            0 <= j < positions@.len() && #[trigger] paste_fails(
                old(canvas).cols as int,
                old(canvas).rows as int,
                layer,
                views(positions@)[j],
            ),
        result is Ok ==> final(canvas)@ == pasted_at_all(
            old(canvas)@,
            layer,
            views(positions@),
        ),
        result is Ok ==> final(canvas).readable() && final(canvas).rows == old(canvas).rows
            && final(canvas).cols == old(canvas).cols,
{
    let ghost was = *canvas;
    let ghost all = views(positions@);
    let mut i: usize = 0;
    assert(all.take(0) =~= Seq::empty());
    while i < positions.len()
        invariant
            was == *old(canvas),
            all == views(positions@),
            canvas.wf(),
            canvas.readable(),
            canvas.rows == was.rows,
            canvas.cols == was.cols,
            layer.wf(),
            i <= positions.len(),
            canvas@ == pasted_at_all(was@, layer, all.take(i as int)),
            forall|j: int|
                0 <= j < i ==> !#[trigger] paste_fails(
                    was.cols as int,
                    was.rows as int,
                    layer,
                    all[j],
                ),
        decreases positions.len() - i,
    {
        assert(all[i as int] == positions@[i as int]@);
        match paste(canvas, layer, &positions[i]) {
            Ok(()) => {},
            Err(e) => {
                return Err(e);
            },
        }
        proof {
            assert(all.take(i + 1).drop_last() =~= all.take(i as int));
            assert(all.take(i + 1).last() == all[i as int]);
            assert(canvas@.rows == was.rows);
        }
        i = i + 1;
    }
    assert(all.take(i as int) =~= all);
    Ok(())
}

/// A white canvas of the size of the design with every component that was found
/// pasted at its positions.
pub fn paste_components(
    width: i32,
    height: i32,
    all_matches: &Vec<MatchEntry>,
    layers: &Vec<Layer>,
) -> (result: Result<Picture, RenderError>)
    requires
        width >= 0,
        height >= 0,
        height * width <= usize::MAX,
        layers@.len() == all_matches@.len(),
        forall|i: int| 0 <= i < layers@.len() ==> (#[trigger] layers@[i]).wf(),
    ensures
        result is Ok || result == Err::<Picture, RenderError>(RenderError::Unreadable),
        result is Err <==> some_paste_fails(
            width as int,
            height as int,
            layers@,
            entry_views(all_matches@),
        ),
        result matches Ok(canvas) ==> canvas.wf() && canvas.readable() && canvas.rows == height
            && canvas.cols == width && canvas@ == all_pasted(
            white(height as int, width as int),
            layers@,
            entry_views(all_matches@),
        ),
{
    let mut canvas: Picture = white_canvas(height, width);
    let ghost blank = canvas@;
    let ghost all = entry_views(all_matches@);
    let mut i: usize = 0;
    assert(all.take(0) =~= Seq::empty());
    assert(canvas@.rows == height && canvas@.cols == width && canvas@.readable());
    while i < all_matches.len()
        invariant
            all == entry_views(all_matches@),
            canvas.wf(),
            canvas.readable(),
            canvas.rows == height,
            canvas.cols == width,
            layers@.len() == all_matches@.len(),
            forall|j: int| 0 <= j < layers@.len() ==> (#[trigger] layers@[j]).wf(),
            i <= all_matches.len(),
            canvas@ == all_pasted(blank, layers@, all.take(i as int)),
            forall|k: int, j: int|
                0 <= k < i && 0 <= j < all[k].positions.len() ==> !#[trigger] paste_fails(
                    width as int,
                    height as int,
                    &layers@[k],
                    all[k].positions[j],
                ),
        decreases all_matches.len() - i,
    {
        assert(all[i as int] == all_matches@[i as int]@);
        match paste_at_all(&mut canvas, &layers[i], &all_matches[i].positions) {
            Ok(()) => {},
            Err(e) => {
                proof {
                    let positions = views(all_matches@[i as int].positions@);
                    let j = choose|j: int|
                        0 <= j < positions.len() && #[trigger] paste_fails(
                            width as int,
                            height as int,
                            &layers@[i as int],
                            positions[j],
                        );
                    assert(paste_fails(
                        width as int,
                        height as int,
                        &layers@[i as int],
                        all[i as int].positions[j],
                    ));
                }
                return Err(e);
            },
        }
        proof {
            assert(all.take(i + 1).drop_last() =~= all.take(i as int));
            assert(all.take(i + 1).last() == all[i as int]);
        }
        i = i + 1;
    }
    assert(all.take(i as int) =~= all);
    Ok(canvas)
}

/// A design put together again, or why it is not.
pub open spec fn reconstructed(
    width: int,
    height: int,
    entries: Seq<EntryView>,
    layers: Seq<Layer>,
) -> Result<Grid, RenderError> {
    if some_paste_fails(width, height, layers, entries) {
        Err(RenderError::Unreadable)
    } else {
        drawn_over(
            all_pasted(white(height, width), layers, entries),
            design_svg_text(width, height, entries),
        )
    }
}

proof fn lemma_nothing_pasted(canvas: Grid, layers: Seq<Layer>, entries: Seq<EntryView>)
    requires
        box_count(entries) == 0,
    ensures
        all_pasted(canvas, layers, entries) == canvas,
    decreases entries.len(),
{
    if entries.len() > 0 {
        lemma_nothing_pasted(canvas, layers, entries.drop_last());
    }
}

/// The design put together again: every component that was found pasted onto
/// white at its positions, under faint boxes in a color for each component.
pub fn generate_reconstructed_design(
    design_size: (i32, i32),
    all_matches: &Vec<MatchEntry>,
    layers: &Vec<Layer>,
) -> (result: Result<Picture, RenderError>)
    requires
        design_size.0 >= 0,
        design_size.1 >= 0,
        design_size.1 * design_size.0 <= usize::MAX,
        canvas_fits(design_size.0 as int, design_size.1 as int),
        all_boxes_in_reach(entry_views(all_matches@)),
        layers@.len() == all_matches@.len(),
        forall|i: int| 0 <= i < layers@.len() ==> (#[trigger] layers@[i]).wf(),
    ensures
        canvas_exists(design_size.0 as int, design_size.1 as int) && sound_design(
            design_size.0 as int,
            design_size.1 as int,
            entry_views(all_matches@),
        ) && !some_paste_fails(
            design_size.0 as int,
            design_size.1 as int,
            layers@,
            entry_views(all_matches@),
        ) ==> result is Ok,
        match reconstructed(
            design_size.0 as int,
            design_size.1 as int,
            entry_views(all_matches@),
            layers@,
        ) {
            Ok(after) => result matches Ok(out) && out.wf() && out@ == after,
            Err(e) => result == Err::<Picture, RenderError>(e),
        },
        box_count(entry_views(all_matches@)) == 0 ==> (result matches Ok(out) ==> out@ == white(
            design_size.1 as int,
            design_size.0 as int,
        )),
        result matches Ok(out) ==> out.rows == design_size.1 && out.cols == design_size.0,
{
    let (width, height): (i32, i32) = design_size;
    let mut canvas: Picture = match paste_components(width, height, all_matches, layers) {
        Ok(canvas) => canvas,
        Err(e) => {
            return Err(e);
        },
    };
    let svg: String = design_svg(width, height, all_matches);
    proof {
        let entries = entry_views(all_matches@);
        assert(svg@ == design_svg_text(width as int, height as int, entries));
        if box_count(entries) == 0 {
            lemma_blank_design(width, height, entries);
            lemma_nothing_pasted(white(height as int, width as int), layers@, entries);
        }
    }
    match draw_over(&mut canvas, svg.as_str()) {
        Ok(()) => Ok(canvas),
        Err(e) => Err(e),
    }
}

/// A box and a label to be drawn on a reconstructed design.
#[derive(Clone, Debug, PartialEq, Eq)]
pub struct Label {
    pub rect: Rect,
    pub color: Pixel,
    pub text: String,
    pub x: i32,
    pub y: i32,
}

/// A label with its text as a sequence of characters.
pub struct LabelView {
    pub rect: Rect,
    pub color: Pixel,
    pub text: Seq<char>,
    pub x: int,
    pub y: int,
}

impl View for Label {
    type V = LabelView;

    open spec fn view(&self) -> LabelView {
        LabelView {
            rect: self.rect,
            color: self.color,
            text: self.text@,
            x: self.x as int,
            y: self.y as int,
        }
    }
}

/// The text of a label: the short name of the component and the confidence.
pub open spec fn label_text(component: Seq<char>, p: PositionView) -> Seq<char> {
    without_png(component) + " ("@ + two_places(p.confidence) + ")"@
}

/// The label of a position.
pub open spec fn label_of(component: Seq<char>, color: Pixel, p: PositionView) -> LabelView {
    LabelView {
        rect: Rect { x: p.x, y: p.y, width: p.width, height: p.height },
        color,
        text: label_text(component, p),
        x: p.x as int,
        y: label_line(p, 20, 6, 16),
    }
}

/// The labels of one component.
pub open spec fn labels_of(component: Seq<char>, color: Pixel, positions: Seq<PositionView>) -> Seq<
    LabelView,
> {
    positions.map_values(|p: PositionView| label_of(component, color, p))
}

/// The labels of all components.
pub open spec fn all_labels(entries: Seq<EntryView>) -> Seq<LabelView>
    decreases entries.len(),
{
    if entries.len() == 0 {
        Seq::empty()
    } else {
        all_labels(entries.drop_last()) + labels_of(
            entries.last().component,
            palette(entries.len() - 1),
            entries.last().positions,
        )
    }
}

/// The views of a list of labels.
pub open spec fn label_views(labels: Seq<Label>) -> Seq<LabelView> {
    labels.map_values(|l: Label| l@)
}

/// The labels of all entries can be placed within the range of coordinates.
pub open spec fn design_labels_fit(entries: Seq<EntryView>) -> bool {
    forall|i: int, j: int|
        0 <= i < entries.len() && 0 <= j < entries[i].positions.len() ==> label_fits(
            #[trigger] entries[i].positions[j],
            20,
            16,
        )
}

fn make_label(component: &str, color: Pixel, p: &Position) -> (label: Label)
    requires
        label_fits(p@, 20, 16),
    ensures
        label@ == label_of(component@, color, p@),
{
    let mut text: String = short_name(component);
    text.append(" (");
    append_two_places(&mut text, p.confidence);
    text.append(")");
    Label {
        rect: Rect { x: p.x, y: p.y, width: p.width, height: p.height },
        color,
        text,
        x: p.x,
        y: label_y(p, 20, 6, 16),
    }
}

/// The boxes and labels to be drawn on a reconstructed design.
pub fn design_labels(all_matches: &Vec<MatchEntry>) -> (labels: Vec<Label>)
    requires
        design_labels_fit(entry_views(all_matches@)),
    ensures
        label_views(labels@) == all_labels(entry_views(all_matches@)),
{
    let mut labels: Vec<Label> = Vec::new();
    let ghost all = entry_views(all_matches@);
    let mut i: usize = 0;
    assert(label_views(labels@) =~= all_labels(all.take(0)));
    while i < all_matches.len()
        invariant
            all == entry_views(all_matches@),
            design_labels_fit(all),
            i <= all_matches.len(),
            label_views(labels@) == all_labels(all.take(i as int)),
        decreases all_matches.len() - i,
    {
        let entry: &MatchEntry = &all_matches[i];
        let color: Pixel = palette_color(i);
        let ghost positions = views(entry.positions@);
        let ghost before = label_views(labels@);
        assert(all[i as int] == entry@);
        let mut j: usize = 0;
        assert(label_views(labels@) =~= before + labels_of(
            entry.component@,
            color,
            positions.take(0),
        ));
        while j < entry.positions.len()
            invariant
                all == entry_views(all_matches@),
                design_labels_fit(all),
                0 <= i < all_matches.len(),
                all[i as int] == entry@,
                positions == views(entry.positions@),
                j <= entry.positions.len(),
                label_views(labels@) == before + labels_of(
                    entry.component@,
                    color,
                    positions.take(j as int),
                ),
            decreases entry.positions.len() - j,
        {
            assert(positions[j as int] == entry.positions@[j as int]@);
            assert(label_fits(all[i as int].positions[j as int], 20, 16));
            let ghost had = labels@;
            labels.push(make_label(entry.component.as_str(), color, &entry.positions[j]));
            proof {
                assert(label_views(labels@) =~= label_views(had).push(labels@.last()@));
                assert(positions.take(j + 1) =~= positions.take(j as int).push(positions[j as int]));
                assert(label_views(labels@) =~= before + labels_of(
                    entry.component@,
                    color,
                    positions.take(j + 1),
                ));
            }
            j = j + 1;
        }
        proof {
            assert(positions.take(j as int) =~= positions);
            assert(all.take(i + 1).drop_last() =~= all.take(i as int));
        }
        i = i + 1;
    }
    assert(all.take(i as int) =~= all);
    labels
}

/// What a canvas shows once a layer is pasted: the layer's own color where it is
/// fully opaque or has no alpha values, and what was there before where it is
/// transparent or does not reach.
#[verifier::spinoff_prover]
#[verifier::rlimit(40)]
pub proof fn law_pasting(canvas: Grid, layer: &Layer, p: PositionView, r: int, c: int)
    requires
        canvas.wf(),
        canvas.at(r, c) is Some,
    ensures
        ({
            let (x, y, w, h) = target(canvas.cols, canvas.rows, layer, p);
            let inside = on_grid(h, w, r - y, c - x) && layer.colors.readable();
            &&& !inside ==> pasted(canvas, layer, p).at(r, c) == canvas.at(r, c)
            &&& inside && (layer.alpha is None || layer_alpha(&layer.alpha->0, r - y, c - x) == 255)
                ==> pasted(canvas, layer, p).at(r, c) == Some(layer.colors.at(r - y, c - x)->0)
            &&& inside && layer.alpha is Some && layer_alpha(&layer.alpha->0, r - y, c - x) == 0
                ==> pasted(canvas, layer, p).at(r, c) == canvas.at(r, c)
        }),
{
    let over = |r: int, c: int, under: Pixel|
        pasted_pixel(canvas.cols, canvas.rows, layer, p, r, c, under);
    lemma_repainted(canvas, over);
    assert(pasted(canvas, layer, p) == canvas.repainted(over));
    let under = canvas.at(r, c)->0;
    assert(pasted(canvas, layer, p).at(r, c) == Some(over(r, c, under)));
    let (x, y, w, h) = target(canvas.cols, canvas.rows, layer, p);
    let top = layer.colors.at(r - y, c - x)->0;
    law_blending_ends(top.b, under.b);
    law_blending_ends(top.g, under.g);
    law_blending_ends(top.r, under.r);
}

/// Whether a layer that is pasted at a position reaches a cell.
pub open spec fn reaches(canvas: Grid, layer: &Layer, p: PositionView, r: int, c: int) -> bool {
    let (x, y, w, h) = target(canvas.cols, canvas.rows, layer, p);
    on_grid(h, w, r - y, c - x)
}

proof fn lemma_pasted_shape(canvas: Grid, layer: &Layer, p: PositionView)
    requires
        canvas.wf(),
    ensures
        pasted(canvas, layer, p).wf(),
        pasted(canvas, layer, p).rows == canvas.rows,
        pasted(canvas, layer, p).cols == canvas.cols,
        pasted(canvas, layer, p).readable() == canvas.readable(),
{
    let over = |r: int, c: int, under: Pixel|
        pasted_pixel(canvas.cols, canvas.rows, layer, p, r, c, under);
    lemma_repainted(canvas, over);
    assert(pasted(canvas, layer, p) == canvas.repainted(over));
}

proof fn lemma_not_reached(canvas: Grid, layer: &Layer, positions: Seq<PositionView>, r: int, c: int)
    requires
        canvas.wf(),
        canvas.at(r, c) is Some,
        forall|j: int|
            0 <= j < positions.len() ==> !reaches(canvas, layer, #[trigger] positions[j], r, c),
    ensures
        pasted_at_all(canvas, layer, positions).wf(),
        pasted_at_all(canvas, layer, positions).rows == canvas.rows,
        pasted_at_all(canvas, layer, positions).cols == canvas.cols,
        pasted_at_all(canvas, layer, positions).at(r, c) == canvas.at(r, c),
    decreases positions.len(),
{
    if positions.len() > 0 {
        let few = positions.drop_last();
        assert forall|j: int| 0 <= j < few.len() implies !reaches(
            canvas,
            layer,
            #[trigger] few[j],
            r,
            c,
        ) by {
            assert(few[j] == positions[j]);
        }
        lemma_not_reached(canvas, layer, few, r, c);
        let before = pasted_at_all(canvas, layer, few);
        lemma_pasted_shape(before, layer, positions.last());
        assert(!reaches(canvas, layer, positions[positions.len() - 1], r, c));
        law_pasting(before, layer, positions.last(), r, c);
    }
}

/// Where no component was found, the canvas stays as it was.
pub proof fn law_unreached_stays(
    canvas: Grid,
    layers: Seq<Layer>,
    entries: Seq<EntryView>,
    r: int,
    c: int,
)
    requires
        canvas.wf(),
        canvas.at(r, c) is Some,
        layers.len() >= entries.len(),
        forall|i: int, j: int|
            0 <= i < entries.len() && 0 <= j < entries[i].positions.len() ==> !#[trigger] reaches(
                canvas,
                &layers[i],
                entries[i].positions[j],
                r,
                c,
            ),
    ensures
        all_pasted(canvas, layers, entries).wf(),
        all_pasted(canvas, layers, entries).rows == canvas.rows,
        all_pasted(canvas, layers, entries).cols == canvas.cols,
        all_pasted(canvas, layers, entries).at(r, c) == canvas.at(r, c),
    decreases entries.len(),
{
    if entries.len() > 0 {
        let few = entries.drop_last();
        let n = entries.len() - 1;
        assert forall|i: int, j: int|
            0 <= i < few.len() && 0 <= j < few[i].positions.len() implies !#[trigger] reaches(
            canvas,
            &layers[i],
            few[i].positions[j],
            r,
            c,
        ) by {
            assert(few[i] == entries[i]);
        }
        law_unreached_stays(canvas, layers, few, r, c);
        let before = all_pasted(canvas, layers, few);
        let positions = entries[n].positions;
        assert forall|j: int| 0 <= j < positions.len() implies !reaches(
            before,
            &layers[n],
            #[trigger] positions[j],
            r,
            c,
        ) by {
            assert(!reaches(canvas, &layers[n], entries[n].positions[j], r, c));
        }
        lemma_not_reached(before, &layers[n], positions, r, c);
    }
}

/// The canvas is white to begin with.
pub proof fn law_canvas_is_white(rows: int, cols: int, r: int, c: int)
    requires
        on_grid(rows, cols, r, c),
    ensures
        white(rows, cols).wf(),
        white(rows, cols).at(r, c) == Some(Pixel { b: 255, g: 255, r: 255 }),
{
    crate::picture::lemma_cell(rows, cols, r, c);
}

/// Whether a layer at a position, laid on a pixel that a canvas shows in a cell,
/// gives another pixel. The top left corner of the layer is put at the position,
/// or at the edge of the canvas where the position lies before it. What the layer
/// does not reach stays, and so does what it is transparent over; what it is
/// opaque over takes its color, and anything else becomes the weighed mean of the
/// two, each channel for itself.
pub open spec fn laid_on(layer: &Layer, p: PositionView, r: int, c: int, under: Pixel, q: Pixel) -> bool {
    let row = if p.y >= 0 { r - p.y } else { r };
    let col = if p.x >= 0 { c - p.x } else { c };
    match layer.colors.at(row, col) {
        Some(top) => match layer.alpha {
            Some(mask) => match mask.at(row, col) {
                Some(a) => {
                    &&& a == 0 ==> q == under
                    &&& a == 255 ==> q == top
                    &&& weighed(q.b, top.b, under.b, a)
                    &&& weighed(q.g, top.g, under.g, a)
                    &&& weighed(q.r, top.r, under.r, a)
                },
                None => q == under,
            },
            None => q == top,
        },
        None => q == under,
    }
}

/// Pasting lays the layer on what the canvas showed before, in every cell.
#[verifier::spinoff_prover]
#[verifier::rlimit(40)]
pub proof fn law_pasting_lays_on(canvas: Grid, layer: &Layer, p: PositionView, r: int, c: int)
    requires
        canvas.wf(),
        canvas.at(r, c) is Some,
    ensures
        pasted(canvas, layer, p).at(r, c) is Some,
        laid_on(layer, p, r, c, canvas.at(r, c)->0, pasted(canvas, layer, p).at(r, c)->0),
{
    let over = |r: int, c: int, under: Pixel|
        pasted_pixel(canvas.cols, canvas.rows, layer, p, r, c, under);
    lemma_repainted(canvas, over);
    assert(pasted(canvas, layer, p) == canvas.repainted(over));
    let under = canvas.at(r, c)->0;
    assert(pasted(canvas, layer, p).at(r, c) == Some(over(r, c, under)));
    let (x, y, w, h) = target(canvas.cols, canvas.rows, layer, p);
    let top = layer.colors.at(r - y, c - x)->0;
    law_blending_ends(top.b, under.b);
    law_blending_ends(top.g, under.g);
    law_blending_ends(top.r, under.r);
    if layer.alpha is Some {
        let a = layer_alpha(&layer.alpha->0, r - y, c - x);
        law_blending_weighs(top.b, under.b, a);
        law_blending_weighs(top.g, under.g, a);
        law_blending_weighs(top.r, under.r, a);
    }
}

/// The entries without the last position of the last one.
pub open spec fn without_last_position(entries: Seq<EntryView>) -> Seq<EntryView> {
    let last = entries.last();
    entries.drop_last().push(
        EntryView {
            component: last.component,
            count: last.count,
            positions: last.positions.drop_last(),
        },
    )
}

proof fn lemma_pasted_at_all_shape(canvas: Grid, layer: &Layer, positions: Seq<PositionView>)
    requires
        canvas.wf(),
    ensures
        pasted_at_all(canvas, layer, positions).wf(),
        pasted_at_all(canvas, layer, positions).rows == canvas.rows,
        pasted_at_all(canvas, layer, positions).cols == canvas.cols,
        pasted_at_all(canvas, layer, positions).readable() == canvas.readable(),
    decreases positions.len(),
{
    if positions.len() > 0 {
        let few = positions.drop_last();
        lemma_pasted_at_all_shape(canvas, layer, few);
        lemma_pasted_shape(pasted_at_all(canvas, layer, few), layer, positions.last());
    }
}

/// Pasting keeps the size of the canvas.
pub proof fn law_pasting_keeps_size(canvas: Grid, layers: Seq<Layer>, entries: Seq<EntryView>)
    requires
        canvas.wf(),
    ensures
        all_pasted(canvas, layers, entries).wf(),
        all_pasted(canvas, layers, entries).rows == canvas.rows,
        all_pasted(canvas, layers, entries).cols == canvas.cols,
        all_pasted(canvas, layers, entries).readable() == canvas.readable(),
    decreases entries.len(),
{
    if entries.len() > 0 {
        let few = entries.drop_last();
        law_pasting_keeps_size(canvas, layers, few);
        lemma_pasted_at_all_shape(
            all_pasted(canvas, layers, few),
            &layers[entries.len() - 1],
            entries.last().positions,
        );
    }
}

/// Components are pasted in the order of their entries, and each entry at its
/// positions in order: the last position is laid on what all the others gave.
pub proof fn law_last_position_on_top(
    canvas: Grid,
    layers: Seq<Layer>,
    entries: Seq<EntryView>,
    r: int,
    c: int,
)
    requires
        canvas.wf(),
        canvas.at(r, c) is Some,
        entries.len() > 0,
        entries.last().positions.len() > 0,
    ensures
        all_pasted(canvas, layers, entries).at(r, c) is Some,
        all_pasted(canvas, layers, without_last_position(entries)).at(r, c) is Some,
        laid_on(
            &layers[entries.len() - 1],
            entries.last().positions.last(),
            r,
            c,
            all_pasted(canvas, layers, without_last_position(entries)).at(r, c)->0,
            all_pasted(canvas, layers, entries).at(r, c)->0,
        ),
{
    let fewer = without_last_position(entries);
    let n = entries.len() - 1;
    assert(fewer.drop_last() =~= entries.drop_last());
    law_pasting_keeps_size(canvas, layers, fewer);
    law_pasting_lays_on(
        all_pasted(canvas, layers, fewer),
        &layers[n],
        entries.last().positions.last(),
        r,
        c,
    );
}

/// An entry without positions is not pasted anywhere, and without entries the
/// canvas stays as it was.
pub proof fn law_nothing_to_paste(canvas: Grid, layers: Seq<Layer>, entries: Seq<EntryView>)
    ensures
        entries.len() == 0 ==> all_pasted(canvas, layers, entries) == canvas,
        entries.len() > 0 && entries.last().positions.len() == 0 ==> all_pasted(
            canvas,
            layers,
            entries,
        ) == all_pasted(canvas, layers, entries.drop_last()),
{
}

/// A design that is put together again shows in every cell what was pasted there,
/// under the drawing of the boxes.
pub proof fn law_boxes_on_top(
    width: int,
    height: int,
    entries: Seq<EntryView>,
    layers: Seq<Layer>,
    r: int,
    c: int,
)
    requires
        reconstructed(width, height, entries, layers) is Ok,
        on_grid(height, width, r, c),
    ensures
        ({
            let out = reconstructed(width, height, entries, layers)->Ok_0;
            let canvas = all_pasted(white(height, width), layers, entries);
            &&& out.wf()
            &&& out.rows == height
            &&& out.cols == width
            &&& canvas.at(r, c) is Some
            &&& out.at(r, c) is Some
            &&& drawn_on(
                drawing_of(design_svg_text(width, height, entries), width, height),
                4 * (r * width + c),
                canvas.at(r, c)->0,
                out.at(r, c)->0,
            )
        }),
{
    let canvas = all_pasted(white(height, width), layers, entries);
    law_canvas_is_white(height, width, r, c);
    law_pasting_keeps_size(white(height, width), layers, entries);
    law_overlay_weighs(
        canvas,
        drawing_of(design_svg_text(width, height, entries), width, height),
        r,
        c,
    );
}

/// One more position of the last entry adds one more label at the end: on a box of
/// the place and size of the position, in the color that belongs to the number of
/// the entry, with the name less its ending and the confidence, just above the box
/// where there is room for it, and below it otherwise.
pub proof fn law_label_is_added(entries: Seq<EntryView>, entry: EntryView, p: PositionView)
    ensures
        all_labels(Seq::empty()) == Seq::<LabelView>::empty(),
        entry.positions.len() == 0 ==> all_labels(entries.push(entry)) == all_labels(entries),
        ({
            let more = EntryView {
                component: entry.component,
                count: entry.count,
                positions: entry.positions.push(p),
            };
            all_labels(entries.push(more)) == all_labels(entries.push(entry)).push(
                LabelView {
                    rect: Rect { x: p.x, y: p.y, width: p.width, height: p.height },
                    color: palette(entries.len() as int),
                    text: without_png(entry.component) + " ("@ + two_places(p.confidence) + ")"@,
                    x: p.x as int,
                    y: if p.y >= 20 { p.y - 6 } else { p.y + p.height + 16 },
                },
            )
        }),
{
    let more = EntryView {
        component: entry.component,
        count: entry.count,
        positions: entry.positions.push(p),
    };
    let color = palette(entries.len() as int);
    assert(entries.push(entry).drop_last() =~= entries);
    assert(entries.push(more).drop_last() =~= entries);
    assert(labels_of(entry.component, color, more.positions) =~= labels_of(
        entry.component,
        color,
        entry.positions,
    ).push(label_of(entry.component, color, p)));
    assert(all_labels(entries.push(more)) =~= all_labels(entries.push(entry)).push(
        label_of(entry.component, color, p),
    ));
    if entry.positions.len() == 0 {
        assert(all_labels(entries.push(entry)) =~= all_labels(entries));
    }
}

/// Whether a layer at a position would have to be read in a cell although it
/// cannot be: it reaches the cell, and its alpha value there is above zero.
pub open spec fn unreadable_in(layer: &Layer, p: PositionView, r: int, c: int) -> bool {
    let row = if p.y >= 0 { r - p.y } else { r };
    let col = if p.x >= 0 { c - p.x } else { c };
    &&& layer.colors.pixels is None
    &&& 0 <= row < layer.colors.rows
    &&& 0 <= col < layer.colors.cols
    &&& layer.alpha is Some
    &&& layer.alpha->0.at(row, col) is Some
    &&& layer.alpha->0.at(row, col)->0 > 0
}

/// Pasting fails exactly where a layer would have to be read in some cell of the
/// canvas although it cannot be.
pub proof fn law_pasting_fails(
    width: int,
    height: int,
    layers: Seq<Layer>,
    entries: Seq<EntryView>,
)
    ensures
        some_paste_fails(width, height, layers, entries) <==> exists|i: int, j: int, r: int, c: int|
            0 <= i < entries.len() && 0 <= j < entries[i].positions.len() && 0 <= r < height && 0
                <= c < width && #[trigger] unreadable_in(
                &layers[i],
                entries[i].positions[j],
                r,
                c,
            ),
{
    if some_paste_fails(width, height, layers, entries) {
        let (i, j) = choose|i: int, j: int|
            0 <= i < entries.len() && 0 <= j < entries[i].positions.len() && #[trigger] paste_fails(
                width,
                height,
                &layers[i],
                entries[i].positions[j],
            );
        let (layer, p) = (&layers[i], entries[i].positions[j]);
        let (x, y, w, h) = target(width, height, layer, p);
        let (r, c) = choose|r: int, c: int|
            on_grid(h, w, r, c) && #[trigger] layer_alpha(&layer.alpha->0, r, c) > 0;
        assert(unreadable_in(layer, p, y + r, x + c));
    }
    if exists|i: int, j: int, r: int, c: int|
        0 <= i < entries.len() && 0 <= j < entries[i].positions.len() && 0 <= r < height && 0 <= c
            < width && #[trigger] unreadable_in(&layers[i], entries[i].positions[j], r, c) {
        let (i, j, r, c) = choose|i: int, j: int, r: int, c: int|
            0 <= i < entries.len() && 0 <= j < entries[i].positions.len() && 0 <= r < height && 0
                <= c < width && #[trigger] unreadable_in(
                &layers[i],
                entries[i].positions[j],
                r,
                c,
            );
        let (layer, p) = (&layers[i], entries[i].positions[j]);
        let (x, y, w, h) = target(width, height, layer, p);
        assert(on_grid(h, w, r - y, c - x));
        assert(layer_alpha(&layer.alpha->0, r - y, c - x) > 0);
        assert(paste_fails(width, height, layer, p));
    }
}

/// A design is put together again unless some layer cannot be read where it has to
/// be, the drawing of the boxes is not accepted, or there is no canvas of its size.
pub proof fn law_reconstruction_fails(
    width: int,
    height: int,
    entries: Seq<EntryView>,
    layers: Seq<Layer>,
)
    requires
        0 <= width,
        0 <= height,
    ensures
        ({
            let result = reconstructed(width, height, entries, layers);
            let unreadable = some_paste_fails(width, height, layers, entries);
            let accepted = well_formed_svg(design_svg_text(width, height, entries));
            &&& result is Ok <==> !unreadable && accepted && canvas_exists(width, height)
            &&& result == Err::<Grid, RenderError>(RenderError::Unreadable) <==> unreadable
            &&& result == Err::<Grid, RenderError>(RenderError::BadSvg) <==> !unreadable
                && !accepted
            &&& result == Err::<Grid, RenderError>(RenderError::BadSize) <==> !unreadable && accepted
                && !canvas_exists(width, height)
        }),
{
    assert(0 <= height * width) by (nonlinear_arith)
        requires
            0 <= width,
            0 <= height,
    ;
    assert(white(height, width).wf());
    law_pasting_keeps_size(white(height, width), layers, entries);
}

/// What pasting makes of a canvas lies, in each channel of each cell, between what
/// the canvas showed there before and what the layer shows, up to the cut to a
/// whole number; so a layer of the color that is already there leaves it.
pub proof fn law_pasting_lies_between(
    canvas: Grid,
    layer: &Layer,
    p: PositionView,
    r: int,
    c: int,
    lo: Pixel,
    hi: Pixel,
)
    requires
        canvas.wf(),
        canvas.at(r, c) is Some,
        ({
            let under = canvas.at(r, c)->0;
            &&& lo.b <= under.b <= hi.b
            &&& lo.g <= under.g <= hi.g
            &&& lo.r <= under.r <= hi.r
        }),
        forall|s: int, d: int|
            (#[trigger] layer.colors.at(s, d)) is Some ==> {
                let top = layer.colors.at(s, d)->0;
                &&& lo.b <= top.b <= hi.b
                &&& lo.g <= top.g <= hi.g
                &&& lo.r <= top.r <= hi.r
            },
    ensures
        pasted(canvas, layer, p).at(r, c) is Some,
        ({
            let q = pasted(canvas, layer, p).at(r, c)->0;
            &&& lo.b - 1 <= q.b <= hi.b
            &&& lo.g - 1 <= q.g <= hi.g
            &&& lo.r - 1 <= q.r <= hi.r
        }),
{
    law_pasting_lays_on(canvas, layer, p, r, c);
    let under = canvas.at(r, c)->0;
    let q = pasted(canvas, layer, p).at(r, c)->0;
    let row = if p.y >= 0 { r - p.y } else { r };
    let col = if p.x >= 0 { c - p.x } else { c };
    if let Some(top) = layer.colors.at(row, col) {
        if let Some(mask) = layer.alpha {
            if let Some(a) = mask.at(row, col) {
                law_weighed_lies_between(q.b, top.b, under.b, a, lo.b, hi.b);
                law_weighed_lies_between(q.g, top.g, under.g, a, lo.g, hi.g);
                law_weighed_lies_between(q.r, top.r, under.r, a, lo.r, hi.r);
            }
        }
    }
}

} // verus!
