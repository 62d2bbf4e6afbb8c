//! The drawings that are laid over pictures, as SVG text.
use crate::descent::{views, Position, PositionView};
use crate::entry::{entry_views, EntryView, MatchEntry};
use crate::overlap::fits_i32;
use crate::picture::Pixel;
use crate::text::{
    append_hex, append_signed, append_two_places, hex_byte, hex_value, law_hex_reads_back,
    same_text, signed_decimal, two_places,
};
use vstd::prelude::*;
use vstd::string::*;

verus! {

/// The start of a drawing of the given size.
pub open spec fn svg_start(width: int, height: int) -> Seq<char> {
    "<svg width=\""@ + signed_decimal(width) + "\" height=\""@ + signed_decimal(height)
        + "\" xmlns=\"http://www.w3.org/2000/svg\">"@
}

/// The place and size of a rectangle.
pub open spec fn rect_start(p: PositionView) -> Seq<char> {
    "<rect x=\""@ + signed_decimal(p.x as int) + "\" y=\""@ + signed_decimal(p.y as int)
        + "\" width=\""@ + signed_decimal(p.width as int) + "\" height=\""@ + signed_decimal(
        p.height as int,
    ) + "\" fill=\""@
}

/// The colors of a mark: its fill, its outline and its text.
pub open spec fn mark_colors(trust: Seq<char>) -> (Seq<char>, Seq<char>, Seq<char>) {
    if trust == "high"@ {
        ("rgba(0,200,0,0.25)"@, "rgb(0,180,0)"@, "rgb(0,140,0)"@)
    } else if trust == "medium"@ {
        ("rgba(200,200,0,0.25)"@, "rgb(180,180,0)"@, "rgb(140,140,0)"@)
    } else {
        ("rgba(200,0,0,0.25)"@, "rgb(180,0,0)"@, "rgb(140,0,0)"@)
    }
}

/// Where the label of a rectangle stands: just above it, or below it where
/// there is less than `room` above.
pub open spec fn label_line(p: PositionView, room: int, above: int, below: int) -> int {
    if p.y >= room {
        p.y - above
    } else {
        p.y + p.height + below
    }
}

/// Where the label of a mark stands.
pub open spec fn mark_label_y(p: PositionView) -> int {
    label_line(p, 16, 4, 14)
}

/// A rectangle in the colors of its trust.
pub open spec fn mark_box(p: PositionView) -> Seq<char> {
    rect_start(p) + mark_colors(p.trust).0 + "\" stroke=\""@ + mark_colors(p.trust).1
        + "\" stroke-width=\"2\"/>"@
}

/// The label of a mark: the name of the component and the confidence.
pub open spec fn mark_label(p: PositionView, name: Seq<char>) -> Seq<char> {
    "<text x=\""@ + signed_decimal(p.x as int) + "\" y=\""@ + signed_decimal(mark_label_y(p))
        + "\" font-size=\"13\" font-family=\"sans-serif\" fill=\""@ + mark_colors(p.trust).2
        + "\">"@ + name + " conf:"@ + two_places(p.confidence) + "</text>"@
}

/// The marks of a list of positions.
pub open spec fn marks(positions: Seq<PositionView>, name: Seq<char>) -> Seq<char>
    decreases positions.len(),
{
    if positions.len() == 0 {
        Seq::empty()
    } else {
        marks(positions.drop_last(), name) + mark_box(positions.last()) + mark_label(
            positions.last(),
            name,
        )
    }
}

/// The drawing that marks the positions of one component.
pub open spec fn mask_svg_text(
    width: int,
    height: int,
    positions: Seq<PositionView>,
    name: Seq<char>,
) -> Seq<char> {
    svg_start(width, height) + marks(positions, name) + "</svg>"@
}

/// Whether a name brings no markup of its own into a drawing.
pub open spec fn markup_free(name: Seq<char>) -> bool {
    !name.contains('<')
}

/// Whether a name stands in a drawing as it is: it holds no character that XML
/// gives a meaning to or refuses.
pub open spec fn plain_name(name: Seq<char>) -> bool {
    forall|i: int|
        0 <= i < name.len() ==> {
            let c = #[trigger] name[i] as int;
            c >= 0x20 && name[i] != '<' && name[i] != '>' && name[i] != '&' && c != 0xfffe && c
                != 0xffff
        }
}

/// The label of a rectangle can be placed within the range of coordinates.
pub open spec fn label_fits(p: PositionView, room: int, below: int) -> bool {
    p.y >= room || (fits_i32(p.y + p.height) && fits_i32(p.y + p.height + below))
}

/// The labels of all marks can be placed within the range of coordinates.
pub open spec fn mark_labels_fit(positions: Seq<PositionView>) -> bool {
    forall|i: int| 0 <= i < positions.len() ==> label_fits(#[trigger] positions[i], 16, 14)
}

fn append_svg_start(svg: &mut String, width: i32, height: i32)
    ensures
        final(svg)@ == old(svg)@ + svg_start(width as int, height as int),
{
    let ghost was = svg@;
    svg.append("<svg width=\"");
    append_signed(svg, width);
    svg.append("\" height=\"");
    append_signed(svg, height);
    svg.append("\" xmlns=\"http://www.w3.org/2000/svg\">");
    assert(svg@ =~= was + svg_start(width as int, height as int));
}

fn append_rect_start(svg: &mut String, p: &Position)
    ensures
        final(svg)@ == old(svg)@ + rect_start(p@),
{
    let ghost was = svg@;
    svg.append("<rect x=\"");
    append_signed(svg, p.x);
    svg.append("\" y=\"");
    append_signed(svg, p.y);
    svg.append("\" width=\"");
    append_signed(svg, p.width);
    svg.append("\" height=\"");
    append_signed(svg, p.height);
    svg.append("\" fill=\"");
    assert(svg@ =~= was + rect_start(p@));
}

/// Where the label of a rectangle stands.
pub(crate) fn label_y(p: &Position, room: i32, above: i32, below: i32) -> (y: i32)
    requires
        label_fits(p@, room as int, below as int),
        0 <= above <= room,
    ensures
        y == label_line(p@, room as int, above as int, below as int),
{
    if p.y >= room {
        p.y - above
    } else {
        p.y + p.height + below
    }
}

fn append_mark_box(svg: &mut String, p: &Position)
    ensures
        final(svg)@ == old(svg)@ + mark_box(p@),
{
    let high: bool = same_text(&p.trust, "high");
    let medium: bool = same_text(&p.trust, "medium");
    let fill: &str = if high {
        "rgba(0,200,0,0.25)"
    } else if medium {
        "rgba(200,200,0,0.25)"
    } else {
        "rgba(200,0,0,0.25)"
    };
    let stroke: &str = if high {
        "rgb(0,180,0)"
    } else if medium {
        "rgb(180,180,0)"
    } else {
        "rgb(180,0,0)"
    };
    let ghost was = svg@;
    append_rect_start(svg, p);
    svg.append(fill);
    svg.append("\" stroke=\"");
    svg.append(stroke);
    svg.append("\" stroke-width=\"2\"/>");
    assert(svg@ =~= was + mark_box(p@));
}

fn append_mark_label(svg: &mut String, p: &Position, name: &str)
    requires
        label_fits(p@, 16, 14),
    ensures
        final(svg)@ == old(svg)@ + mark_label(p@, name@),
{
    let ink: &str = if same_text(&p.trust, "high") {
        "rgb(0,140,0)"
    } else if same_text(&p.trust, "medium") {
        "rgb(140,140,0)"
    } else {
        "rgb(140,0,0)"
    };
    let ghost was = svg@;
    svg.append("<text x=\"");
    append_signed(svg, p.x);
    svg.append("\" y=\"");
    append_signed(svg, label_y(p, 16, 4, 14));
    svg.append("\" font-size=\"13\" font-family=\"sans-serif\" fill=\"");
    svg.append(ink);
    svg.append("\">");
    svg.append(name);
    svg.append(" conf:");
    append_two_places(svg, p.confidence);
    svg.append("</text>");
    assert(svg@ =~= was + mark_label(p@, name@));
}

/// The drawing that marks the positions of one component.
pub fn mask_svg(width: i32, height: i32, positions: &Vec<Position>, name: &str) -> (svg: String)
    requires
        mark_labels_fit(views(positions@)),
    ensures
        svg@ == mask_svg_text(width as int, height as int, views(positions@), name@),
{
    let mut svg: String = String::new();
    append_svg_start(&mut svg, width, height);
    let ghost all = views(positions@);
    let ghost start = svg@;
    let mut i: usize = 0;
    assert(svg@ =~= start + marks(all.take(0), name@));
    while i < positions.len()
        invariant
            all == views(positions@),
            mark_labels_fit(all),
            i <= positions.len(),
            svg@ == start + marks(all.take(i as int), name@),
        decreases positions.len() - i,
    {
        assert(all[i as int] == positions@[i as int]@);
        append_mark_box(&mut svg, &positions[i]);
        append_mark_label(&mut svg, &positions[i], name);
        proof {
            assert(all.take(i + 1).drop_last() =~= all.take(i as int));
            assert(svg@ =~= start + marks(all.take(i + 1), name@));
        }
        i = i + 1;
    }
    svg.append("</svg>");
    assert(all.take(i as int) =~= all);
    assert(start =~= svg_start(width as int, height as int));
    svg
}

/// The color of the boxes of the component with the given number.
pub open spec fn palette(i: int) -> Pixel {
    seq![
        Pixel { b: 203, g: 67, r: 53 },
        Pixel { b: 46, g: 204, r: 113 },
        Pixel { b: 219, g: 152, r: 52 },
        Pixel { b: 18, g: 156, r: 243 },
        Pixel { b: 160, g: 68, r: 155 },
        Pixel { b: 156, g: 188, r: 26 },
        Pixel { b: 34, g: 126, r: 230 },
        Pixel { b: 165, g: 111, r: 41 },
    ][i % 8]
}

/// The color of the boxes of the component with the given number.
pub fn palette_color(i: usize) -> (color: Pixel)
    ensures
        color == palette(i as int),
{
    match i % 8 {
        0 => Pixel { b: 203, g: 67, r: 53 },
        1 => Pixel { b: 46, g: 204, r: 113 },
        2 => Pixel { b: 219, g: 152, r: 52 },
        3 => Pixel { b: 18, g: 156, r: 243 },
        4 => Pixel { b: 160, g: 68, r: 155 },
        5 => Pixel { b: 156, g: 188, r: 26 },
        6 => Pixel { b: 34, g: 126, r: 230 },
        _ => Pixel { b: 165, g: 111, r: 41 },
    }
}

/// A color as it is written in a drawing.
pub open spec fn color_text(p: Pixel) -> Seq<char> {
    "#"@ + hex_byte(p.r) + hex_byte(p.g) + hex_byte(p.b)
}

/// A faint box over a position.
pub open spec fn faint_box(p: PositionView, color: Pixel) -> Seq<char> {
    rect_start(p) + color_text(color) + "\" fill-opacity=\"0.15\"/>"@
}

/// Faint boxes over the positions of one component.
pub open spec fn faint_boxes(positions: Seq<PositionView>, color: Pixel) -> Seq<char>
    decreases positions.len(),
{
    if positions.len() == 0 {
        Seq::empty()
    } else {
        faint_boxes(positions.drop_last(), color) + faint_box(positions.last(), color)
    }
}

/// Faint boxes over the positions of all components.
pub open spec fn all_faint_boxes(entries: Seq<EntryView>) -> Seq<char>
    decreases entries.len(),
{
    if entries.len() == 0 {
        Seq::empty()
    } else {
        all_faint_boxes(entries.drop_last()) + faint_boxes(
            entries.last().positions,
            palette(entries.len() - 1),
        )
    }
}

/// The drawing that is laid over a reconstructed design.
pub open spec fn design_svg_text(width: int, height: int, entries: Seq<EntryView>) -> Seq<char> {
    svg_start(width, height) + all_faint_boxes(entries) + "</svg>"@
}

/// The number of boxes in the drawing that is laid over a reconstructed design.
pub open spec fn box_count(entries: Seq<EntryView>) -> nat
    decreases entries.len(),
{
    if entries.len() == 0 {
        0
    } else {
        box_count(entries.drop_last()) + entries.last().positions.len()
    }
}

/// Whether no box starts farther above the canvas than drawing can count.
pub open spec fn boxes_in_reach(positions: Seq<PositionView>) -> bool {
    forall|i: int| 0 <= i < positions.len() ==> (#[trigger] positions[i]).y >= -100_000_000
}

/// Whether no box of any entry starts farther above the canvas than drawing can
/// count.
pub open spec fn all_boxes_in_reach(entries: Seq<EntryView>) -> bool {
    forall|i: int| 0 <= i < entries.len() ==> boxes_in_reach((#[trigger] entries[i]).positions)
}

/// Whether a text is a drawing that this module makes, with its boxes in reach,
/// and under a name without markup of its own.
pub open spec fn own_drawing(svg: Seq<char>) -> bool {
    ||| exists|width: i32, height: i32, entries: Seq<EntryView>|
        svg == #[trigger] design_svg_text(width as int, height as int, entries)
            && all_boxes_in_reach(entries)
    ||| exists|width: i32, height: i32, positions: Seq<PositionView>, name: Seq<char>|
        svg == #[trigger] mask_svg_text(width as int, height as int, positions, name)
            && boxes_in_reach(positions) && markup_free(name)
}

/// A drawing without anything in it.
pub open spec fn blank_svg_text(width: int, height: int) -> Seq<char> {
    svg_start(width, height) + "</svg>"@
}

/// Whether a text is a drawing without anything in it.
pub open spec fn blank_drawing(svg: Seq<char>) -> bool {
    exists|width: i32, height: i32|
        svg == #[trigger] blank_svg_text(width as int, height as int)
}

/// Marks for no positions are a blank drawing.
pub proof fn lemma_blank_mask(width: i32, height: i32, name: Seq<char>)
    ensures
        blank_drawing(mask_svg_text(width as int, height as int, Seq::empty(), name)),
{
    let none = Seq::<PositionView>::empty();
    assert(mask_svg_text(width as int, height as int, none, name) =~= blank_svg_text(
        width as int,
        height as int,
    ));
}

proof fn lemma_no_boxes(entries: Seq<EntryView>)
    requires
        box_count(entries) == 0,
    ensures
        all_faint_boxes(entries) == Seq::<char>::empty(),
    decreases entries.len(),
{
    if entries.len() > 0 {
        lemma_no_boxes(entries.drop_last());
        assert(faint_boxes(entries.last().positions, palette(entries.len() - 1)) =~= Seq::empty());
        assert(all_faint_boxes(entries) =~= Seq::empty());
    }
}

/// Boxes for no positions are a blank drawing.
pub proof fn lemma_blank_design(width: i32, height: i32, entries: Seq<EntryView>)
    requires
        box_count(entries) == 0,
    ensures
        blank_drawing(design_svg_text(width as int, height as int, entries)),
{
    lemma_no_boxes(entries);
    assert(design_svg_text(width as int, height as int, entries) =~= blank_svg_text(
        width as int,
        height as int,
    ));
}

/// Whether a text is a drawing that this module makes, with sides above zero, a
/// plain name and no more elements than a drawing may have.
pub open spec fn sound_drawing(svg: Seq<char>) -> bool {
    ||| exists|width: i32, height: i32, entries: Seq<EntryView>|
        svg == #[trigger] design_svg_text(width as int, height as int, entries) && sound_design(
            width as int,
            height as int,
            entries,
        )
    ||| exists|width: i32, height: i32, positions: Seq<PositionView>, name: Seq<char>|
        svg == #[trigger] mask_svg_text(width as int, height as int, positions, name) && sound_mask(
            width as int,
            height as int,
            positions,
            name,
        )
}

/// Whether the drawing over a reconstructed design has sides above zero and no
/// more elements than a drawing may have.
pub open spec fn sound_design(width: int, height: int, entries: Seq<EntryView>) -> bool {
    width > 0 && height > 0 && box_count(entries) <= 300_000
}

/// Whether the drawing that marks a component has sides above zero, a plain name
/// and no more elements than a drawing may have.
pub open spec fn sound_mask(
    width: int,
    height: int,
    positions: Seq<PositionView>,
    name: Seq<char>,
) -> bool {
    width > 0 && height > 0 && positions.len() <= 300_000 && plain_name(name)
}

fn append_faint_boxes(svg: &mut String, positions: &Vec<Position>, color: Pixel)
    ensures
        final(svg)@ == old(svg)@ + faint_boxes(views(positions@), color),
{
    let ghost start = svg@;
    let ghost all = views(positions@);
    let mut i: usize = 0;
    assert(svg@ =~= start + faint_boxes(all.take(0), color));
    while i < positions.len()
        invariant
            all == views(positions@),
            i <= positions.len(),
            svg@ == start + faint_boxes(all.take(i as int), color),
        decreases positions.len() - i,
    {
        assert(all[i as int] == positions@[i as int]@);
        append_rect_start(svg, &positions[i]);
        svg.append("#");
        append_hex(svg, color.r);
        append_hex(svg, color.g);
        append_hex(svg, color.b);
        svg.append("\" fill-opacity=\"0.15\"/>");
        proof {
            assert(all.take(i + 1).drop_last() =~= all.take(i as int));
            assert(svg@ =~= start + faint_boxes(all.take(i + 1), color));
        }
        i = i + 1;
    }
    assert(all.take(i as int) =~= all);
}

/// The drawing that is laid over a reconstructed design.
pub fn design_svg(width: i32, height: i32, entries: &Vec<MatchEntry>) -> (svg: String)
    ensures
        svg@ == design_svg_text(width as int, height as int, entry_views(entries@)),
{
    let mut svg: String = String::new();
    append_svg_start(&mut svg, width, height);
    let ghost all = entry_views(entries@);
    let ghost start = svg@;
    let mut i: usize = 0;
    assert(svg@ =~= start + all_faint_boxes(all.take(0)));
    while i < entries.len()
        invariant
            all == entry_views(entries@),
            i <= entries.len(),
            svg@ == start + all_faint_boxes(all.take(i as int)),
        decreases entries.len() - i,
    {
        assert(all[i as int] == entries@[i as int]@);
        append_faint_boxes(&mut svg, &entries[i].positions, palette_color(i));
        proof {
            assert(all.take(i + 1).drop_last() =~= all.take(i as int));
            assert(svg@ =~= start + all_faint_boxes(all.take(i + 1)));
        }
        i = i + 1;
    }
    svg.append("</svg>");
    assert(all.take(i as int) =~= all);
    assert(start =~= svg_start(width as int, height as int));
    svg
}

/// A drawing that marks nothing has its size and nothing else.
pub proof fn law_marks_of_nothing(width: int, height: int, name: Seq<char>)
    ensures
        mask_svg_text(width, height, Seq::empty(), name) == "<svg width=\""@ + signed_decimal(width)
            + "\" height=\""@ + signed_decimal(height)
            + "\" xmlns=\"http://www.w3.org/2000/svg\">"@ + "</svg>"@,
{
    assert(mask_svg_text(width, height, Seq::empty(), name) =~= "<svg width=\""@ + signed_decimal(
        width,
    ) + "\" height=\""@ + signed_decimal(height)
        + "\" xmlns=\"http://www.w3.org/2000/svg\">"@ + "</svg>"@);
}

/// One more position adds one more mark at the end of a drawing, before it is
/// closed: a box of the place and size of the position, green where its trust is
/// high, yellow where it is medium and red otherwise, and a label with the name
/// and the confidence, just above the box where there is room for it, and below it
/// otherwise.
pub proof fn law_mark_is_added(
    width: int,
    height: int,
    positions: Seq<PositionView>,
    p: PositionView,
    name: Seq<char>,
)
    ensures
        ({
            let had = mask_svg_text(width, height, positions, name);
            let (fill, stroke, ink) = if p.trust == "high"@ {
                ("rgba(0,200,0,0.25)"@, "rgb(0,180,0)"@, "rgb(0,140,0)"@)
            } else if p.trust == "medium"@ {
                ("rgba(200,200,0,0.25)"@, "rgb(180,180,0)"@, "rgb(140,140,0)"@)
            } else {
                ("rgba(200,0,0,0.25)"@, "rgb(180,0,0)"@, "rgb(140,0,0)"@)
            };
            let line = if p.y >= 16 { p.y - 4 } else { p.y + p.height + 14 };
            let (x, y) = (signed_decimal(p.x as int), signed_decimal(p.y as int));
            let (w, h) = (signed_decimal(p.width as int), signed_decimal(p.height as int));
            let shape = "<rect x=\""@ + x + "\" y=\""@ + y + "\" width=\""@ + w + "\" height=\""@ + h
                + "\" fill=\""@ + fill + "\" stroke=\""@ + stroke + "\" stroke-width=\"2\"/>"@;
            let label = "<text x=\""@ + x + "\" y=\""@ + signed_decimal(line)
                + "\" font-size=\"13\" font-family=\"sans-serif\" fill=\""@ + ink + "\">"@ + name
                + " conf:"@ + two_places(p.confidence) + "</text>"@;
            &&& had.len() >= 6
            &&& mask_svg_text(width, height, positions.push(p), name) == had.take(had.len() - 6)
                + shape + label + "</svg>"@
        }),
{
    let had = mask_svg_text(width, height, positions, name);
    let body = svg_start(width, height) + marks(positions, name);
    reveal_strlit("</svg>");
    assert(had.take(had.len() - 6) =~= body);
    assert(positions.push(p).drop_last() =~= positions);
    assert(mask_svg_text(width, height, positions.push(p), name) =~= body + mark_box(p) + mark_label(
        p,
        name,
    ) + "</svg>"@);
}

/// A drawing of faint boxes over nothing has its size and nothing else, and an
/// entry without positions adds nothing to it.
pub proof fn law_boxes_of_nothing(
    width: int,
    height: int,
    entries: Seq<EntryView>,
    entry: EntryView,
)
    requires
        entry.positions.len() == 0,
    ensures
        design_svg_text(width, height, Seq::empty()) == "<svg width=\""@ + signed_decimal(width)
            + "\" height=\""@ + signed_decimal(height)
            + "\" xmlns=\"http://www.w3.org/2000/svg\">"@ + "</svg>"@,
        design_svg_text(width, height, entries.push(entry)) == design_svg_text(
            width,
            height,
            entries,
        ),
{
    assert(design_svg_text(width, height, Seq::empty()) =~= "<svg width=\""@ + signed_decimal(width)
        + "\" height=\""@ + signed_decimal(height)
        + "\" xmlns=\"http://www.w3.org/2000/svg\">"@ + "</svg>"@);
    assert(entries.push(entry).drop_last() =~= entries);
    assert(all_faint_boxes(entries.push(entry)) =~= all_faint_boxes(entries));
}

/// One more position of the last entry adds one more faint box at the end of a
/// drawing, before it is closed: of the place and size of the position, and in the
/// color that belongs to the number of the entry.
pub proof fn law_box_is_added(
    width: int,
    height: int,
    entries: Seq<EntryView>,
    entry: EntryView,
    p: PositionView,
)
    ensures
        ({
            let had = design_svg_text(width, height, entries.push(entry));
            let more = EntryView {
                component: entry.component,
                count: entry.count,
                positions: entry.positions.push(p),
            };
            let (x, y) = (signed_decimal(p.x as int), signed_decimal(p.y as int));
            let (w, h) = (signed_decimal(p.width as int), signed_decimal(p.height as int));
            let color = palette(entries.len() as int);
            let shape = "<rect x=\""@ + x + "\" y=\""@ + y + "\" width=\""@ + w + "\" height=\""@ + h
                + "\" fill=\""@ + color_text(color) + "\" fill-opacity=\"0.15\"/>"@;
            &&& had.len() >= 6
            &&& design_svg_text(width, height, entries.push(more)) == had.take(had.len() - 6) + shape
                + "</svg>"@
        }),
{
    let more = EntryView {
        component: entry.component,
        count: entry.count,
        positions: entry.positions.push(p),
    };
    let had = design_svg_text(width, height, entries.push(entry));
    let color = palette(entries.len() as int);
    let body = svg_start(width, height) + (all_faint_boxes(entries) + faint_boxes(
        entry.positions,
        color,
    ));
    reveal_strlit("</svg>");
    assert(entries.push(entry).drop_last() =~= entries);
    assert(entries.push(more).drop_last() =~= entries);
    assert(had.take(had.len() - 6) =~= body);
    assert(entry.positions.push(p).drop_last() =~= entry.positions);
    assert(design_svg_text(width, height, entries.push(more)) =~= body + faint_box(p, color)
        + "</svg>"@);
}

/// A color is written as a hash, and its red, green and blue bytes in hexadecimal.
pub proof fn law_color_reads_back(p: Pixel)
    ensures
        color_text(p).len() == 7,
        color_text(p)[0] == '#',
        16 * hex_value(color_text(p)[1]) + hex_value(color_text(p)[2]) == p.r,
        16 * hex_value(color_text(p)[3]) + hex_value(color_text(p)[4]) == p.g,
        16 * hex_value(color_text(p)[5]) + hex_value(color_text(p)[6]) == p.b,
{
    reveal_strlit("#");
    law_hex_reads_back(p.r);
    law_hex_reads_back(p.g);
    law_hex_reads_back(p.b);
    let text = color_text(p);
    assert(text[1] == hex_byte(p.r)[0] && text[2] == hex_byte(p.r)[1]);
    assert(text[3] == hex_byte(p.g)[0] && text[4] == hex_byte(p.g)[1]);
    assert(text[5] == hex_byte(p.b)[0] && text[6] == hex_byte(p.b)[1]);
}

/// The colors of the palette come in turn, and start again after the eighth; eight
/// components in a row have eight different colors.
pub proof fn law_palette_repeats(i: int, j: int)
    requires
        i >= 0,
        j >= 0,
    ensures
        palette(i) == palette(j) <==> i % 8 == j % 8,
        i % 8 == 0 ==> palette(i) == (Pixel { b: 203, g: 67, r: 53 }),
        i % 8 == 1 ==> palette(i) == (Pixel { b: 46, g: 204, r: 113 }),
        i % 8 == 2 ==> palette(i) == (Pixel { b: 219, g: 152, r: 52 }),
        i % 8 == 3 ==> palette(i) == (Pixel { b: 18, g: 156, r: 243 }),
        i % 8 == 4 ==> palette(i) == (Pixel { b: 160, g: 68, r: 155 }),
        i % 8 == 5 ==> palette(i) == (Pixel { b: 156, g: 188, r: 26 }),
        i % 8 == 6 ==> palette(i) == (Pixel { b: 34, g: 126, r: 230 }),
        i % 8 == 7 ==> palette(i) == (Pixel { b: 165, g: 111, r: 41 }),
{
}

} // verus!
