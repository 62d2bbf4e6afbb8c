//! Finding a component precisely in the region where a detector has seen it.
use crate::descent::{
    descend, law_descent_ends_at_first, position_of, report, scores_wf, to_four_places, trust_text,
    Descent, MatchError, Position, PositionView,
};
use crate::double::{at_least, from_int, from_nat, one_in_units, product, to_int32, Double};
use crate::exact::{lemma_distance_scaled, lemma_finite, lemma_whole};
use crate::matching::{
    law_matches_leave_no_gap, law_matches_reach_threshold, lemma_normalized_order, normalized,
    placed, Match, ScoreMap,
};
use crate::overlap::{fits_i32, larger_int, smaller_int};
use crate::passes::Search;
use crate::picture::{on_grid, Rect};
use crate::rounding::{distance, law_rounding_error, nearest, units, HIDDEN_BIT};
use vstd::arithmetic::power2::{lemma_pow2_adds, lemma_pow2_pos, pow2};
use vstd::prelude::*;

verus! {

/// By how much a length is expanded on each side for a margin.
pub open spec fn expansion(length: i32, margin: Double) -> int {
    to_int32(product(from_int(length as int), margin)) as int
}

/// Where a stretch that is expanded on both sides starts, cut at zero.
pub open spec fn region_start(start: i32, length: i32, margin: Double) -> int {
    larger_int(start - expansion(length, margin), 0)
}

/// The length of a stretch that is expanded on both sides, cut at zero and at
/// the edge of the design.
pub open spec fn region_length(start: i32, length: i32, margin: Double, edge: i32) -> int {
    smaller_int(start + length + expansion(length, margin), edge as int) - region_start(
        start,
        length,
        margin,
    )
}

/// The region around a detected box, expanded by the margin and cut at the
/// edges of the design; nothing where a template of the given size is larger.
pub open spec fn region_around(
    design: (i32, i32),
    templ: (i32, i32),
    bbox: Rect,
    margin: Double,
) -> Option<Rect> {
    let width = region_length(bbox.x, bbox.width, margin, design.0);
    let height = region_length(bbox.y, bbox.height, margin, design.1);
    if width < templ.0 || height < templ.1 {
        None
    } else {
        Some(
            Rect {
                x: region_start(bbox.x, bbox.width, margin) as i32,
                y: region_start(bbox.y, bbox.height, margin) as i32,
                width: width as i32,
                height: height as i32,
            },
        )
    }
}

fn expanded(start: i32, length: i32, margin: Double, edge: i32) -> (r: (i64, i64))
    ensures
        r.0 == region_start(start, length, margin),
        r.1 == region_length(start, length, margin, edge),
{
    let by: i64 = Double::from_i32(length).times(margin).to_i32() as i64;
    let (start, length, edge): (i64, i64, i64) = (start as i64, length as i64, edge as i64);
    let from: i64 = if start - by >= 0 { start - by } else { 0 };
    let end: i64 = start + length + by;
    (from, if end <= edge { end - from } else { edge - from })
}

/// The region in which to look for a template around a detected box, or nothing
/// where the template is larger than the region. `design` and `templ` are sizes,
/// the width first.
pub fn search_region(
    design: (i32, i32),
    templ: (i32, i32),
    bbox: Rect,
    margin: Double,
) -> (region: Option<Rect>)
    requires
        templ.0 >= 0,
        templ.1 >= 0,
    ensures
        region == region_around(design, templ, bbox, margin),
{
    let (x, width): (i64, i64) = expanded(bbox.x, bbox.width, margin, design.0);
    let (y, height): (i64, i64) = expanded(bbox.y, bbox.height, margin, design.1);
    if width < templ.0 as i64 || height < templ.1 as i64 {
        None
    } else {
        Some(Rect { x: x as i32, y: y as i32, width: width as i32, height: height as i32 })
    }
}

/// The match with the highest score, the last of those where several have it.
pub open spec fn last_best(matches: Seq<Match>) -> Match
    recommends
        matches.len() > 0,
    decreases matches.len(),
{
    if matches.len() <= 1 {
        matches[0]
    } else {
        let best = last_best(matches.drop_last());
        if best.score.rank() > matches.last().score.rank() {
            best
        } else {
            matches.last()
        }
    }
}

fn find_last_best(matches: &Vec<Match>) -> (best: Match)
    requires
        matches@.len() > 0,
    ensures
        best == last_best(matches@),
        exists|i: int| 0 <= i < matches@.len() && best == matches@[i],
{
    let mut best: Match = matches[0];
    let mut i: usize = 1;
    assert(best == matches@[0]);
    assert(matches@.take(1)[0] == matches@[0]);
    while i < matches.len()
        invariant
            1 <= i <= matches@.len(),
            best == last_best(matches@.take(i as int)),
            exists|j: int| 0 <= j < i && best == matches@[j],
        decreases matches.len() - i,
    {
        let m: Match = matches[i];
        proof {
            assert(matches@.take(i + 1).drop_last() =~= matches@.take(i as int));
            assert(matches@.take(i + 1).last() == m);
        }
        if best.score.rank_bits() <= m.score.rank_bits() {
            best = m;
            assert(best == matches@[i as int]);
        }
        i = i + 1;
    }
    assert(matches@.take(i as int) =~= matches@);
    best
}

/// A position, and what it was found by.
#[derive(Clone, Debug, PartialEq, Eq)]
pub struct RefinedPosition {
    pub position: Position,
    pub source: String,
}

/// The position that a match in a region has on the design.
pub open spec fn position_on_design(region: Rect, m: Match) -> PositionView {
    let p = position_of(m);
    PositionView { x: (region.x + p.x) as i32, y: (region.y + p.y) as i32, ..p }
}

/// The positions on the map, counted from the corner of the region, are within
/// the range of coordinates.
pub open spec fn region_fits(region: Rect, scores: &Option<ScoreMap>) -> bool {
    scores matches Some(map) ==> region.x >= 0 && region.y >= 0 && fits_i32(region.x + map.cols)
        && fits_i32(region.y + map.rows)
}

/// Looks for a template in a region of the design, with the scores that it has
/// there, lowering the threshold until there is a match. The best match is
/// returned by its place on the design.
pub fn refine_yolo_region(region: Rect, scores: &Option<ScoreMap>, search: Search) -> (result: Result<
    Option<RefinedPosition>,
    MatchError,
>)
    requires
        scores_wf(scores),
        region_fits(region, scores),
    ensures
        match search.end(scores) {
            Descent::Found(_, matches) => {
                &&& result matches Ok(Some(found))
                &&& found.position@ == position_on_design(region, last_best(matches))
                &&& found.source@ == "yolo+template"@
            },
            Descent::NotFound => result == Ok::<Option<RefinedPosition>, MatchError>(None),
            Descent::Endless => result == Err::<Option<RefinedPosition>, MatchError>(
                MatchError::Endless,
            ),
        },
        result matches Ok(Some(found)) ==> {
            let p = found.position@;
            let (y, x) = (p.y - region.y, p.x - region.x);
            &&& scores is Some
            &&& best_place(&scores->0, y, x)
            &&& p.width == scores->0.templ_cols
            &&& p.height == scores->0.templ_rows
            &&& p.confidence == to_four_places(normalized(scores->0.score(y, x)))
            &&& p.trust == trust_text(normalized(scores->0.score(y, x)))
        },
{
    proof {
        if search.end(scores) is Found {
            law_refined_is_best_place(scores, search);
        }
    }
    match descend(scores, search.start_threshold, search.step, search.nms_threshold) {
        Err(()) => Err(MatchError::Endless),
        Ok(None) => Ok(None),
        Ok(Some((_, matches))) => {
            let best: Match = find_last_best(&matches);
            assert(placed(&scores->0, best));
            let p: Position = report(&best);
            Ok(
                Some(
                    RefinedPosition {
                        position: Position {
                            x: region.x + p.x,
                            y: region.y + p.y,
                            width: p.width,
                            height: p.height,
                            confidence: p.confidence,
                            trust: p.trust,
                        },
                        source: String::from_str("yolo+template"),
                    },
                ),
            )
        },
    }
}

/// Whether one rectangle lies within the sides of a box that is expanded by a
/// margin.
pub open spec fn within_expanded(
    x: int,
    y: int,
    width: int,
    height: int,
    bbox: Rect,
    margin: Double,
) -> bool {
    &&& bbox.x - expansion(bbox.width, margin) <= x
    &&& x + width <= bbox.x + bbox.width + expansion(bbox.width, margin)
    &&& bbox.y - expansion(bbox.height, margin) <= y
    &&& y + height <= bbox.y + bbox.height + expansion(bbox.height, margin)
}

/// A region that a template fits into lies on the design, and inside the box
/// expanded by the margin.
pub proof fn law_region_lies_within(
    design: (i32, i32),
    templ: (i32, i32),
    bbox: Rect,
    margin: Double,
)
    requires
        templ.0 >= 0,
        templ.1 >= 0,
        region_around(design, templ, bbox, margin) is Some,
    ensures
        ({
            let region = region_around(design, templ, bbox, margin)->0;
            &&& 0 <= region.x && region.x + region.width <= design.0
            &&& 0 <= region.y && region.y + region.height <= design.1
            &&& templ.0 <= region.width && templ.1 <= region.height
            &&& within_expanded(
                region.x as int,
                region.y as int,
                region.width as int,
                region.height as int,
                bbox,
                margin,
            )
        }),
{
}

/// No match scores higher than the one that is refined.
pub proof fn law_refined_is_best(matches: Seq<Match>)
    requires
        matches.len() > 0,
    ensures
        forall|i: int|
            0 <= i < matches.len() ==> last_best(matches).score.rank() >= (
            #[trigger] matches[i]).score.rank(),
        matches.contains(last_best(matches)),
    decreases matches.len(),
{
    if matches.len() == 1 {
        assert(matches[0] == last_best(matches));
    } else {
        let few = matches.drop_last();
        law_refined_is_best(few);
        assert forall|i: int| 0 <= i < matches.len() implies last_best(matches).score.rank() >= (
        #[trigger] matches[i]).score.rank() by {
            if i < few.len() {
                assert(few[i] == matches[i]);
            }
        }
        let n = choose|n: int| 0 <= n < few.len() && few[n] == last_best(few);
        assert(matches[n] == last_best(few));
        assert(matches[matches.len() - 1] == matches.last());
    }
}

/// A refined position lies on the design, in the region that was searched, and
/// so inside the box expanded by the margin.
pub proof fn law_refined_lies_within(
    design: (i32, i32),
    templ: (i32, i32),
    bbox: Rect,
    margin: Double,
    map: &ScoreMap,
    threshold: Double,
    nms_threshold: Double,
)
    requires
        map.wf(),
        map.templ_cols == templ.0,
        map.templ_rows == templ.1,
        region_around(design, templ, bbox, margin) is Some,
        map.cols + map.templ_cols - 1 <= region_around(design, templ, bbox, margin)->0.width,
        map.rows + map.templ_rows - 1 <= region_around(design, templ, bbox, margin)->0.height,
        map.matches(threshold, nms_threshold).len() > 0,
    ensures
        ({
            let region = region_around(design, templ, bbox, margin)->0;
            let best = last_best(map.matches(threshold, nms_threshold));
            let p = position_on_design(region, best);
            &&& region.x <= p.x && p.x + p.width <= region.x + region.width <= design.0
            &&& region.y <= p.y && p.y + p.height <= region.y + region.height <= design.1
            &&& within_expanded(
                p.x as int,
                p.y as int,
                p.width as int,
                p.height as int,
                bbox,
                margin,
            )
        }),
{
    let matches = map.matches(threshold, nms_threshold);
    law_region_lies_within(design, templ, bbox, margin);
    law_refined_is_best(matches);
    let i = choose|i: int| 0 <= i < matches.len() && matches[i] == last_best(matches);
    law_matches_reach_threshold(map, threshold, nms_threshold, i);
}

/// Whether a place of the map is the best there is: no finite score is reported as
/// higher than the one there.
pub open spec fn best_place(map: &ScoreMap, y: int, x: int) -> bool {
    &&& on_grid(map.rows as int, map.cols as int, y, x)
    &&& map.score(y, x).finite()
    &&& forall|r: int, c: int|
        #![trigger map.score(r, c)]
        on_grid(map.rows as int, map.cols as int, r, c) && map.score(r, c).finite() ==> at_least(
            normalized(map.score(y, x)),
            normalized(map.score(r, c)),
        )
}

/// What is refined is the best place of the whole map, however the threshold was
/// lowered and whatever overlaps.
pub proof fn law_refined_is_best_place(scores: &Option<ScoreMap>, search: Search)
    requires
        scores_wf(scores),
        search.end(scores) is Found,
    ensures
        scores is Some,
        ({
            let best = last_best(search.end(scores)->Found_1);
            &&& best_place(&scores->0, best.rect.y as int, best.rect.x as int)
            &&& best.rect.width == scores->0.templ_cols
            &&& best.rect.height == scores->0.templ_rows
            &&& best.score == normalized(
                scores->0.score(best.rect.y as int, best.rect.x as int),
            )
        }),
{
    let k = law_descent_ends_at_first(
        scores,
        search.start_threshold,
        search.step,
        search.nms_threshold,
    );
    let map = &scores->0;
    let t = search.end(scores)->Found_0;
    let matches = search.end(scores)->Found_1;
    assert(matches == map.matches(t, search.nms_threshold));
    law_refined_is_best(matches);
    let best = last_best(matches);
    let i = choose|i: int| 0 <= i < matches.len() && matches[i] == best;
    law_matches_reach_threshold(map, t, search.nms_threshold, i);
    let (y, x) = (best.rect.y as int, best.rect.x as int);
    assert forall|r: int, c: int|
        #![trigger map.score(r, c)]
        on_grid(map.rows as int, map.cols as int, r, c) && map.score(r, c).finite() implies at_least(
        normalized(map.score(y, x)),
        normalized(map.score(r, c)),
    ) by {
        if at_least(map.score(r, c), t) {
            let j = law_matches_leave_no_gap(map, t, search.nms_threshold, r, c);
            law_matches_reach_threshold(map, t, search.nms_threshold, j);
            let m = matches[j];
            let near = map.score(m.rect.y as int, m.rect.x as int);
            lemma_normalized_order(near, map.score(r, c));
            assert(best.score.rank() >= m.score.rank());
        } else {
            lemma_normalized_order(map.score(y, x), map.score(r, c));
        }
    }
}

/// A length is expanded by its product with the margin, cut down to a whole
/// number.
pub proof fn law_expansion(length: i32, margin: Double)
    requires
        length >= 0,
        margin.finite(),
        !margin.negative(),
        length * units(margin.magnitude()) < 0x7fff_ffff * one_in_units(),
    ensures
        ({
            let by = expansion(length, margin);
            let exact = length * units(margin.magnitude());
            let rounded = units(product(from_nat(length as nat), margin).magnitude());
            &&& by * one_in_units() <= rounded < (by + 1) * one_in_units()
            &&& distance(exact as int, rounded as int) <= pow2(1052)
        }),
{
    let u = one_in_units();
    let m = units(margin.magnitude());
    let exact = (length * m) as nat;
    lemma_whole(length as nat);
    lemma_pow2_pos(1052);
    vstd::arithmetic::power2::lemma2_to64();
    vstd::arithmetic::power2::lemma2_to64_rest();
    lemma_pow2_adds(22, 1052);
    let e = pow2(1052);
    let a = (length as nat * u) * m;
    assert(a == u * exact) by (nonlinear_arith)
        requires
            a == (length as nat * u) * m,
            exact == length * m,
            length >= 0,
    ;
    assert(exact >= 0) by (nonlinear_arith)
        requires
            exact == length * m,
            length >= 0,
            m >= 0,
    ;
    assert(0x7fff_ffff * u <= 2 * HIDDEN_BIT * e) by (nonlinear_arith)
        requires
            u == 0x40_0000 * e,
            HIDDEN_BIT == 0x10_0000_0000_0000,
            e > 0,
    ;
    assert(a <= u * (2 * HIDDEN_BIT * e)) by (nonlinear_arith)
        requires
            a == u * exact,
            exact <= 2 * HIDDEN_BIT * e,
            u > 0,
    ;
    law_rounding_error(a, u, 1052);
    let p = product(from_int(length as int), margin);
    let v = units(nearest(a, u));
    lemma_distance_scaled(exact as int, v as int, e as int, u as int);
    lemma_finite(nearest(a, u), 0x8000_0000);
    assert(p.finite() && !p.negative() && units(p.magnitude()) == v);
    vstd::arithmetic::div_mod::lemma_fundamental_div_mod(v as int, u as int);
    let by = v / u;
    assert(v == by * u + v % u) by (nonlinear_arith)
        requires
            v == u * by + v % u,
    ;
    assert((by + 1) * u == by * u + u) by (nonlinear_arith);
    if by >= 0x7fff_ffff {
        assert(by * u >= 0x7fff_ffff * u) by (nonlinear_arith)
            requires
                by >= 0x7fff_ffff,
                u > 0,
        ;
    }
}

/// A region holds every cell of the design that lies in the expanded box, and
/// nothing else.
pub proof fn law_region_holds_all(
    design: (i32, i32),
    templ: (i32, i32),
    bbox: Rect,
    margin: Double,
    r: int,
    c: int,
)
    requires
        templ.0 > 0,
        templ.1 > 0,
        region_around(design, templ, bbox, margin) is Some,
    ensures
        ({
            let region = region_around(design, templ, bbox, margin)->0;
            let (w, h) = (expansion(bbox.width, margin), expansion(bbox.height, margin));
            let inside = region.x <= c < region.x + region.width && region.y <= r < region.y
                + region.height;
            let on_design = 0 <= c < design.0 && 0 <= r < design.1;
            let in_box = bbox.x - w <= c < bbox.x + bbox.width + w && bbox.y - h <= r < bbox.y
                + bbox.height + h;
            inside <==> on_design && in_box
        }),
{
}

/// Whether a template can lie in the expanded box and on the design with its top
/// left corner in the given place.
pub open spec fn template_fits(
    design: (i32, i32),
    templ: (i32, i32),
    bbox: Rect,
    margin: Double,
    x: int,
    y: int,
) -> bool {
    let (w, h) = (expansion(bbox.width, margin), expansion(bbox.height, margin));
    &&& 0 <= x && x + templ.0 <= design.0
    &&& 0 <= y && y + templ.1 <= design.1
    &&& bbox.x - w <= x && x + templ.0 <= bbox.x + bbox.width + w
    &&& bbox.y - h <= y && y + templ.1 <= bbox.y + bbox.height + h
}

/// There is a region exactly where the template fits into it somewhere.
pub proof fn law_region_where_template_fits(
    design: (i32, i32),
    templ: (i32, i32),
    bbox: Rect,
    margin: Double,
)
    requires
        templ.0 > 0,
        templ.1 > 0,
    ensures
        region_around(design, templ, bbox, margin) is Some <==> exists|x: int, y: int|
            template_fits(design, templ, bbox, margin, x, y),
{
    if region_around(design, templ, bbox, margin) is Some {
        let region = region_around(design, templ, bbox, margin)->0;
        assert(template_fits(design, templ, bbox, margin, region.x as int, region.y as int));
    }
}

/// Of several matches that score highest the last is refined.
pub proof fn law_refined_is_last(matches: Seq<Match>) -> (n: int)
    requires
        matches.len() > 0,
    ensures
        0 <= n < matches.len(),
        last_best(matches) == matches[n],
        forall|i: int|
            n < i < matches.len() ==> (#[trigger] matches[i]).score.rank() < matches[n].score.rank(),
    decreases matches.len(),
{
    if matches.len() == 1 {
        0
    } else {
        let few = matches.drop_last();
        let n = law_refined_is_last(few);
        if last_best(few).score.rank() > matches.last().score.rank() {
            assert forall|i: int| n < i < matches.len() implies (#[trigger] matches[i]).score.rank()
                < matches[n].score.rank() by {
                if i < few.len() {
                    assert(few[i] == matches[i]);
                }
            }
            n
        } else {
            matches.len() - 1
        }
    }
}

} // verus!
