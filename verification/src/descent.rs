//! Lowering the threshold until a component is found.
use crate::double::{
    at_least, difference, hundred, less, product, quotient, ten_thousand, whole, Double,
    HUNDRED_BITS, TEN_THOUSAND_BITS,
};
use crate::matching::{
    goes_before, law_matches_in_order, law_matches_leave_no_gap, law_matches_lie_apart,
    law_matches_reach_threshold, match_template_nms, normalized, Match, ScoreMap,
};
use crate::overlap::overlap;
use crate::passes::place_on_picture;
use crate::picture::{on_grid, Rect};
use vstd::prelude::*;

verus! {

/// 0.90
pub const HIGH_TRUST_BITS: u64 = 0x3fec_cccc_cccc_cccd;

/// 0.75
pub const MEDIUM_TRUST_BITS: u64 = 0x3fe8_0000_0000_0000;

/// -1e-9, below which no threshold is tried.
pub const FLOOR_BITS: u64 = 0xbe11_2e0b_e826_d695;

/// Where a component was found, how well it fits and how far to trust that.
#[derive(Clone, Debug, PartialEq, Eq)]
pub struct Position {
    pub x: i32,
    pub y: i32,
    pub width: i32,
    pub height: i32,
    pub confidence: Double,
    pub trust: String,
}

/// A position with its text as a sequence of characters.
pub struct PositionView {
    pub x: i32,
    pub y: i32,
    pub width: i32,
    pub height: i32,
    pub confidence: Double,
    pub trust: Seq<char>,
}

impl View for Position {
    type V = PositionView;

    open spec fn view(&self) -> PositionView {
        PositionView {
            x: self.x,
            y: self.y,
            width: self.width,
            height: self.height,
            confidence: self.confidence,
            trust: self.trust@,
        }
    }
}

/// The views of a list of positions.
pub open spec fn views(positions: Seq<Position>) -> Seq<PositionView> {
    positions.map_values(|p: Position| p@)
}

/// Why no position was returned.
#[derive(Clone, Debug, PartialEq, Eq)]
pub enum MatchError {
    /// No threshold down to zero gave a match for the named component.
    NoMatches(String),
    /// The step does not lower the threshold, and no threshold down to where it
    /// stays has given a match.
    Endless,
}

/// The trust that a confidence earns.
pub open spec fn trust_text(confidence: Double) -> Seq<char> {
    if at_least(confidence, Double { bits: HIGH_TRUST_BITS }) {
        "high"@
    } else if at_least(confidence, Double { bits: MEDIUM_TRUST_BITS }) {
        "medium"@
    } else {
        "low"@
    }
}

/// The trust that a confidence earns.
pub fn trust_label(confidence: Double) -> (label: &'static str)
    ensures
        label@ == trust_text(confidence),
{
    if confidence.at_least(Double { bits: HIGH_TRUST_BITS }) {
        "high"
    } else if confidence.at_least(Double { bits: MEDIUM_TRUST_BITS }) {
        "medium"
    } else {
        "low"
    }
}

/// A score to four decimal places.
pub open spec fn to_four_places(score: Double) -> Double {
    quotient(whole(product(score, ten_thousand())), ten_thousand())
}

/// A score to four decimal places.
pub fn four_places(score: Double) -> (r: Double)
    ensures
        r == to_four_places(score),
{
    let scale: Double = Double { bits: TEN_THOUSAND_BITS };
    score.times(scale).round().divided_by(scale)
}

/// A number to two decimal places.
pub open spec fn to_two_places(x: Double) -> Double {
    quotient(whole(product(x, hundred())), hundred())
}

/// The threshold one step down: to two decimal places where that lowers it, and
/// otherwise as it is, so that a step smaller than these places lowers it too.
pub open spec fn stepped_down(threshold: Double, step: Double) -> Double {
    let plain = difference(threshold, step);
    if less(to_two_places(plain), threshold) {
        to_two_places(plain)
    } else {
        plain
    }
}

/// The threshold one step down.
pub fn next_threshold(threshold: Double, step: Double) -> (r: Double)
    ensures
        r == stepped_down(threshold, step),
{
    let scale: Double = Double { bits: HUNDRED_BITS };
    let plain: Double = threshold.minus(step);
    let even: Double = plain.times(scale).round().divided_by(scale);
    if even.less(threshold) {
        even
    } else {
        plain
    }
}

/// Whether a threshold is tried at all.
pub open spec fn worth_trying(threshold: Double) -> bool {
    at_least(threshold, Double { bits: FLOOR_BITS })
}

/// The matches at a threshold; none where the template was too large to score.
pub open spec fn matches_at(scores: &Option<ScoreMap>, threshold: Double, nms_threshold: Double) -> Seq<
    Match,
> {
    match scores {
        Some(map) => map.matches(threshold, nms_threshold),
        None => Seq::empty(),
    }
}

/// Every score map that is there is well formed.
pub open spec fn scores_wf(scores: &Option<ScoreMap>) -> bool {
    scores is Some ==> scores->0.wf()
}

/// How many thresholds can be tried from the given one down, at most.
pub open spec fn trials_left(threshold: Double) -> nat {
    if worth_trying(threshold) {
        (threshold.rank() - (Double { bits: FLOOR_BITS }).rank() + 1) as nat
    } else {
        0
    }
}

/// Whether lowering the threshold leads nowhere: the next one would be tried,
/// but is not lower.
pub open spec fn stays_up(threshold: Double, step: Double) -> bool {
    worth_trying(stepped_down(threshold, step)) && !less(
        stepped_down(threshold, step),
        threshold,
    )
}

/// How lowering the threshold ends.
pub enum Descent {
    /// The first threshold with a match, and the matches at it.
    Found(Double, Seq<Match>),
    /// The threshold fell below the floor.
    NotFound,
    /// The step no longer lowers the threshold.
    Endless,
}

/// Tries thresholds from the given one down, step by step, and ends at the first
/// with a match.
pub open spec fn descent(
    scores: &Option<ScoreMap>,
    threshold: Double,
    step: Double,
    nms_threshold: Double,
) -> Descent
    decreases trials_left(threshold),
{
    if !worth_trying(threshold) {
        Descent::NotFound
    } else if matches_at(scores, threshold, nms_threshold).len() > 0 {
        Descent::Found(threshold, matches_at(scores, threshold, nms_threshold))
    } else if stays_up(threshold, step) {
        Descent::Endless
    } else {
        descent(scores, stepped_down(threshold, step), step, nms_threshold)
    }
}

/// The position that a match is reported as.
pub open spec fn position_of(m: Match) -> PositionView {
    PositionView {
        x: m.rect.x,
        y: m.rect.y,
        width: m.rect.width,
        height: m.rect.height,
        confidence: to_four_places(m.score),
        trust: trust_text(m.score),
    }
}

/// The positions that matches are reported as.
pub open spec fn positions_of(matches: Seq<Match>) -> Seq<PositionView> {
    matches.map_values(|m: Match| position_of(m))
}

/// What `match_component` returns for the way the descent ended.
pub open spec fn reports(
    result: Result<(Double, Vec<Position>), MatchError>,
    component_name: Seq<char>,
    end: Descent,
) -> bool {
    match end {
        Descent::Found(threshold, matches) => {
            &&& result is Ok
            &&& result->Ok_0.0 == threshold
            &&& views(result->Ok_0.1@) == positions_of(matches)
        },
        Descent::NotFound => {
            &&& result matches Err(MatchError::NoMatches(name))
            &&& name@ == component_name
        },
        Descent::Endless => result == Err::<(Double, Vec<Position>), MatchError>(
            MatchError::Endless,
        ),
    }
}

/// The position that a match is reported as.
pub fn report(m: &Match) -> (p: Position)
    ensures
        p@ == position_of(*m),
{
    Position {
        x: m.rect.x,
        y: m.rect.y,
        width: m.rect.width,
        height: m.rect.height,
        confidence: four_places(m.score),
        trust: String::from_str(trust_label(m.score)),
    }
}

/// The first threshold with a match and the matches at it.
pub(crate) fn descend(
    scores: &Option<ScoreMap>,
    start_threshold: Double,
    step: Double,
    nms_threshold: Double,
) -> (end: Result<Option<(Double, Vec<Match>)>, ()>)
    requires
        scores_wf(scores),
    ensures
        match descent(scores, start_threshold, step, nms_threshold) {
            Descent::Found(threshold, matches) => end matches Ok(Some(found)) && found.0 == threshold
                && found.1@ == matches,
            Descent::NotFound => end == Ok::<Option<(Double, Vec<Match>)>, ()>(None),
            Descent::Endless => end is Err,
        },
        end matches Ok(Some(found)) ==> scores is Some && forall|i: int|
            0 <= i < found.1@.len() ==> crate::matching::placed(
                &scores->0,
                #[trigger] found.1@[i],
            ),
        end matches Ok(Some(found)) ==> found.1@.len() > 0,
{
    let floor: Double = Double { bits: FLOOR_BITS };
    let mut threshold: Double = start_threshold;
    while threshold.at_least(floor)
        invariant
            scores_wf(scores),
            floor == (Double { bits: FLOOR_BITS }),
            descent(scores, start_threshold, step, nms_threshold) == descent(
                scores,
                threshold,
                step,
                nms_threshold,
            ),
        decreases trials_left(threshold),
    {
        if let Some(map) = scores {
            let matches: Vec<Match> = match_template_nms(map, threshold, nms_threshold);
            if matches.len() > 0 {
                return Ok(Some((threshold, matches)));
            }
        }
        let next: Double = next_threshold(threshold, step);
        if next.at_least(floor) && !next.less(threshold) {
            return Err(());
        }
        threshold = next;
    }
    Ok(None)
}

/// Tries thresholds from `start_threshold` down to zero, stepping by `step`,
/// and returns the first with a match together with the positions matched at
/// it. Where the step does not lower the threshold the search would go on for
/// ever, and is given up.
pub fn match_component(
    scores: &Option<ScoreMap>,
    component_name: &str,
    start_threshold: Double,
    step: Double,
    nms_threshold: Double,
) -> (result: Result<(Double, Vec<Position>), MatchError>)
    requires
        scores_wf(scores),
    ensures
        reports(
            result,
            component_name@,
            descent(scores, start_threshold, step, nms_threshold),
        ),
        result matches Ok(found) ==> {
            &&& at_least(start_threshold, found.0)
            &&& found.1@.len() > 0
            &&& scores is Some
            &&& thinned_out(&scores->0, found.0, nms_threshold, views(found.1@))
        },
{
    proof {
        let _ = law_descent_reports(scores, start_threshold, step, nms_threshold);
        law_found_below_start(scores, start_threshold, step, nms_threshold);
    }
    match descend(scores, start_threshold, step, nms_threshold) {
        Err(()) => Err(MatchError::Endless),
        Ok(None) => Err(MatchError::NoMatches(String::from_str(component_name))),
        Ok(Some((threshold, matches))) => {
            let mut positions: Vec<Position> = Vec::new();
            let mut i: usize = 0;
            while i < matches.len()
                invariant
                    i <= matches.len(),
                    positions@.len() == i,
                    forall|j: int|
                        0 <= j < i ==> (#[trigger] positions@[j])@ == position_of(matches@[j]),
                decreases matches.len() - i,
            {
                positions.push(report(&matches[i]));
                i = i + 1;
            }
            assert(views(positions@) =~= positions_of(matches@));
            Ok((threshold, positions))
        },
    }
}

/// The threshold after `k` steps.
pub open spec fn threshold_after(start: Double, step: Double, k: nat) -> Double
    decreases k,
{
    if k == 0 {
        start
    } else {
        stepped_down(threshold_after(start, step, (k - 1) as nat), step)
    }
}

proof fn lemma_first_step(start: Double, step: Double, k: nat)
    ensures
        threshold_after(stepped_down(start, step), step, k) == threshold_after(start, step, k + 1),
    decreases k,
{
    if k > 0 {
        lemma_first_step(start, step, (k - 1) as nat);
    } else {
        reveal_with_fuel(threshold_after, 2);
    }
}

/// Whether the first `k` thresholds were tried without a match.
pub open spec fn tried_in_vain(
    scores: &Option<ScoreMap>,
    start: Double,
    step: Double,
    nms_threshold: Double,
    k: nat,
) -> bool {
    forall|j: nat|
        j < k ==> worth_trying(#[trigger] threshold_after(start, step, j)) && matches_at(
            scores,
            threshold_after(start, step, j),
            nms_threshold,
        ).len() == 0
}

/// How a descent ends at the threshold after `k` steps.
pub open spec fn ends_at(
    scores: &Option<ScoreMap>,
    start: Double,
    step: Double,
    nms_threshold: Double,
    k: nat,
) -> bool {
    let threshold = threshold_after(start, step, k);
    &&& tried_in_vain(scores, start, step, nms_threshold, k)
    &&& match descent(scores, start, step, nms_threshold) {
        Descent::Found(found, matches) => {
            &&& found == threshold
            &&& worth_trying(threshold)
            &&& matches == matches_at(scores, threshold, nms_threshold)
            &&& matches.len() > 0
        },
        Descent::NotFound => !worth_trying(threshold),
        Descent::Endless => {
            &&& worth_trying(threshold)
            &&& matches_at(scores, threshold, nms_threshold).len() == 0
            &&& stays_up(threshold, step)
        },
    }
}

/// A descent ends at the first threshold that has a match, is below the floor or
/// is not lowered any more: every threshold before that was tried and had no
/// match.
pub proof fn law_descent_ends_at_first(
    scores: &Option<ScoreMap>,
    start: Double,
    step: Double,
    nms_threshold: Double,
) -> (k: nat)
    ensures
        ends_at(scores, start, step, nms_threshold, k),
    decreases trials_left(start),
{
    if !worth_trying(start) || matches_at(scores, start, nms_threshold).len() > 0 || stays_up(
        start,
        step,
    ) {
        0
    } else {
        let next = stepped_down(start, step);
        let k = law_descent_ends_at_first(scores, next, step, nms_threshold);
        lemma_first_step(start, step, k);
        assert forall|j: nat| j < k + 1 implies worth_trying(
            #[trigger] threshold_after(start, step, j),
        ) && matches_at(scores, threshold_after(start, step, j), nms_threshold).len() == 0 by {
            if j > 0 {
                lemma_first_step(start, step, (j - 1) as nat);
                assert(threshold_after(next, step, (j - 1) as nat) == threshold_after(
                    start,
                    step,
                    j,
                ));
            }
        }
        k + 1
    }
}

/// A better match is not trusted less.
pub proof fn law_trust_grows(low: Double, high: Double)
    requires
        at_least(high, low),
    ensures
        trust_text(low) == "high"@ ==> trust_text(high) == "high"@,
        trust_text(high) == "low"@ ==> trust_text(low) == "low"@,
{
    reveal_strlit("high");
    reveal_strlit("medium");
    reveal_strlit("low");
    assert("high"@ != "medium"@ && "high"@ != "low"@ && "medium"@ != "low"@) by {
        assert("high"@.len() == 4 && "medium"@.len() == 6 && "low"@.len() == 3);
    }
}

/// Whether a place of the map has a finite score that reaches a threshold.
pub open spec fn reaches(map: &ScoreMap, threshold: Double, r: int, c: int) -> bool {
    &&& on_grid(map.rows as int, map.cols as int, r, c)
    &&& map.score(r, c).finite()
    &&& at_least(map.score(r, c), threshold)
}

/// Whether a position reports the place of the map that it lies at: the size of
/// the template, and the score there, held within zero and one.
pub open spec fn reports_place(map: &ScoreMap, p: PositionView) -> bool {
    let score = normalized(map.score(p.y as int, p.x as int));
    &&& p.width == map.templ_cols
    &&& p.height == map.templ_rows
    &&& p.confidence == to_four_places(score)
    &&& p.trust == trust_text(score)
}

/// Whether a place is reported, or overlaps by more than the threshold for
/// overlaps a reported position that comes before it.
pub open spec fn accounted_for(
    map: &ScoreMap,
    nms_threshold: Double,
    positions: Seq<PositionView>,
    r: int,
    c: int,
) -> bool {
    let rect = Rect { x: c as i32, y: r as i32, width: map.templ_cols, height: map.templ_rows };
    exists|i: int|
        0 <= i < positions.len() && (place_on_picture(#[trigger] positions[i]) == rect || (
        goes_before(map, positions[i].y as int, positions[i].x as int, r, c) && less(
            nms_threshold,
            overlap(rect, place_on_picture(positions[i])),
        )))
}

/// Whether positions are what is to be reported of a map at a threshold: places
/// that reach it, in order and each as it is; no two of them overlap by more than
/// the threshold for overlaps; and every place that reaches it is accounted for.
pub open spec fn thinned_out(
    map: &ScoreMap,
    threshold: Double,
    nms_threshold: Double,
    positions: Seq<PositionView>,
) -> bool {
    &&& forall|i: int|
        0 <= i < positions.len() ==> {
            let p = #[trigger] positions[i];
            reaches(map, threshold, p.y as int, p.x as int) && reports_place(map, p)
        }
    &&& forall|i: int, j: int|
        0 <= i < j < positions.len() ==> {
            let (p, q) = (#[trigger] positions[i], #[trigger] positions[j]);
            goes_before(map, p.y as int, p.x as int, q.y as int, q.x as int)
        }
    &&& forall|i: int, j: int|
        0 <= i < positions.len() && 0 <= j < positions.len() && i != j ==> !less(
            nms_threshold,
            overlap(
                place_on_picture(#[trigger] positions[i]),
                place_on_picture(#[trigger] positions[j]),
            ),
        )
    &&& forall|r: int, c: int|
        #[trigger] reaches(map, threshold, r, c) ==> accounted_for(
            map,
            nms_threshold,
            positions,
            r,
            c,
        )
}

/// The matches at a threshold are what is to be reported.
pub proof fn law_matches_thinned_out(map: &ScoreMap, threshold: Double, nms_threshold: Double)
    requires
        map.wf(),
    ensures
        thinned_out(
            map,
            threshold,
            nms_threshold,
            positions_of(map.matches(threshold, nms_threshold)),
        ),
{
    let matches = map.matches(threshold, nms_threshold);
    let positions = positions_of(matches);
    assert forall|i: int| 0 <= i < positions.len() implies {
        let p = #[trigger] positions[i];
        reaches(map, threshold, p.y as int, p.x as int) && reports_place(map, p)
            && place_on_picture(p) == matches[i].rect
    } by {
        law_matches_reach_threshold(map, threshold, nms_threshold, i);
    }
    assert forall|i: int, j: int| 0 <= i < j < positions.len() implies {
        let (p, q) = (#[trigger] positions[i], #[trigger] positions[j]);
        goes_before(map, p.y as int, p.x as int, q.y as int, q.x as int)
    } by {
        law_matches_in_order(map, threshold, nms_threshold, i, j);
    }
    assert forall|i: int, j: int|
        0 <= i < positions.len() && 0 <= j < positions.len() && i != j implies !less(
        nms_threshold,
        overlap(
            place_on_picture(#[trigger] positions[i]),
            place_on_picture(#[trigger] positions[j]),
        ),
    ) by {
        law_matches_lie_apart(map, threshold, nms_threshold, i, j);
    }
    assert forall|r: int, c: int| #[trigger] reaches(map, threshold, r, c) implies accounted_for(
        map,
        nms_threshold,
        positions,
        r,
        c,
    ) by {
        let i = law_matches_leave_no_gap(map, threshold, nms_threshold, r, c);
        assert(place_on_picture(positions[i]) == matches[i].rect);
    }
}

/// Whether some place of the map reaches a threshold.
pub open spec fn reached(scores: &Option<ScoreMap>, threshold: Double) -> bool {
    scores is Some && exists|r: int, c: int| reaches(&scores->0, threshold, r, c)
}

proof fn lemma_reached(scores: &Option<ScoreMap>, threshold: Double, nms_threshold: Double)
    requires
        scores_wf(scores),
    ensures
        reached(scores, threshold) <==> matches_at(scores, threshold, nms_threshold).len() > 0,
{
    if let Some(map) = scores {
        law_matches_thinned_out(map, threshold, nms_threshold);
        let positions = positions_of(map.matches(threshold, nms_threshold));
        if positions.len() > 0 {
            let p = positions[0];
            assert(reaches(map, threshold, p.y as int, p.x as int));
        }
        if reached(scores, threshold) {
            let (r, c) = choose|r: int, c: int| reaches(map, threshold, r, c);
            assert(accounted_for(map, nms_threshold, positions, r, c));
        }
    }
}

/// How looking for a component ends: every threshold before the last was tried
/// and is reached nowhere on the map. Where the last is reached, it is returned
/// together with what is to be reported at it. Otherwise it is below the floor, or
/// the step does not lower it any more.
pub proof fn law_descent_reports(
    scores: &Option<ScoreMap>,
    start: Double,
    step: Double,
    nms_threshold: Double,
) -> (k: nat)
    requires
        scores_wf(scores),
    ensures
        forall|j: nat|
            j < k ==> {
                let t = #[trigger] threshold_after(start, step, j);
                at_least(t, Double { bits: FLOOR_BITS }) && !reached(scores, t)
            },
        ({
            let last = threshold_after(start, step, k);
            let next = stepped_down(last, step);
            match descent(scores, start, step, nms_threshold) {
                Descent::Found(threshold, matches) => {
                    &&& threshold == last
                    &&& at_least(last, Double { bits: FLOOR_BITS })
                    &&& reached(scores, last)
                    &&& thinned_out(&scores->0, last, nms_threshold, positions_of(matches))
                },
                Descent::NotFound => !at_least(last, Double { bits: FLOOR_BITS }),
                Descent::Endless => {
                    &&& at_least(last, Double { bits: FLOOR_BITS })
                    &&& !reached(scores, last)
                    &&& at_least(next, Double { bits: FLOOR_BITS })
                    &&& !less(next, last)
                },
            }
        }),
{
    let k = law_descent_ends_at_first(scores, start, step, nms_threshold);
    let last = threshold_after(start, step, k);
    assert forall|j: nat| j < k implies {
        let t = #[trigger] threshold_after(start, step, j);
        at_least(t, Double { bits: FLOOR_BITS }) && !reached(scores, t)
    } by {
        lemma_reached(scores, threshold_after(start, step, j), nms_threshold);
    }
    lemma_reached(scores, last, nms_threshold);
    if let Some(map) = scores {
        law_matches_thinned_out(map, last, nms_threshold);
    }
    k
}

/// The threshold that is returned is the start, or below it.
pub proof fn law_found_below_start(
    scores: &Option<ScoreMap>,
    start: Double,
    step: Double,
    nms_threshold: Double,
)
    ensures
        descent(scores, start, step, nms_threshold) matches Descent::Found(threshold, _)
            ==> at_least(start, threshold),
    decreases trials_left(start),
{
    if worth_trying(start) && matches_at(scores, start, nms_threshold).len() == 0 && !stays_up(
        start,
        step,
    ) {
        law_found_below_start(scores, stepped_down(start, step), step, nms_threshold);
    }
}

} // verus!
