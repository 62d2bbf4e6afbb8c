//! The two passes over the components of a design.
//!
//! The first pass looks for every component in the design. What it found is
//! painted over on a copy, and the second pass looks for every component again:
//! it adds the components that the first pass missed, and takes the place of
//! what the first pass found where it fits better.
use crate::descent::{
    descent, law_descent_reports, match_component, position_of, positions_of, reached, scores_wf,
    threshold_after, thinned_out, views, Descent, MatchError, Position, PositionView, FLOOR_BITS,
};
use crate::double::{at_least, less, zero, Double};
use crate::entry::{entry_of, entry_views, make_entry, EntryView, MatchEntry};
use crate::masking::{
    beside, border, border_fits, covered, law_masking_paints_covered, law_masking_stays_within,
    mask_region, masked, mean_pixel,
};
use crate::matching::{law_matches_reach_threshold, Match, ScoreMap};
use crate::overlap::fits_i32;
use crate::picture::{lemma_same_grid, mask_wf, on_grid, Grid, Mask, Picture, Rect};
use crate::ranking::{
    law_ranking_ends, law_ranking_falls, law_ranking_permutes, rank_between, ranked, Keyed,
};
use crate::svg::label_fits;
use vstd::prelude::*;

verus! {

/// How the threshold is lowered: where it starts, by how much it falls, and from
/// which overlap on a match hides another.
#[derive(Clone, Copy, Debug, PartialEq, Eq, Structural)]
pub struct Search {
    pub start_threshold: Double,
    pub step: Double,
    pub nms_threshold: Double,
}

impl Search {
    /// How looking for a component with the given scores ends.
    pub open spec fn end(self, scores: &Option<ScoreMap>) -> Descent {
        descent(scores, self.start_threshold, self.step, self.nms_threshold)
    }
}

/// The entries once the first pass has looked for a component: one more where
/// it was found.
pub open spec fn first_found(all: Seq<EntryView>, component: Seq<char>, end: Descent) -> Seq<
    EntryView,
> {
    match end {
        Descent::Found(_, matches) => all.push(entry_of(component, positions_of(matches))),
        _ => all,
    }
}

/// The threshold at which a component was found, or why it was not.
pub open spec fn found_at(result: Result<Double, MatchError>, component: Seq<char>, end: Descent) -> bool {
    match end {
        Descent::Found(threshold, _) => result == Ok::<Double, MatchError>(threshold),
        Descent::NotFound => result matches Err(MatchError::NoMatches(name)) && name@ == component,
        Descent::Endless => result == Err::<Double, MatchError>(MatchError::Endless),
    }
}

/// Looks for a component in the first pass, and adds an entry where it is found.
pub fn first_pass(
    all: &mut Vec<MatchEntry>,
    scores: &Option<ScoreMap>,
    component: &str,
    search: Search,
) -> (result: Result<Double, MatchError>)
    requires
        scores_wf(scores),
    ensures
        found_at(result, component@, search.end(scores)),
        entry_views(final(all)@) == first_found(
            entry_views(old(all)@),
            component@,
            search.end(scores),
        ),
        result matches Ok(threshold) ==> {
            &&& scores is Some
            &&& at_least(search.start_threshold, threshold)
            &&& final(all)@.len() == old(all)@.len() + 1
            &&& final(all)@.take(old(all)@.len() as int) == old(all)@
            &&& final(all)@.last().component@ == component@
            &&& thinned_out(
                &scores->0,
                threshold,
                search.nms_threshold,
                views(final(all)@.last().positions@),
            )
        },
        result is Err ==> final(all)@ == old(all)@,
{
    match match_component(
        scores,
        component,
        search.start_threshold,
        search.step,
        search.nms_threshold,
    ) {
        Ok((threshold, positions)) => {
            let ghost was = all@;
            all.push(make_entry(component, positions));
            assert(entry_views(all@) =~= entry_views(was).push(all@.last()@));
            assert(all@.take(was.len() as int) =~= was);
            Ok(threshold)
        },
        Err(e) => Err(e),
    }
}

/// An entry by its number and the area of its first position.
#[derive(Clone, Copy, Debug, PartialEq, Eq, Structural)]
pub struct SizedEntry {
    pub index: usize,
    pub area: i32,
}

impl Keyed for SizedEntry {
    open spec fn key_value(self) -> int {
        self.area as int
    }

    fn key(&self) -> (k: i64) {
        self.area as i64
    }
}

/// The area of the first position of an entry; zero where it has none.
pub open spec fn first_area(entry: EntryView) -> int {
    if entry.positions.len() > 0 {
        entry.positions[0].width * entry.positions[0].height
    } else {
        0
    }
}

/// Every entry with the area of its first position.
pub open spec fn sized(entries: Seq<EntryView>) -> Seq<SizedEntry> {
    Seq::new(
        entries.len(),
        |i: int| SizedEntry { index: i as usize, area: first_area(entries[i]) as i32 },
    )
}

/// The areas of all first positions are within range.
pub open spec fn areas_fit(entries: Seq<EntryView>) -> bool {
    forall|i: int| 0 <= i < entries.len() ==> fits_i32(first_area(#[trigger] entries[i]))
}

/// The entries from the largest first position to the smallest.
pub fn largest_first(entries: &Vec<MatchEntry>) -> (order: Vec<SizedEntry>)
    requires
        areas_fit(entry_views(entries@)),
    ensures
        order@ == ranked(sized(entry_views(entries@))),
        forall|i: int| 0 <= i < order@.len() ==> (#[trigger] order@[i]).index < entries@.len(),
{
    let ghost all = entry_views(entries@);
    let mut found: Vec<SizedEntry> = Vec::new();
    let mut i: usize = 0;
    while i < entries.len()
        invariant
            all == entry_views(entries@),
            areas_fit(all),
            i <= entries.len(),
            found@ =~= sized(all).take(i as int),
        decreases entries.len() - i,
    {
        let entry: &MatchEntry = &entries[i];
        assert(all[i as int] == entry@);
        assert(fits_i32(first_area(all[i as int])));
        let area: i32 = if entry.positions.len() > 0 {
            let p: &Position = &entry.positions[0];
            assert(entry@.positions[0] == p@);
            p.width * p.height
        } else {
            0
        };
        found.push(SizedEntry { index: i, area });
        i = i + 1;
    }
    let order: Vec<SizedEntry> = rank_between(&found, 0, found.len());
    proof {
        assert(found@.subrange(0, found@.len() as int) =~= sized(all));
        law_ranking_permutes(sized(all));
        assert forall|i: int| 0 <= i < order@.len() implies (#[trigger] order@[i]).index
            < entries@.len() by {
            assert(order@.contains(order@[i]));
            assert(sized(all).contains(order@[i]));
        }
    }
    order
}

/// The place of a position on the picture.
pub open spec fn place_on_picture(p: PositionView) -> Rect {
    Rect { x: p.x, y: p.y, width: p.width, height: p.height }
}

/// A picture with all positions of a component painted over, in order.
pub open spec fn positions_masked(img: Grid, positions: Seq<PositionView>, mask: &Option<Mask>) -> Grid
    decreases positions.len(),
{
    if positions.len() == 0 {
        img
    } else {
        masked(
            positions_masked(img, positions.drop_last(), mask),
            place_on_picture(positions.last()),
            mask,
        )
    }
}

/// A picture with the given entries painted over, in order. A component whose
/// picture could not be loaded stays as it is.
pub open spec fn entries_masked(
    img: Grid,
    entries: Seq<EntryView>,
    masks: Seq<Option<Option<Mask>>>,
    order: Seq<SizedEntry>,
) -> Grid
    decreases order.len(),
{
    if order.len() == 0 {
        img
    } else {
        let before = entries_masked(img, entries, masks, order.drop_last());
        let i = order.last().index as int;
        match masks[i] {
            Some(mask) => positions_masked(before, entries[i].positions, &mask),
            None => before,
        }
    }
}

/// The border of every position lies within the range of coordinates.
pub open spec fn borders_fit(positions: Seq<PositionView>) -> bool {
    forall|i: int|
        0 <= i < positions.len() ==> border_fits(place_on_picture(#[trigger] positions[i]))
}

/// Paints over all positions of a component.
pub fn mask_positions(img: &mut Picture, positions: &Vec<Position>, mask: &Option<Mask>)
    requires
        old(img).wf(),
        mask_wf(mask),
        borders_fit(views(positions@)),
    ensures
        final(img).wf(),
        final(img)@ == positions_masked(old(img)@, views(positions@), mask),
{
    let ghost was = img@;
    let ghost all = views(positions@);
    let mut i: usize = 0;
    assert(all.take(0) =~= Seq::empty());
    while i < positions.len()
        invariant
            was == old(img)@,
            all == views(positions@),
            borders_fit(all),
            mask_wf(mask),
            img.wf(),
            i <= positions.len(),
            img@ == positions_masked(was, all.take(i as int), mask),
        decreases positions.len() - i,
    {
        let p: &Position = &positions[i];
        assert(all[i as int] == p@);
        mask_region(img, Rect { x: p.x, y: p.y, width: p.width, height: p.height }, mask);
        proof {
            assert(all.take(i + 1).drop_last() =~= all.take(i as int));
        }
        i = i + 1;
    }
    assert(all.take(i as int) =~= all);
}

/// Paints over everything that the first pass has found, largest first, so that
/// the border of an embedded component is sampled from what it is embedded in.
/// There is a mask for every entry, or nothing where its component could not be
/// loaded.
pub fn mask_matches(img: &mut Picture, entries: &Vec<MatchEntry>, masks: &Vec<Option<Option<Mask>>>)
    requires
        old(img).wf(),
        areas_fit(entry_views(entries@)),
        masks@.len() == entries@.len(),
        forall|i: int|
            0 <= i < masks@.len() && (#[trigger] masks@[i]) is Some ==> mask_wf(&masks@[i]->0),
        forall|i: int|
            0 <= i < masks@.len() && (#[trigger] masks@[i]) is Some ==> borders_fit(
                entry_views(entries@)[i].positions,
            ),
    ensures
        final(img).wf(),
        final(img)@ == entries_masked(
            old(img)@,
            entry_views(entries@),
            masks@,
            ranked(sized(entry_views(entries@))),
        ),
{
    let ghost was = img@;
    let ghost all = entry_views(entries@);
    let order: Vec<SizedEntry> = largest_first(entries);
    let mut i: usize = 0;
    assert(order@.take(0) =~= Seq::empty());
    while i < order.len()
        invariant
            was == old(img)@,
            all == entry_views(entries@),
            img.wf(),
            masks@.len() == entries@.len(),
            forall|j: int|
                0 <= j < masks@.len() && (#[trigger] masks@[j]) is Some ==> mask_wf(&masks@[j]->0),
            forall|j: int|
                0 <= j < masks@.len() && (#[trigger] masks@[j]) is Some ==> borders_fit(
                    all[j].positions,
                ),
            forall|j: int| 0 <= j < order@.len() ==> (#[trigger] order@[j]).index < entries@.len(),
            i <= order.len(),
            img@ == entries_masked(was, all, masks@, order@.take(i as int)),
        decreases order.len() - i,
    {
        let k: usize = order[i].index;
        assert(all[k as int] == entries@[k as int]@);
        proof {
            assert(order@.take(i + 1).drop_last() =~= order@.take(i as int));
            assert(order@.take(i + 1).last() == order@[i as int]);
        }
        if let Some(mask) = &masks[k] {
            mask_positions(img, &entries[k].positions, mask);
        }
        i = i + 1;
    }
    assert(order@.take(i as int) =~= order@);
}

/// The better of two confidences.
pub open spec fn better(a: Double, b: Double) -> Double {
    if less(a, b) {
        b
    } else {
        a
    }
}

/// The best confidence of a list of positions, and at least zero.
pub open spec fn best_confidence(positions: Seq<PositionView>) -> Double
    decreases positions.len(),
{
    if positions.len() == 0 {
        zero()
    } else {
        better(best_confidence(positions.drop_last()), positions.last().confidence)
    }
}

/// The best confidence of a list of positions, and at least zero.
pub fn best_of(positions: &Vec<Position>) -> (best: Double)
    ensures
        best == best_confidence(views(positions@)),
{
    let ghost all = views(positions@);
    let mut best: Double = Double { bits: 0 };
    let mut i: usize = 0;
    while i < positions.len()
        invariant
            all == views(positions@),
            i <= positions.len(),
            best == best_confidence(all.take(i as int)),
        decreases positions.len() - i,
    {
        let c: Double = positions[i].confidence;
        proof {
            assert(all[i as int] == positions@[i as int]@);
            assert(all.take(i + 1).drop_last() =~= all.take(i as int));
        }
        if best.less(c) {
            best = c;
        }
        i = i + 1;
    }
    assert(all.take(i as int) =~= all);
    best
}

/// Whether the entry at `i` is the first of a component.
pub open spec fn is_first_of(entries: Seq<EntryView>, component: Seq<char>, i: int) -> bool {
    &&& 0 <= i < entries.len()
    &&& entries[i].component == component
    &&& forall|j: int| 0 <= j < i ==> (#[trigger] entries[j]).component != component
}

/// Whether a component has an entry.
pub open spec fn has_entry(entries: Seq<EntryView>, component: Seq<char>) -> bool {
    exists|i: int| is_first_of(entries, component, i)
}

/// The number of the first entry of a component.
pub open spec fn entry_number(entries: Seq<EntryView>, component: Seq<char>) -> int {
    choose|i: int| is_first_of(entries, component, i)
}

/// The number of the first entry of a component, if it has any.
pub fn find_entry(entries: &Vec<MatchEntry>, component: &str) -> (found: Option<usize>)
    ensures
        match found {
            Some(i) => has_entry(entry_views(entries@), component@) && i == entry_number(
                entry_views(entries@),
                component@,
            ) && i < entries@.len(),
            None => !has_entry(entry_views(entries@), component@),
        },
{
    let ghost all = entry_views(entries@);
    let mut i: usize = 0;
    while i < entries.len()
        invariant
            all == entry_views(entries@),
            i <= entries.len(),
            forall|j: int| 0 <= j < i ==> (#[trigger] all[j]).component != component@,
        decreases entries.len() - i,
    {
        assert(all[i as int] == entries@[i as int]@);
        if crate::text::same_text(&entries[i].component, component) {
            assert(is_first_of(all, component@, i as int));
            return Some(i);
        }
        i = i + 1;
    }
    None
}

/// What became of a component in the second pass.
#[derive(Clone, Copy, Debug, PartialEq, Eq, Structural)]
pub enum SecondPass {
    /// It has a new entry, at the end.
    Added,
    /// The entry of that number now holds what the second pass has found.
    Replaced(usize),
    /// The entry of that number was at least as good, and stays.
    Kept(usize),
}

/// What becomes of a component that the second pass has found at the given
/// positions. It takes the place of the first entry of the component only where
/// its best confidence is higher.
pub open spec fn outcome(
    all: Seq<EntryView>,
    component: Seq<char>,
    positions: Seq<PositionView>,
) -> SecondPass {
    if has_entry(all, component) {
        let i = entry_number(all, component);
        if less(best_confidence(all[i].positions), best_confidence(positions)) {
            SecondPass::Replaced(i as usize)
        } else {
            SecondPass::Kept(i as usize)
        }
    } else {
        SecondPass::Added
    }
}

/// The entries once the second pass has found a component at the given positions.
pub open spec fn merged(
    all: Seq<EntryView>,
    component: Seq<char>,
    positions: Seq<PositionView>,
) -> Seq<EntryView> {
    match outcome(all, component, positions) {
        SecondPass::Added => all.push(entry_of(component, positions)),
        SecondPass::Replaced(i) => all.update(i as int, entry_of(component, positions)),
        SecondPass::Kept(_) => all,
    }
}

/// Merges what the second pass has found of a component into the entries.
pub fn merge_second_pass(
    all: &mut Vec<MatchEntry>,
    component: &str,
    positions: Vec<Position>,
) -> (result: SecondPass)
    ensures
        result == outcome(entry_views(old(all)@), component@, views(positions@)),
        entry_views(final(all)@) == merged(
            entry_views(old(all)@),
            component@,
            views(positions@),
        ),
        result matches SecondPass::Replaced(i) ==> i < final(all)@.len() && surpasses(
            views(positions@),
            entry_views(old(all)@)[i as int].positions,
        ) && final(all)@[i as int].positions == positions && final(all)@[i as int].count
            == positions@.len(),
        result matches SecondPass::Kept(i) ==> !surpasses(
            views(positions@),
            entry_views(old(all)@)[i as int].positions,
        ) && final(all)@ == old(all)@,
        result == SecondPass::Added ==> final(all)@.len() == old(all)@.len() + 1
            && final(all)@.last().positions == positions,
{
    let ghost was = all@;
    proof {
        let i = entry_number(entry_views(was), component@);
        lemma_surpasses(views(positions@), entry_views(was)[i].positions);
    }
    match find_entry(all, component) {
        Some(i) => {
            assert(entry_views(was)[i as int] == was[i as int]@);
            let before: Double = best_of(&all[i].positions);
            if best_of(&positions).above(before) {
                let entry: MatchEntry = make_entry(component, positions);
                all.set(i, entry);
                assert(entry_views(all@) =~= entry_views(was).update(i as int, entry@));
                SecondPass::Replaced(i)
            } else {
                SecondPass::Kept(i)
            }
        },
        None => {
            all.push(make_entry(component, positions));
            assert(entry_views(all@) =~= entry_views(was).push(all@.last()@));
            SecondPass::Added
        },
    }
}

/// The entries once the second pass has looked for a component.
pub open spec fn second_found(all: Seq<EntryView>, component: Seq<char>, end: Descent) -> Seq<
    EntryView,
> {
    match end {
        Descent::Found(_, matches) => merged(all, component, positions_of(matches)),
        _ => all,
    }
}

/// Looks for a component in the second pass, and merges what is found.
pub fn second_pass(
    all: &mut Vec<MatchEntry>,
    scores: &Option<ScoreMap>,
    component: &str,
    search: Search,
) -> (result: Result<(Double, SecondPass), MatchError>)
    requires
        scores_wf(scores),
    ensures
        match search.end(scores) {
            Descent::Found(threshold, matches) => result == Ok::<(Double, SecondPass), MatchError>(
                (
                    threshold,
                    outcome(entry_views(old(all)@), component@, positions_of(matches)),
                ),
            ),
            Descent::NotFound => result matches Err(MatchError::NoMatches(name)) && name@
                == component@,
            Descent::Endless => result == Err::<(Double, SecondPass), MatchError>(
                MatchError::Endless,
            ),
        },
        entry_views(final(all)@) == second_found(
            entry_views(old(all)@),
            component@,
            search.end(scores),
        ),
        result matches Ok(found) ==> {
            &&& scores is Some
            &&& at_least(search.start_threshold, found.0)
            &&& found.1 matches SecondPass::Replaced(i) ==> i < final(all)@.len() && thinned_out(
                &scores->0,
                found.0,
                search.nms_threshold,
                views(final(all)@[i as int].positions@),
            )
            &&& found.1 == SecondPass::Added ==> final(all)@.len() == old(all)@.len() + 1
                && thinned_out(
                &scores->0,
                found.0,
                search.nms_threshold,
                views(final(all)@.last().positions@),
            )
            &&& found.1 is Kept ==> final(all)@ == old(all)@
        },
        result is Err ==> final(all)@ == old(all)@,
{
    match match_component(
        scores,
        component,
        search.start_threshold,
        search.step,
        search.nms_threshold,
    ) {
        Ok((threshold, positions)) => {
            let result: SecondPass = merge_second_pass(all, component, positions);
            Ok((threshold, result))
        },
        Err(e) => Err(e),
    }
}

/// The best confidence is at least zero and at least every confidence that is a
/// number, and it is zero or one of them.
pub proof fn law_best_is_best(positions: Seq<PositionView>)
    ensures
        at_least(best_confidence(positions), zero()),
        forall|i: int|
            0 <= i < positions.len() && !(#[trigger] positions[i]).confidence.nan() ==> at_least(
                best_confidence(positions),
                positions[i].confidence,
            ),
        best_confidence(positions) == zero() || exists|i: int|
            0 <= i < positions.len() && best_confidence(positions) == (
            #[trigger] positions[i]).confidence,
    decreases positions.len(),
{
    if positions.len() > 0 {
        let few = positions.drop_last();
        law_best_is_best(few);
        assert forall|i: int|
            0 <= i < positions.len() && !(#[trigger] positions[i]).confidence.nan() implies at_least(
            best_confidence(positions),
            positions[i].confidence,
        ) by {
            if i < few.len() {
                assert(few[i] == positions[i]);
            }
        }
        if best_confidence(positions) != zero() {
            if best_confidence(positions) == positions.last().confidence {
                assert(positions[positions.len() - 1].confidence == best_confidence(positions));
            } else {
                let i = choose|i: int|
                    0 <= i < few.len() && best_confidence(few) == (#[trigger] few[i]).confidence;
                assert(positions[i].confidence == best_confidence(positions));
            }
        }
    }
}

proof fn lemma_entry_number(all: Seq<EntryView>, component: Seq<char>)
    requires
        has_entry(all, component),
    ensures
        is_first_of(all, component, entry_number(all, component)),
{
}

/// The second pass takes no entry away, and makes none worse: the best confidence
/// of every entry stays or grows.
pub proof fn law_second_pass_never_worse(
    all: Seq<EntryView>,
    component: Seq<char>,
    positions: Seq<PositionView>,
    i: int,
)
    requires
        0 <= i < all.len() <= usize::MAX,
    ensures
        all.len() <= merged(all, component, positions).len(),
        merged(all, component, positions)[i].component == all[i].component,
        at_least(
            best_confidence(merged(all, component, positions)[i].positions),
            best_confidence(all[i].positions),
        ),
{
    law_best_is_best(all[i].positions);
    law_best_is_best(positions);
    if has_entry(all, component) {
        lemma_entry_number(all, component);
    }
}

/// The second pass leaves the entries of other components as they are.
pub proof fn law_second_pass_keeps_others(
    all: Seq<EntryView>,
    component: Seq<char>,
    positions: Seq<PositionView>,
    i: int,
)
    requires
        0 <= i < all.len() <= usize::MAX,
        all[i].component != component,
    ensures
        merged(all, component, positions)[i] == all[i],
{
    if has_entry(all, component) {
        lemma_entry_number(all, component);
    }
}

/// Whether no component has two entries.
pub open spec fn one_entry_each(all: Seq<EntryView>) -> bool {
    forall|i: int, j: int|
        0 <= i < j < all.len() ==> (#[trigger] all[i]).component != (#[trigger] all[j]).component
}

/// Whether a component has no entry, said of every entry.
proof fn lemma_no_entry(all: Seq<EntryView>, component: Seq<char>, i: int)
    requires
        !has_entry(all, component),
        0 <= i < all.len(),
    ensures
        all[i].component != component,
    decreases i,
{
    if all[i].component == component {
        assert forall|j: int| 0 <= j < i implies (#[trigger] all[j]).component != component by {
            lemma_no_entry(all, component, j);
        }
        assert(is_first_of(all, component, i));
    }
}

/// Every component that the second pass finds has an entry afterwards, and no
/// component gets a second one.
pub proof fn law_one_entry_each(
    all: Seq<EntryView>,
    component: Seq<char>,
    positions: Seq<PositionView>,
)
    requires
        all.len() < usize::MAX,
    ensures
        has_entry(merged(all, component, positions), component),
        one_entry_each(all) ==> one_entry_each(merged(all, component, positions)),
{
    let after = merged(all, component, positions);
    if has_entry(all, component) {
        let i = entry_number(all, component);
        lemma_entry_number(all, component);
        assert forall|j: int| 0 <= j < after.len() implies (#[trigger] after[j]).component
            == all[j].component by {}
        assert(is_first_of(after, component, i));
        if one_entry_each(all) {
            assert forall|i: int, j: int| 0 <= i < j < after.len() implies (
            #[trigger] after[i]).component != (#[trigger] after[j]).component by {
                assert(all[i].component != all[j].component);
            }
        }
    } else {
        assert forall|j: int| 0 <= j < all.len() implies (#[trigger] after[j]).component
            != component by {
            lemma_no_entry(all, component, j);
        }
        assert(is_first_of(after, component, all.len() as int));
        if one_entry_each(all) {
            assert forall|i: int, j: int| 0 <= i < j < after.len() implies (
            #[trigger] after[i]).component != (#[trigger] after[j]).component by {
                if j < all.len() {
                    assert(all[i].component != all[j].component);
                }
            }
        }
    }
}

/// What the first pass found is painted over from the largest to the smallest,
/// each entry once.
pub proof fn law_largest_first(entries: Seq<EntryView>, i: int, j: int)
    requires
        areas_fit(entries),
        entries.len() <= usize::MAX,
        0 <= i < j < entries.len(),
    ensures
        ({
            let order = ranked(sized(entries));
            &&& order.len() == entries.len()
            &&& order[i].index < entries.len()
            &&& order[j].index < entries.len()
            &&& order[i].index != order[j].index
            &&& first_area(entries[order[i].index as int]) >= first_area(
                entries[order[j].index as int],
            )
        }),
{
    let s = sized(entries);
    let order = ranked(s);
    law_ranking_permutes(s);
    law_ranking_falls(s);
    assert(s.no_duplicates()) by {
        assert forall|a: int, b: int| 0 <= a < s.len() && 0 <= b < s.len() && a != b implies s[a]
            != s[b] by {
            assert(s[a].index == a && s[b].index == b);
        }
    }
    s.lemma_multiset_has_no_duplicates();
    order.lemma_multiset_has_no_duplicates_conv();
    assert(order.contains(order[i]) && order.contains(order[j]));
    assert(s.contains(order[i]) && s.contains(order[j]));
    let a = choose|a: int| 0 <= a < s.len() && s[a] == order[i];
    let b = choose|b: int| 0 <= b < s.len() && s[b] == order[j];
    assert(fits_i32(first_area(entries[a])) && fits_i32(first_area(entries[b])));
    assert(s[a].index == a && s[b].index == b);
    assert(order[i] != order[j]);
    assert(order[i].key_value() >= order[j].key_value());
}

/// What is found on a design lies on it; and where the design leaves a little
/// room in the range of coordinates, so do the borders and labels of what is
/// found.
pub proof fn law_found_lies_on_design(
    map: &ScoreMap,
    rows: int,
    cols: int,
    threshold: Double,
    nms_threshold: Double,
    i: int,
)
    requires
        map.wf(),
        map.rows + map.templ_rows - 1 <= rows,
        map.cols + map.templ_cols - 1 <= cols,
        0 <= i < map.matches(threshold, nms_threshold).len(),
    ensures
        ({
            let p = position_of(map.matches(threshold, nms_threshold)[i]);
            &&& 0 <= p.x && p.x + p.width <= cols
            &&& 0 <= p.y && p.y + p.height <= rows
            &&& rows <= i32::MAX - 16 && cols <= i32::MAX - 16 ==> border_fits(place_on_picture(p))
                && label_fits(p, 16, 14) && label_fits(p, 20, 16)
        }),
{
    law_matches_reach_threshold(map, threshold, nms_threshold, i);
}

/// The first pass gives a component one entry: where none had two, and the
/// component had none, none has two afterwards.
pub proof fn law_first_pass_one_entry(all: Seq<EntryView>, component: Seq<char>, end: Descent)
    requires
        one_entry_each(all),
        !has_entry(all, component),
    ensures
        one_entry_each(first_found(all, component, end)),
        has_entry(first_found(all, component, end), component) <==> end is Found,
{
    let after = first_found(all, component, end);
    if end is Found {
        assert forall|j: int| 0 <= j < all.len() implies (#[trigger] after[j]).component
            != component by {
            lemma_no_entry(all, component, j);
        }
        assert(is_first_of(after, component, all.len() as int));
        assert forall|i: int, j: int| 0 <= i < j < after.len() implies (
        #[trigger] after[i]).component != (#[trigger] after[j]).component by {
            if j < all.len() {
                assert(all[i].component != all[j].component);
            }
        }
    }
}

/// Whether every entry counts its own positions.
pub open spec fn counts_agree(all: Seq<EntryView>) -> bool {
    forall|i: int| 0 <= i < all.len() ==> (#[trigger] all[i]).count == all[i].positions.len()
}

/// Both passes keep the count of every entry that of its positions.
pub proof fn law_counts_agree(
    all: Seq<EntryView>,
    component: Seq<char>,
    threshold: Double,
    matches: Seq<Match>,
)
    requires
        counts_agree(all),
        all.len() <= usize::MAX,
        matches.len() <= usize::MAX,
    ensures
        counts_agree(first_found(all, component, Descent::Found(threshold, matches))),
        counts_agree(second_found(all, component, Descent::Found(threshold, matches))),
{
    if has_entry(all, component) {
        lemma_entry_number(all, component);
    }
}

/// Whether one of the new confidences is above zero and above every confidence
/// that was there before. What is not a number does not count.
pub open spec fn surpasses(new: Seq<PositionView>, had: Seq<PositionView>) -> bool {
    exists|n: int|
        0 <= n < new.len() && less(zero(), (#[trigger] new[n]).confidence) && forall|m: int|
            0 <= m < had.len() && !(#[trigger] had[m]).confidence.nan() ==> less(
                had[m].confidence,
                new[n].confidence,
            )
}

proof fn lemma_surpasses(new: Seq<PositionView>, had: Seq<PositionView>)
    ensures
        surpasses(new, had) <==> less(best_confidence(had), best_confidence(new)),
{
    law_best_is_best(new);
    law_best_is_best(had);
    if less(best_confidence(had), best_confidence(new)) {
        let n = choose|n: int|
            0 <= n < new.len() && best_confidence(new) == (#[trigger] new[n]).confidence;
        assert(less(zero(), new[n].confidence));
    }
    if surpasses(new, had) {
        let n = choose|n: int|
            0 <= n < new.len() && less(zero(), (#[trigger] new[n]).confidence) && forall|m: int|
                0 <= m < had.len() && !(#[trigger] had[m]).confidence.nan() ==> less(
                    had[m].confidence,
                    new[n].confidence,
                );
        assert(at_least(best_confidence(new), new[n].confidence));
    }
}

/// The second pass replaces what the first found of a component exactly where it
/// finds it with a higher confidence, however many positions there are on either
/// side: then the entry holds the new positions and nothing else, and otherwise
/// it stays. Either way its best confidence is the larger of the two, and all
/// other entries stay.
pub proof fn law_merge_keeps_better(
    all: Seq<EntryView>,
    component: Seq<char>,
    positions: Seq<PositionView>,
    i: int,
)
    requires
        0 <= i < all.len() <= usize::MAX,
        all[i].component == component,
        forall|j: int| 0 <= j < i ==> (#[trigger] all[j]).component != component,
    ensures
        ({
            let after = merged(all, component, positions);
            &&& after.len() == all.len()
            &&& forall|j: int| 0 <= j < all.len() && j != i ==> #[trigger] after[j] == all[j]
            &&& surpasses(positions, all[i].positions) ==> after[i] == (EntryView {
                component,
                count: positions.len() as usize,
                positions,
            }) && outcome(all, component, positions) == SecondPass::Replaced(i as usize)
            &&& !surpasses(positions, all[i].positions) ==> after[i] == all[i] && outcome(
                all,
                component,
                positions,
            ) == SecondPass::Kept(i as usize)
            &&& at_least(best_confidence(after[i].positions), best_confidence(all[i].positions))
            &&& at_least(best_confidence(after[i].positions), best_confidence(positions))
            &&& best_confidence(after[i].positions) == best_confidence(all[i].positions)
                || best_confidence(after[i].positions) == best_confidence(positions)
        }),
{
    assert(is_first_of(all, component, i));
    lemma_entry_number(all, component);
    let k = entry_number(all, component);
    if k < i {
        assert(all[k].component != component);
    }
    if i < k {
        assert(all[i].component != component);
    }
    lemma_surpasses(positions, all[i].positions);
    law_best_is_best(positions);
    law_best_is_best(all[i].positions);
}

/// A component that the first pass has not found gets an entry at the end, and
/// all other entries stay.
pub proof fn law_merge_adds_missing(
    all: Seq<EntryView>,
    component: Seq<char>,
    positions: Seq<PositionView>,
)
    requires
        forall|j: int| 0 <= j < all.len() ==> (#[trigger] all[j]).component != component,
    ensures
        outcome(all, component, positions) == SecondPass::Added,
        merged(all, component, positions) == all.push(
            EntryView { component, count: positions.len() as usize, positions },
        ),
{
    if has_entry(all, component) {
        lemma_entry_number(all, component);
    }
}

/// What looking for a component comes to in the entries: where it is not found
/// they stay in either pass; where it is, the first pass adds an entry that holds
/// a position for each match, in order, and the second merges those positions.
pub proof fn law_passes_follow_descent(all: Seq<EntryView>, component: Seq<char>, end: Descent)
    ensures
        match end {
            Descent::Found(_, matches) => {
                let positions = positions_of(matches);
                &&& first_found(all, component, end) == all.push(
                    EntryView { component, count: positions.len() as usize, positions },
                )
                &&& second_found(all, component, end) == merged(all, component, positions)
                &&& positions.len() == matches.len()
                &&& forall|i: int|
                    0 <= i < matches.len() ==> ({
                        let (p, m) = (#[trigger] positions[i], matches[i]);
                        p.x == m.rect.x && p.y == m.rect.y && p.width == m.rect.width && p.height
                            == m.rect.height
                    })
            },
            _ => first_found(all, component, end) == all && second_found(all, component, end)
                == all,
        },
{
}

/// Positions are painted over in order, each on what the ones before it gave, and
/// without positions nothing is.
pub proof fn law_positions_masked_in_turn(
    img: Grid,
    positions: Seq<PositionView>,
    p: PositionView,
    mask: &Option<Mask>,
)
    ensures
        positions_masked(img, Seq::empty(), mask) == img,
        positions_masked(img, positions.push(p), mask) == masked(
            positions_masked(img, positions, mask),
            Rect { x: p.x, y: p.y, width: p.width, height: p.height },
            mask,
        ),
{
    assert(positions.push(p).drop_last() =~= positions);
}

/// What is left of a picture once everything that the first pass has found is
/// painted over.
pub open spec fn found_masked(
    img: Grid,
    entries: Seq<EntryView>,
    masks: Seq<Option<Option<Mask>>>,
) -> Grid {
    entries_masked(img, entries, masks, ranked(sized(entries)))
}

/// A picture with one entry painted over, if its component could be loaded.
pub open spec fn entry_masked(img: Grid, entry: EntryView, mask: Option<Option<Mask>>) -> Grid {
    match mask {
        Some(mask) => positions_masked(img, entry.positions, &mask),
        None => img,
    }
}

/// What entries are painted over by depends on nothing but them and their masks.
proof fn lemma_same_entries(
    img: Grid,
    entries: Seq<EntryView>,
    masks: Seq<Option<Option<Mask>>>,
    more: Seq<EntryView>,
    more_masks: Seq<Option<Option<Mask>>>,
    order: Seq<SizedEntry>,
)
    requires
        forall|i: int|
            0 <= i < order.len() ==> {
                let k = (#[trigger] order[i]).index as int;
                entries[k] == more[k] && masks[k] == more_masks[k]
            },
    ensures
        entries_masked(img, entries, masks, order) == entries_masked(img, more, more_masks, order),
    decreases order.len(),
{
    if order.len() > 0 {
        let few = order.drop_last();
        assert forall|i: int| 0 <= i < few.len() implies {
            let k = (#[trigger] few[i]).index as int;
            entries[k] == more[k] && masks[k] == more_masks[k]
        } by {
            assert(few[i] == order[i]);
        }
        lemma_same_entries(img, entries, masks, more, more_masks, few);
        assert(order.last() == order[order.len() - 1]);
    }
}

proof fn lemma_first_entry(
    img: Grid,
    entries: Seq<EntryView>,
    masks: Seq<Option<Option<Mask>>>,
    first: SizedEntry,
    order: Seq<SizedEntry>,
)
    ensures
        entries_masked(img, entries, masks, seq![first] + order) == entries_masked(
            entry_masked(img, entries[first.index as int], masks[first.index as int]),
            entries,
            masks,
            order,
        ),
    decreases order.len(),
{
    let all = seq![first] + order;
    if order.len() == 0 {
        assert(all =~= seq![first]);
        assert(all.drop_last() =~= Seq::empty());
        reveal_with_fuel(entries_masked, 3);
    } else {
        lemma_first_entry(img, entries, masks, first, order.drop_last());
        assert(all.drop_last() =~= seq![first] + order.drop_last());
        assert(all.last() == order.last());
    }
}

/// The area of the first position of an entry that has one.
pub open spec fn area_of_first(entry: EntryView) -> int {
    entry.positions[0].width * entry.positions[0].height
}

/// One more entry is one more size.
proof fn lemma_sized_push(entries: Seq<EntryView>, entry: EntryView)
    requires
        entries.len() < usize::MAX,
        areas_fit(entries.push(entry)),
    ensures
        sized(entries.push(entry)) == sized(entries).push(
            SizedEntry { index: entries.len() as usize, area: first_area(entry) as i32 },
        ),
        fits_i32(first_area(entry)),
        forall|i: int|
            0 <= i < entries.len() ==> (#[trigger] sized(entries)[i]).key_value() == first_area(
                entries[i],
            ),
        forall|i: int|
            0 <= i < ranked(sized(entries)).len() ==> (#[trigger] ranked(sized(entries))[i]).index
                < entries.len(),
{
    let more = entries.push(entry);
    let s = sized(entries);
    let n = entries.len() as int;
    assert(more[n] == entry);
    assert(fits_i32(first_area(more[n])));
    assert forall|i: int| 0 <= i < n implies (#[trigger] s[i]).key_value() == first_area(entries[i])
        && s[i].index == i && sized(more)[i] == s[i] by {
        assert(more[i] == entries[i]);
        assert(fits_i32(first_area(more[i])));
    }
    assert(sized(more) =~= s.push(
        SizedEntry { index: n as usize, area: first_area(entry) as i32 },
    ));
    law_ranking_permutes(s);
    let order = ranked(s);
    assert forall|i: int| 0 <= i < order.len() implies (#[trigger] order[i]).index < n by {
        assert(s.contains(order[i]));
        let j = s.index_of(order[i]);
        assert(s[j].index == j);
    }
}

/// An entry that no other undercuts in size is painted over last. The size of an
/// entry is the area of its first position.
pub proof fn law_smallest_masked_last(
    img: Grid,
    entries: Seq<EntryView>,
    masks: Seq<Option<Option<Mask>>>,
    entry: EntryView,
    mask: Option<Option<Mask>>,
)
    requires
        entries.len() < usize::MAX,
        masks.len() == entries.len(),
        areas_fit(entries.push(entry)),
        entry.positions.len() > 0,
        forall|i: int|
            0 <= i < entries.len() ==> (#[trigger] entries[i]).positions.len() > 0 && area_of_first(
                entries[i],
            ) >= area_of_first(entry),
    ensures
        found_masked(img, entries.push(entry), masks.push(mask)) == entry_masked(
            found_masked(img, entries, masks),
            entry,
            mask,
        ),
{
    let (more, more_masks) = (entries.push(entry), masks.push(mask));
    let s = sized(entries);
    let k = SizedEntry { index: entries.len() as usize, area: first_area(entry) as i32 };
    let order = ranked(s);
    lemma_sized_push(entries, entry);
    assert forall|i: int| 0 <= i < s.len() implies (#[trigger] s[i]).key_value() >= k.key_value() by {
        assert(entries[i].positions.len() > 0);
    }
    law_ranking_ends(s, k);
    assert(order.push(k).drop_last() =~= order);
    assert(order.push(k).last() == k);
    lemma_same_entries(img, entries, masks, more, more_masks, order);
}

/// An entry that is larger than all others is painted over first. The size of an
/// entry is the area of its first position.
pub proof fn law_largest_masked_first(
    img: Grid,
    entries: Seq<EntryView>,
    masks: Seq<Option<Option<Mask>>>,
    entry: EntryView,
    mask: Option<Option<Mask>>,
)
    requires
        entries.len() < usize::MAX,
        masks.len() == entries.len(),
        areas_fit(entries.push(entry)),
        entry.positions.len() > 0,
        forall|i: int|
            0 <= i < entries.len() ==> (#[trigger] entries[i]).positions.len() > 0 && area_of_first(
                entries[i],
            ) < area_of_first(entry),
    ensures
        found_masked(img, entries.push(entry), masks.push(mask)) == found_masked(
            entry_masked(img, entry, mask),
            entries,
            masks,
        ),
{
    let (more, more_masks) = (entries.push(entry), masks.push(mask));
    let s = sized(entries);
    let k = SizedEntry { index: entries.len() as usize, area: first_area(entry) as i32 };
    let order = ranked(s);
    lemma_sized_push(entries, entry);
    assert forall|i: int| 0 <= i < s.len() implies (#[trigger] s[i]).key_value() < k.key_value() by {
        assert(entries[i].positions.len() > 0);
    }
    law_ranking_ends(s, k);
    lemma_first_entry(img, more, more_masks, k, order);
    lemma_same_entries(entry_masked(img, entry, mask), entries, masks, more, more_masks, order);
}

/// Where nothing was found, nothing is painted over.
pub proof fn law_nothing_masked(img: Grid)
    ensures
        found_masked(img, Seq::empty(), Seq::empty()) == img,
{
    assert(sized(Seq::empty()) =~= Seq::empty());
}

/// Whether one position lies on a picture, and another one with its border inside
/// it.
pub open spec fn embedded(img: Grid, inner: PositionView, outer: PositionView) -> bool {
    &&& inner.width > 0
    &&& inner.height > 0
    &&& 0 <= outer.x <= inner.x - 2
    &&& 0 <= outer.y <= inner.y - 2
    &&& inner.x + inner.width + 2 <= outer.x + outer.width <= img.cols
    &&& inner.y + inner.height + 2 <= outer.y + outer.height <= img.rows
}

/// Once the component around it is painted over, painting over an embedded one
/// changes nothing: its border has taken the same color.
proof fn lemma_embedded_blends_in(img: Grid, inner: PositionView, outer: PositionView)
    requires
        img.wf(),
        img.readable(),
        img.rows <= i32::MAX,
        img.cols <= i32::MAX,
        embedded(img, inner, outer),
    ensures
        masked(
            masked(img, place_on_picture(outer), &None),
            place_on_picture(inner),
            &None,
        ) == masked(img, place_on_picture(outer), &None),
{
    let (large, small) = (place_on_picture(outer), place_on_picture(inner));
    let one = masked(img, large, &None);
    let two = masked(one, small, &None);
    let q = mean_pixel(border(img, large));
    law_masking_paints_covered(img, large, &None, 0, 0);
    law_masking_paints_covered(one, small, &None, 0, 0);
    assert forall|s: int, d: int|
        (#[trigger] one.at(s, d)) is Some && beside(small, s, d) implies one.at(s, d) == Some(
        q,
    ) by {
        law_masking_paints_covered(img, large, &None, s, d);
    }
    let (s, d) = (small.y as int, small.x - 1);
    law_masking_paints_covered(img, large, &None, s, d);
    assert(one.at(s, d) is Some && beside(small, s, d));
    assert forall|r: int, c: int| on_grid(one.rows, one.cols, r, c) implies (#[trigger] two.at(
        r,
        c,
    )) == one.at(r, c) by {
        law_masking_paints_covered(one, small, &None, r, c);
        law_masking_paints_covered(img, large, &None, r, c);
        if covered(small, &None, r, c) {
            law_masking_stays_within(one, small, &None, q, q, r, c);
        }
    }
    lemma_same_grid(two, one);
}

/// A component that lies embedded in another, larger one is painted over in the
/// color of what lies around the larger one, whichever of the two was found
/// first: the picture is the same as with the larger one alone.
pub proof fn law_embedded_takes_color_around(img: Grid, inner: EntryView, outer: EntryView)
    requires
        img.wf(),
        img.readable(),
        img.rows <= i32::MAX,
        img.cols <= i32::MAX,
        inner.positions.len() == 1,
        outer.positions.len() == 1,
        embedded(img, inner.positions[0], outer.positions[0]),
        fits_i32(area_of_first(outer)),
    ensures
        found_masked(img, seq![inner, outer], seq![Some(None), Some(None)]) == found_masked(
            img,
            seq![outer],
            seq![Some(None)],
        ),
        found_masked(img, seq![outer, inner], seq![Some(None), Some(None)]) == found_masked(
            img,
            seq![outer],
            seq![Some(None)],
        ),
{
    let (p, q) = (inner.positions[0], outer.positions[0]);
    lemma_embedded_smaller(p, q);
    lemma_embedded_blends_in(img, p, q);
    lemma_one_entry(img, outer);
    lemma_smaller_first(img, inner, outer);
    lemma_larger_first(img, inner, outer);
}

proof fn lemma_embedded_smaller(p: PositionView, q: PositionView)
    requires
        0 < p.width < q.width,
        0 < p.height < q.height,
    ensures
        0 <= p.width * p.height < q.width * q.height,
{
    assert(0 <= p.width * p.height < q.width * q.height) by (nonlinear_arith)
        requires
            0 < p.width < q.width,
            0 < p.height < q.height,
    ;
}

proof fn lemma_smaller_first(img: Grid, inner: EntryView, outer: EntryView)
    requires
        inner.positions.len() == 1,
        outer.positions.len() == 1,
        0 <= area_of_first(inner) < area_of_first(outer),
        fits_i32(area_of_first(outer)),
    ensures
        found_masked(img, seq![inner, outer], seq![Some(None), Some(None)]) == masked(
            masked(img, place_on_picture(outer.positions[0]), &None),
            place_on_picture(inner.positions[0]),
            &None,
        ),
{
    let none: Option<Option<Mask>> = Some(None);
    let one = seq![inner];
    assert(seq![inner, outer] =~= one.push(outer));
    assert(seq![none, none] =~= seq![none].push(none));
    assert(areas_fit(one.push(outer))) by {
        assert forall|i: int| 0 <= i < one.push(outer).len() implies fits_i32(
            first_area(#[trigger] one.push(outer)[i]),
        ) by {}
    }
    assert forall|i: int| 0 <= i < one.len() implies (#[trigger] one[i]).positions.len() > 0
        && area_of_first(one[i]) < area_of_first(outer) by {}
    law_largest_masked_first(img, one, seq![none], outer, none);
    lemma_one_position(img, outer.positions);
    lemma_one_entry(masked(img, place_on_picture(outer.positions[0]), &None), inner);
}

proof fn lemma_larger_first(img: Grid, inner: EntryView, outer: EntryView)
    requires
        inner.positions.len() == 1,
        outer.positions.len() == 1,
        0 <= area_of_first(inner) < area_of_first(outer),
        fits_i32(area_of_first(outer)),
    ensures
        found_masked(img, seq![outer, inner], seq![Some(None), Some(None)]) == masked(
            masked(img, place_on_picture(outer.positions[0]), &None),
            place_on_picture(inner.positions[0]),
            &None,
        ),
{
    let none: Option<Option<Mask>> = Some(None);
    let one = seq![outer];
    assert(seq![outer, inner] =~= one.push(inner));
    assert(seq![none, none] =~= seq![none].push(none));
    assert(areas_fit(one.push(inner))) by {
        assert forall|i: int| 0 <= i < one.push(inner).len() implies fits_i32(
            first_area(#[trigger] one.push(inner)[i]),
        ) by {}
    }
    assert forall|i: int| 0 <= i < one.len() implies (#[trigger] one[i]).positions.len() > 0
        && area_of_first(one[i]) >= area_of_first(inner) by {}
    law_smallest_masked_last(img, one, seq![none], inner, none);
    lemma_one_entry(img, outer);
    lemma_one_position(masked(img, place_on_picture(outer.positions[0]), &None), inner.positions);
}

proof fn lemma_one_position(img: Grid, positions: Seq<PositionView>)
    requires
        positions.len() == 1,
    ensures
        positions_masked(img, positions, &None) == masked(
            img,
            place_on_picture(positions[0]),
            &None,
        ),
{
    assert(positions.drop_last() =~= Seq::empty());
    assert(positions_masked(img, positions.drop_last(), &None) == img);
}

proof fn lemma_one_entry(img: Grid, entry: EntryView)
    requires
        entry.positions.len() == 1,
        fits_i32(area_of_first(entry)),
    ensures
        found_masked(img, seq![entry], seq![Some(None)]) == masked(
            img,
            place_on_picture(entry.positions[0]),
            &None,
        ),
{
    let none: Option<Option<Mask>> = Some(None);
    let (no_entries, no_masks) = (Seq::<EntryView>::empty(), Seq::<Option<Option<Mask>>>::empty());
    assert(no_entries.push(entry) =~= seq![entry]);
    assert(no_masks.push(none) =~= seq![none]);
    assert(areas_fit(no_entries.push(entry)));
    law_smallest_masked_last(img, no_entries, no_masks, entry, none);
    law_nothing_masked(img);
    lemma_one_position(img, entry.positions);
}

/// What a search looks for: the thresholds that it tries start where it says and
/// fall by its step, and the first that is reached on the map is the one at which
/// the component is found.
pub proof fn law_search_tries_in_turn(search: Search, scores: &Option<ScoreMap>) -> (k: nat)
    requires
        scores_wf(scores),
    ensures
        forall|j: nat|
            j < k ==> {
                let t = #[trigger] threshold_after(search.start_threshold, search.step, j);
                at_least(t, Double { bits: FLOOR_BITS }) && !reached(scores, t)
            },
        ({
            let last = threshold_after(search.start_threshold, search.step, k);
            match search.end(scores) {
                Descent::Found(threshold, matches) => {
                    &&& threshold == last
                    &&& reached(scores, last)
                    &&& thinned_out(&scores->0, last, search.nms_threshold, positions_of(matches))
                },
                Descent::NotFound => !at_least(last, Double { bits: FLOOR_BITS }),
                Descent::Endless => !reached(scores, last),
            }
        }),
{
    law_descent_reports(scores, search.start_threshold, search.step, search.nms_threshold)
}

} // verus!
