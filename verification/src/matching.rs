//! From the scores of a template at every place of a picture to its matches.
use crate::double::{
    at_least, difference, less, one, one_in_units, opposite, single_units, widened, zero, Double,
    ONE_BITS,
};
use crate::exact::{law_widening_is_exact, lemma_finite, lemma_one, lemma_whole_order};
use crate::overlap::{iou, law_overlap_symmetric, overlap};
use crate::picture::{cell, mask_wf, masked_out, on_grid, place, Mask, Picture, Pixel, Rect};
use crate::ranking::{
    below, falling, law_ranking_falls, law_ranking_parts, law_ranking_permutes, law_ranking_stands,
    lemma_below, rank_between, ranked, reaching, Keyed,
};
use crate::rounding::{distance, law_rounding_error, nearest, units, HIDDEN_BIT};
use crate::variance::{
    counted, law_solid_does_not_vary, lemma_counted_alike, template_variance, variance,
};
use vstd::arithmetic::power2::{lemma_pow2_adds, lemma_pow2_pos, lemma_pow2_unfold, pow2};
use vstd::prelude::*;

verus! {

/// How a template is held against the picture.
#[derive(Clone, Copy, Debug, PartialEq, Eq, Structural)]
pub enum Method {
    /// Normalized squared difference: 0 is perfect, 1 is worst.
    SquaredDifference,
    /// Normalized correlation coefficient: 1 is perfect.
    Correlation,
}

/// What has to be computed to match a template: the method, and the number of
/// places it can take on the picture.
#[derive(Clone, Copy, Debug, PartialEq, Eq, Structural)]
pub struct MatchPlan {
    pub method: Method,
    pub rows: i32,
    pub cols: i32,
}

/// The raw scores of a template of the given size, as binary32 bit patterns,
/// for each place that its top left corner can take, row by row.
#[derive(Clone, Debug, PartialEq, Eq)]
pub struct ScoreMap {
    pub method: Method,
    pub templ_rows: i32,
    pub templ_cols: i32,
    pub rows: i32,
    pub cols: i32,
    pub scores: Vec<u32>,
}

/// A place whose score passed the threshold.
#[derive(Clone, Copy, Debug, PartialEq, Eq, Structural)]
pub struct Candidate {
    pub score: Double,
    pub x: i32,
    pub y: i32,
}

impl Keyed for Candidate {
    open spec fn key_value(self) -> int {
        self.score.rank()
    }

    fn key(&self) -> (k: i64) {
        self.score.rank_bits()
    }
}

/// A place where a template was found, and how well it fits there, from zero to
/// one.
#[derive(Clone, Copy, Debug, PartialEq, Eq, Structural)]
pub struct Match {
    pub score: Double,
    pub rect: Rect,
}

/// A template that hardly varies is matched by squared difference.
pub open spec fn chosen_method(templ: &Picture, mask: &Option<Mask>) -> Method {
    if less(variance(templ, mask), one()) {
        Method::SquaredDifference
    } else {
        Method::Correlation
    }
}

/// What has to be computed to match a template, or nothing where it is larger
/// than the picture.
pub open spec fn planned(rows: int, cols: int, templ: &Picture, mask: &Option<Mask>) -> Option<
    MatchPlan,
> {
    if templ.rows > rows || templ.cols > cols {
        None
    } else {
        Some(
            MatchPlan {
                method: chosen_method(templ, mask),
                rows: (rows - templ.rows + 1) as i32,
                cols: (cols - templ.cols + 1) as i32,
            },
        )
    }
}

/// What has to be computed to match a template, or nothing where it is larger
/// than the picture.
pub fn plan_match(rows: i32, cols: i32, templ: &Picture, mask: &Option<Mask>) -> (plan: Option<MatchPlan>)
    requires
        templ.wf(),
        mask_wf(mask),
        rows - templ.rows < i32::MAX,
        cols - templ.cols < i32::MAX,
    ensures
        plan == planned(rows as int, cols as int, templ, mask),
{
    if templ.rows > rows || templ.cols > cols {
        return None;
    }
    let method: Method = if template_variance(templ, mask).less(Double { bits: ONE_BITS }) {
        Method::SquaredDifference
    } else {
        Method::Correlation
    };
    Some(MatchPlan { method, rows: rows - templ.rows + 1, cols: cols - templ.cols + 1 })
}

impl ScoreMap {
    /// Every place has a score, and the template lies within the range of
    /// coordinates at every place.
    pub open spec fn wf(&self) -> bool {
        &&& self.rows >= 0
        &&& self.cols >= 0
        &&& self.templ_rows >= 0
        &&& self.templ_cols >= 0
        &&& self.scores@.len() == self.rows * self.cols
        &&& self.rows + self.templ_rows <= i32::MAX + 1
        &&& self.cols + self.templ_cols <= i32::MAX + 1
    }

    /// The score in row `r` and column `c`, on the scale where higher is better
    /// and one is perfect.
    pub open spec fn score(&self, r: int, c: int) -> Double {
        let raw = widened(self.scores@[cell(self.cols as int, r, c)]);
        match self.method {
            Method::SquaredDifference => difference(one(), raw),
            Method::Correlation => raw,
        }
    }

    /// The candidate in row `r` and column `c`, if its score is finite and
    /// reaches the threshold.
    pub open spec fn candidate(&self, threshold: Double, r: int, c: int) -> Option<Candidate> {
        let score = self.score(r, c);
        if at_least(score, threshold) && score.finite() {
            Some(Candidate { score, x: c as i32, y: r as i32 })
        } else {
            None
        }
    }

    /// The candidates before row `r` and column `c`, row by row.
    pub open spec fn candidates_before(&self, threshold: Double, r: int, c: int) -> Seq<Candidate>
        decreases r, c,
    {
        if c > 0 {
            let before = self.candidates_before(threshold, r, c - 1);
            match self.candidate(threshold, r, c - 1) {
                Some(k) => before.push(k),
                None => before,
            }
        } else if r > 0 {
            self.candidates_before(threshold, r - 1, self.cols as int)
        } else {
            Seq::empty()
        }
    }

    /// All candidates, row by row.
    pub open spec fn candidates(&self, threshold: Double) -> Seq<Candidate> {
        self.candidates_before(threshold, self.rows as int, 0)
    }

    /// Where the template lies for a candidate.
    pub open spec fn place_of(&self, k: Candidate) -> Rect {
        Rect { x: k.x, y: k.y, width: self.templ_cols, height: self.templ_rows }
    }

    /// The matches at a threshold: the candidates, best first, less those that
    /// overlap an earlier match too much.
    pub open spec fn matches(&self, threshold: Double, nms_threshold: Double) -> Seq<Match> {
        kept(self, ranked(self.candidates(threshold)), nms_threshold)
    }
}

/// A score held within zero and one.
pub open spec fn normalized(score: Double) -> Double {
    if less(score, zero()) {
        zero()
    } else if less(one(), score) {
        one()
    } else {
        score
    }
}

/// Whether a number lies between zero and one.
pub open spec fn is_share(x: Double) -> bool {
    at_least(x, zero()) && at_least(one(), x)
}

/// A score held within zero and one.
fn normalize(score: Double) -> (r: Double)
    ensures
        r == normalized(score),
{
    if score.less(Double { bits: 0 }) {
        Double { bits: 0 }
    } else if (Double { bits: ONE_BITS }).less(score) {
        Double { bits: ONE_BITS }
    } else {
        score
    }
}

/// Whether a rectangle overlaps one of the matches by more than the threshold.
pub open spec fn suppressed(rect: Rect, matches: Seq<Match>, nms_threshold: Double) -> bool {
    exists|i: int|
        0 <= i < matches.len() && less(nms_threshold, overlap(rect, #[trigger] matches[i].rect))
}

/// The candidates, in order, that overlap no earlier kept one by more than the
/// threshold, their scores held within zero and one.
pub open spec fn kept(map: &ScoreMap, s: Seq<Candidate>, nms_threshold: Double) -> Seq<Match>
    decreases s.len(),
{
    if s.len() == 0 {
        Seq::empty()
    } else {
        let before = kept(map, s.drop_last(), nms_threshold);
        let rect = map.place_of(s.last());
        if suppressed(rect, before, nms_threshold) {
            before
        } else {
            before.push(Match { score: normalized(s.last().score), rect })
        }
    }
}

/// Every candidate lies on the map, with a finite score.
spec fn on_map(map: &ScoreMap, s: Seq<Candidate>) -> bool {
    forall|i: int|
        0 <= i < s.len() ==> on_grid(
            map.rows as int,
            map.cols as int,
            (#[trigger] s[i]).y as int,
            s[i].x as int,
        ) && s[i].score.finite()
}

/// The candidates at a threshold, row by row.
fn find_candidates(map: &ScoreMap, threshold: Double) -> (found: Vec<Candidate>)
    requires
        map.wf(),
    ensures
        found@ == map.candidates(threshold),
        on_map(map, found@),
{
    let mut found: Vec<Candidate> = Vec::new();
    let mut r: i32 = 0;
    while r < map.rows
        invariant
            map.wf(),
            0 <= r <= map.rows,
            found@ == map.candidates_before(threshold, r as int, 0),
            on_map(map, found@),
        decreases map.rows - r,
    {
        let mut c: i32 = 0;
        while c < map.cols
            invariant
                map.wf(),
                0 <= r < map.rows,
                0 <= c <= map.cols,
                found@ == map.candidates_before(threshold, r as int, c as int),
                on_map(map, found@),
            decreases map.cols - c,
        {
            let i: usize = place(map.rows, map.cols, r, c, map.scores.len());
            let raw: Double = Double::from_single(map.scores[i]);
            let score: Double = match map.method {
                Method::SquaredDifference => Double { bits: ONE_BITS }.minus(raw),
                Method::Correlation => raw,
            };
            if score.at_least(threshold) && score.is_finite() {
                found.push(Candidate { score, x: c, y: r });
            }
            c = c + 1;
        }
        r = r + 1;
    }
    found
}

/// Every match lies where the template was placed on the map.
pub open spec fn placed(map: &ScoreMap, m: Match) -> bool {
    &&& on_grid(map.rows as int, map.cols as int, m.rect.y as int, m.rect.x as int)
    &&& m.rect.width == map.templ_cols
    &&& m.rect.height == map.templ_rows
}

/// All matches at a threshold, best first, after those that overlap a better
/// one too much are dropped.
pub fn match_template_nms(map: &ScoreMap, threshold: Double, nms_threshold: Double) -> (matches: Vec<Match>)
    requires
        map.wf(),
    ensures
        matches@ == map.matches(threshold, nms_threshold),
        forall|i: int|
            0 <= i < matches@.len() ==> placed(map, #[trigger] matches@[i]) && is_share(
                matches@[i].score,
            ),
{
    let found: Vec<Candidate> = find_candidates(map, threshold);
    let ordered: Vec<Candidate> = rank_between(&found, 0, found.len());
    proof {
        assert(found@.subrange(0, found@.len() as int) =~= found@);
        law_ranking_permutes(found@);
        assert forall|n: int| 0 <= n < ordered@.len() implies on_grid(
            map.rows as int,
            map.cols as int,
            (#[trigger] ordered@[n]).y as int,
            ordered@[n].x as int,
        ) && ordered@[n].score.finite() by {
            assert(ordered@.contains(ordered@[n]));
            assert(found@.contains(ordered@[n]));
            let i = choose|i: int| 0 <= i < found@.len() && found@[i] == ordered@[n];
            assert(on_grid(
                map.rows as int,
                map.cols as int,
                found@[i].y as int,
                found@[i].x as int,
            ));
        }
    }
    let mut matches: Vec<Match> = Vec::new();
    let mut i: usize = 0;
    proof {
        assert(ordered@.take(0) =~= Seq::empty());
    }
    while i < ordered.len()
        invariant
            map.wf(),
            i <= ordered.len(),
            on_map(map, ordered@),
            matches@ == kept(map, ordered@.take(i as int), nms_threshold),
            forall|j: int|
                0 <= j < matches@.len() ==> placed(map, #[trigger] matches@[j]) && is_share(
                    matches@[j].score,
                ),
        decreases ordered.len() - i,
    {
        let k: Candidate = ordered[i];
        let rect: Rect = Rect { x: k.x, y: k.y, width: map.templ_cols, height: map.templ_rows };
        let mut hidden: bool = false;
        let mut j: usize = 0;
        while j < matches.len() && !hidden
            invariant
                map.wf(),
                j <= matches.len(),
                on_grid(map.rows as int, map.cols as int, k.y as int, k.x as int),
                rect == map.place_of(k),
                forall|n: int|
                    0 <= n < matches@.len() ==> placed(map, #[trigger] matches@[n]) && is_share(
                        matches@[n].score,
                    ),
                hidden ==> suppressed(rect, matches@, nms_threshold),
                !hidden ==> forall|n: int|
                    0 <= n < j ==> !less(nms_threshold, overlap(rect, #[trigger] matches@[n].rect)),
            decreases matches.len() - j,
        {
            assert(placed(map, matches@[j as int]));
            if iou(&rect, &matches[j].rect).above(nms_threshold) {
                hidden = true;
            }
            j = j + 1;
        }
        proof {
            assert(ordered@.take(i + 1).drop_last() =~= ordered@.take(i as int));
            assert(ordered@.take(i + 1).last() == k);
        }
        if !hidden {
            matches.push(Match { score: normalize(k.score), rect });
        }
        i = i + 1;
    }
    proof {
        assert(ordered@.take(i as int) =~= ordered@);
    }
    matches
}

/// A template of one solid color is matched by squared difference, whatever its
/// color and its mask.
pub proof fn law_solid_by_difference(templ: &Picture, mask: &Option<Mask>, color: Pixel)
    requires
        counted(templ, mask).len() * 65025 < 2 * HIDDEN_BIT,
        forall|i: int|
            0 <= i < counted(templ, mask).len() ==> #[trigger] counted(templ, mask)[i] == color,
    ensures
        chosen_method(templ, mask) == Method::SquaredDifference,
{
    law_solid_does_not_vary(templ, mask, color);
    lemma_one();
    lemma_whole_order(0, 1);
}

proof fn lemma_candidates(map: &ScoreMap, threshold: Double, r: int, c: int, i: int)
    requires
        map.wf(),
        0 <= r <= map.rows,
        0 <= c <= map.cols,
        r == map.rows ==> c == 0,
        0 <= i < map.candidates_before(threshold, r, c).len(),
    ensures
        ({
            let k = map.candidates_before(threshold, r, c)[i];
            on_grid(map.rows as int, map.cols as int, k.y as int, k.x as int) && map.candidate(
                threshold,
                k.y as int,
                k.x as int,
            ) == Some(k)
        }),
    decreases r, c,
{
    if c > 0 {
        let before = map.candidates_before(threshold, r, c - 1);
        if i < before.len() {
            lemma_candidates(map, threshold, r, c - 1, i);
        }
    } else if r > 0 {
        lemma_candidates(map, threshold, r - 1, map.cols as int, i);
    }
}

proof fn lemma_candidate_listed(map: &ScoreMap, threshold: Double, r: int, c: int, y: int, x: int)
    requires
        map.wf(),
        0 <= r <= map.rows,
        0 <= c <= map.cols,
        on_grid(map.rows as int, map.cols as int, y, x),
        y < r || (y == r && x < c),
        map.candidate(threshold, y, x) is Some,
    ensures
        map.candidates_before(threshold, r, c).contains(map.candidate(threshold, y, x)->0),
    decreases r, c,
{
    let k = map.candidate(threshold, y, x)->0;
    if c > 0 {
        let before = map.candidates_before(threshold, r, c - 1);
        if y == r && x == c - 1 {
            let all = before.push(k);
            assert(all[all.len() - 1] == k);
        } else {
            lemma_candidate_listed(map, threshold, r, c - 1, y, x);
            let i = choose|i: int| 0 <= i < before.len() && before[i] == k;
            assert(map.candidates_before(threshold, r, c)[i] == k);
        }
    } else {
        lemma_candidate_listed(map, threshold, r - 1, map.cols as int, y, x);
    }
}

/// What a candidate says of the map.
pub open spec fn is_candidate(map: &ScoreMap, threshold: Double, score: Double, y: int, x: int) -> bool {
    &&& on_grid(map.rows as int, map.cols as int, y, x)
    &&& score == map.score(y, x)
    &&& score.finite()
    &&& at_least(score, threshold)
}

/// The candidates are the places on the map whose score is finite and reaches
/// the threshold.
pub proof fn law_candidates(map: &ScoreMap, threshold: Double, k: Candidate)
    requires
        map.wf(),
    ensures
        map.candidates(threshold).contains(k) <==> is_candidate(
            map,
            threshold,
            k.score,
            k.y as int,
            k.x as int,
        ),
{
    let all = map.candidates(threshold);
    if all.contains(k) {
        let i = choose|i: int| 0 <= i < all.len() && all[i] == k;
        lemma_candidates(map, threshold, map.rows as int, 0, i);
    }
    if is_candidate(map, threshold, k.score, k.y as int, k.x as int) {
        assert(map.candidate(threshold, k.y as int, k.x as int) == Some(k));
        lemma_candidate_listed(map, threshold, map.rows as int, 0, k.y as int, k.x as int);
    }
}

/// The match that a candidate makes.
pub open spec fn match_of(map: &ScoreMap, k: Candidate) -> Match {
    Match { score: normalized(k.score), rect: map.place_of(k) }
}

proof fn lemma_kept(map: &ScoreMap, s: Seq<Candidate>, nms_threshold: Double)
    ensures
        forall|i: int|
            0 <= i < kept(map, s, nms_threshold).len() ==> exists|n: int|
                0 <= n < s.len() && (#[trigger] kept(map, s, nms_threshold)[i]) == match_of(
                    map,
                    #[trigger] s[n],
                ),
        forall|n: int|
            0 <= n < s.len() ==> kept(map, s, nms_threshold).contains(
                match_of(map, #[trigger] s[n]),
            ) || suppressed(map.place_of(s[n]), kept(map, s, nms_threshold), nms_threshold),
        forall|i: int, j: int|
            0 <= i < j < kept(map, s, nms_threshold).len() ==> !less(
                nms_threshold,
                overlap(
                    (#[trigger] kept(map, s, nms_threshold)[j]).rect,
                    (#[trigger] kept(map, s, nms_threshold)[i]).rect,
                ),
            ),
        s.len() > 0 ==> kept(map, s, nms_threshold).len() > 0 && kept(map, s, nms_threshold)[0]
            == match_of(map, s[0]),
    decreases s.len(),
{
    if s.len() > 0 {
        let few = s.drop_last();
        let before = kept(map, few, nms_threshold);
        let after = kept(map, s, nms_threshold);
        let rect = map.place_of(s.last());
        lemma_kept(map, few, nms_threshold);
        assert forall|i: int| 0 <= i < after.len() implies exists|n: int|
            0 <= n < s.len() && (#[trigger] after[i]) == match_of(map, #[trigger] s[n]) by {
            if i < before.len() {
                assert(after[i] == before[i]);
                let n = choose|n: int|
                    0 <= n < few.len() && before[i] == match_of(map, #[trigger] few[n]);
                assert(s[n] == few[n]);
            } else {
                assert(after[i] == match_of(map, s[s.len() - 1]));
            }
        }
        assert forall|n: int| 0 <= n < s.len() implies after.contains(
            match_of(map, #[trigger] s[n]),
        ) || suppressed(map.place_of(s[n]), after, nms_threshold) by {
            if n < few.len() {
                assert(few[n] == s[n]);
                if before.contains(match_of(map, few[n])) {
                    let i = choose|i: int|
                        0 <= i < before.len() && before[i] == match_of(map, few[n]);
                    assert(after[i] == before[i]);
                } else {
                    let i = choose|i: int|
                        0 <= i < before.len() && less(
                            nms_threshold,
                            overlap(map.place_of(few[n]), #[trigger] before[i].rect),
                        );
                    assert(after[i] == before[i]);
                }
            } else if !suppressed(rect, before, nms_threshold) {
                assert(after[before.len() as int] == match_of(map, s[n]));
            }
        }
        assert forall|i: int, j: int| 0 <= i < j < after.len() implies !less(
            nms_threshold,
            overlap((#[trigger] after[j]).rect, (#[trigger] after[i]).rect),
        ) by {
            assert(after[i] == before[i]);
            if j < before.len() {
                assert(after[j] == before[j]);
            } else {
                assert(after[j].rect == rect);
                assert(!suppressed(rect, before, nms_threshold));
            }
        }
        if few.len() > 0 {
            assert(after[0] == before[0]);
            assert(s[0] == few[0]);
        }
    }
}

proof fn lemma_normalized(score: Double)
    requires
        score.finite(),
    ensures
        is_share(normalized(score)),
{
}

/// Of two finite scores the better one is not reported as worse.
pub proof fn lemma_normalized_order(a: Double, b: Double)
    requires
        a.finite(),
        b.finite(),
        a.rank() >= b.rank(),
    ensures
        at_least(normalized(a), normalized(b)),
{
}

/// The candidate that a match was made of.
proof fn lemma_match_source(map: &ScoreMap, threshold: Double, nms_threshold: Double, i: int) -> (k:
    Candidate)
    requires
        map.wf(),
        0 <= i < map.matches(threshold, nms_threshold).len(),
    ensures
        map.matches(threshold, nms_threshold)[i] == match_of(map, k),
        is_candidate(map, threshold, k.score, k.y as int, k.x as int),
{
    let all = map.candidates(threshold);
    let s = ranked(all);
    lemma_kept(map, s, nms_threshold);
    law_ranking_permutes(all);
    let n = choose|n: int|
        0 <= n < s.len() && map.matches(threshold, nms_threshold)[i] == match_of(
            map,
            #[trigger] s[n],
        );
    assert(s.contains(s[n]));
    law_candidates(map, threshold, s[n]);
    s[n]
}

/// A match lies where the template was placed on the map, reaches the threshold
/// there, and reports the score there, held within zero and one.
pub proof fn law_matches_reach_threshold(
    map: &ScoreMap,
    threshold: Double,
    nms_threshold: Double,
    i: int,
)
    requires
        map.wf(),
        0 <= i < map.matches(threshold, nms_threshold).len(),
    ensures
        ({
            let m = map.matches(threshold, nms_threshold)[i];
            let score = map.score(m.rect.y as int, m.rect.x as int);
            &&& placed(map, m)
            &&& is_candidate(map, threshold, score, m.rect.y as int, m.rect.x as int)
            &&& m.score == normalized(score)
            &&& is_share(m.score)
        }),
{
    let k = lemma_match_source(map, threshold, nms_threshold, i);
    lemma_normalized(k.score);
}

/// Two matches never overlap by more than the threshold for overlaps.
pub proof fn law_matches_lie_apart(
    map: &ScoreMap,
    threshold: Double,
    nms_threshold: Double,
    i: int,
    j: int,
)
    requires
        0 <= i < map.matches(threshold, nms_threshold).len(),
        0 <= j < map.matches(threshold, nms_threshold).len(),
        i != j,
    ensures
        !less(
            nms_threshold,
            overlap(
                map.matches(threshold, nms_threshold)[i].rect,
                map.matches(threshold, nms_threshold)[j].rect,
            ),
        ),
{
    let matches = map.matches(threshold, nms_threshold);
    lemma_kept(map, ranked(map.candidates(threshold)), nms_threshold);
    law_overlap_symmetric(matches[i].rect, matches[j].rect);
    if i < j {
        assert(!less(nms_threshold, overlap(matches[j].rect, matches[i].rect)));
    }
}

/// The best candidate is the first match; so there is a match exactly where
/// some score reaches the threshold.
pub proof fn law_best_is_first(
    map: &ScoreMap,
    threshold: Double,
    nms_threshold: Double,
    k: Candidate,
)
    requires
        map.wf(),
        is_candidate(map, threshold, k.score, k.y as int, k.x as int),
    ensures
        map.matches(threshold, nms_threshold).len() > 0,
        at_least(map.matches(threshold, nms_threshold)[0].score, normalized(k.score)),
{
    let i = law_matches_leave_no_gap(map, threshold, nms_threshold, k.y as int, k.x as int);
    law_matches_reach_threshold(map, threshold, nms_threshold, i);
    let m = map.matches(threshold, nms_threshold)[i];
    lemma_normalized_order(map.score(m.rect.y as int, m.rect.x as int), k.score);
    if i > 0 {
        law_matches_best_first(map, threshold, nms_threshold, 0, i);
    }
}

proof fn lemma_kept_source(map: &ScoreMap, s: Seq<Candidate>, nms_threshold: Double, i: int) -> (j:
    int)
    requires
        0 <= i < kept(map, s, nms_threshold).len(),
    ensures
        0 <= j < s.len(),
        kept(map, s, nms_threshold)[i] == match_of(map, s[j]),
{
    lemma_kept(map, s, nms_threshold);
    choose|j: int|
        0 <= j < s.len() && kept(map, s, nms_threshold)[i] == match_of(map, #[trigger] s[j])
}

/// Whether one of the matches overlaps a candidate by more than the threshold
/// for overlaps, and fits at least as well.
pub open spec fn outdone(
    map: &ScoreMap,
    k: Candidate,
    matches: Seq<Match>,
    nms_threshold: Double,
) -> bool {
    exists|i: int|
        0 <= i < matches.len() && less(
            nms_threshold,
            overlap(map.place_of(k), #[trigger] matches[i].rect),
        ) && at_least(matches[i].score, normalized(k.score))
}

proof fn lemma_outdone(map: &ScoreMap, s: Seq<Candidate>, nms_threshold: Double, n: int)
    requires
        falling(s),
        forall|i: int| 0 <= i < s.len() ==> (#[trigger] s[i]).score.finite(),
        0 <= n < s.len(),
    ensures
        kept(map, s, nms_threshold).contains(match_of(map, s[n])) || outdone(
            map,
            s[n],
            kept(map, s, nms_threshold),
            nms_threshold,
        ),
    decreases s.len(),
{
    let few = s.drop_last();
    let before = kept(map, few, nms_threshold);
    let after = kept(map, s, nms_threshold);
    lemma_falling_front(s);
    assert forall|i: int| 0 <= i < few.len() implies (#[trigger] few[i]).score.finite() by {
        assert(few[i] == s[i]);
    }
    if n < few.len() {
        assert(few[n] == s[n]);
        lemma_outdone(map, few, nms_threshold, n);
        if before.contains(match_of(map, few[n])) {
            let i = choose|i: int| 0 <= i < before.len() && before[i] == match_of(map, few[n]);
            assert(after[i] == before[i]);
        } else {
            let i = choose|i: int|
                0 <= i < before.len() && less(
                    nms_threshold,
                    overlap(map.place_of(few[n]), #[trigger] before[i].rect),
                ) && at_least(before[i].score, normalized(few[n].score));
            assert(after[i] == before[i]);
        }
    } else if suppressed(map.place_of(s[n]), before, nms_threshold) {
        let i = choose|i: int|
            0 <= i < before.len() && less(
                nms_threshold,
                overlap(map.place_of(s[n]), #[trigger] before[i].rect),
            );
        let j = lemma_kept_source(map, few, nms_threshold, i);
        assert(s[j].key_value() >= s[n].key_value());
        lemma_normalized_order(s[j].score, s[n].score);
        assert(after[i] == before[i]);
    } else {
        assert(after[before.len() as int] == match_of(map, s[n]));
    }
}

/// A candidate that is no match overlaps, by more than the threshold for
/// overlaps, a match that fits at least as well.
pub proof fn law_dropped_overlap(
    map: &ScoreMap,
    threshold: Double,
    nms_threshold: Double,
    k: Candidate,
)
    requires
        map.wf(),
        is_candidate(map, threshold, k.score, k.y as int, k.x as int),
    ensures
        map.matches(threshold, nms_threshold).contains(match_of(map, k)) || outdone(
            map,
            k,
            map.matches(threshold, nms_threshold),
            nms_threshold,
        ),
{
    let all = map.candidates(threshold);
    let s = ranked(all);
    law_candidates(map, threshold, k);
    law_ranking_permutes(all);
    law_ranking_falls(all);
    assert forall|i: int| 0 <= i < s.len() implies (#[trigger] s[i]).score.finite() by {
        assert(s.contains(s[i]));
        law_candidates(map, threshold, s[i]);
    }
    assert(s.contains(k));
    let n = choose|n: int| 0 <= n < s.len() && s[n] == k;
    lemma_outdone(map, s, nms_threshold, n);
}

proof fn lemma_falling_front(s: Seq<Candidate>)
    requires
        falling(s),
        s.len() > 0,
    ensures
        falling(s.drop_last()),
{
    let few = s.drop_last();
    assert forall|i: int, j: int| 0 <= i < j < few.len() implies (#[trigger] few[i]).key_value()
        >= (#[trigger] few[j]).key_value() by {
        assert(s[i].key_value() >= s[j].key_value());
    }
}

proof fn lemma_kept_falls(map: &ScoreMap, s: Seq<Candidate>, nms_threshold: Double)
    requires
        falling(s),
        forall|i: int| 0 <= i < s.len() ==> (#[trigger] s[i]).score.finite(),
    ensures
        forall|i: int, j: int|
            0 <= i < j < kept(map, s, nms_threshold).len() ==> (#[trigger] kept(
                map,
                s,
                nms_threshold,
            )[i]).score.rank() >= (#[trigger] kept(map, s, nms_threshold)[j]).score.rank(),
    decreases s.len(),
{
    if s.len() > 0 {
        let few = s.drop_last();
        let before = kept(map, few, nms_threshold);
        let after = kept(map, s, nms_threshold);
        lemma_falling_front(s);
        assert forall|i: int| 0 <= i < few.len() implies (#[trigger] few[i]).score.finite() by {
            assert(few[i] == s[i]);
        }
        lemma_kept_falls(map, few, nms_threshold);
        lemma_kept(map, few, nms_threshold);
        assert forall|i: int, j: int| 0 <= i < j < after.len() implies (
        #[trigger] after[i]).score.rank() >= (#[trigger] after[j]).score.rank() by {
            assert(after[i] == before[i]);
            if j < before.len() {
                assert(after[j] == before[j]);
            } else {
                let n = choose|n: int|
                    0 <= n < few.len() && before[i] == match_of(map, #[trigger] few[n]);
                assert(s[n].key_value() >= s[s.len() - 1].key_value());
                lemma_normalized_order(s[n].score, s[s.len() - 1].score);
            }
        }
    }
}

/// The matches come best first.
pub proof fn law_matches_best_first(
    map: &ScoreMap,
    threshold: Double,
    nms_threshold: Double,
    i: int,
    j: int,
)
    requires
        map.wf(),
        0 <= i < j < map.matches(threshold, nms_threshold).len(),
    ensures
        at_least(
            map.matches(threshold, nms_threshold)[i].score,
            map.matches(threshold, nms_threshold)[j].score,
        ),
{
    let all = map.candidates(threshold);
    let s = ranked(all);
    law_ranking_falls(all);
    law_ranking_permutes(all);
    assert forall|n: int| 0 <= n < s.len() implies (#[trigger] s[n]).score.finite() by {
        assert(s.contains(s[n]));
        law_candidates(map, threshold, s[n]);
    }
    lemma_kept_falls(map, s, nms_threshold);
    law_matches_reach_threshold(map, threshold, nms_threshold, i);
    law_matches_reach_threshold(map, threshold, nms_threshold, j);
}

/// Where a threshold gives a match, every lower one does.
pub proof fn law_lower_threshold_finds(
    map: &ScoreMap,
    high: Double,
    low: Double,
    nms_threshold: Double,
)
    requires
        map.wf(),
        at_least(high, low),
        map.matches(high, nms_threshold).len() > 0,
    ensures
        map.matches(low, nms_threshold).len() > 0,
{
    law_matches_reach_threshold(map, high, nms_threshold, 0);
    let m = map.matches(high, nms_threshold)[0];
    law_best_is_first(
        map,
        low,
        nms_threshold,
        Candidate {
            score: map.score(m.rect.y as int, m.rect.x as int),
            x: m.rect.x,
            y: m.rect.y,
        },
    );
}

/// What stands in the pixels of a template that its mask leaves out has no
/// influence: templates that agree everywhere else vary alike, and are matched
/// in the same way.
pub proof fn law_transparent_pixels_do_not_count(
    rows: int,
    cols: int,
    a: &Picture,
    b: &Picture,
    mask: &Option<Mask>,
)
    requires
        a.rows == b.rows,
        a.cols == b.cols,
        forall|r: int, c: int| !masked_out(mask, r, c) ==> #[trigger] a.at(r, c) == b.at(r, c),
    ensures
        variance(a, mask) == variance(b, mask),
        planned(rows, cols, a, mask) == planned(rows, cols, b, mask),
{
    lemma_counted_alike(a, b, mask, a.rows as int, 0);
}

/// The candidates at a higher threshold are those at a lower one that reach it.
proof fn lemma_candidates_reaching(map: &ScoreMap, high: Double, low: Double, r: int, c: int)
    requires
        at_least(high, low),
    ensures
        map.candidates_before(high, r, c) == reaching(
            map.candidates_before(low, r, c),
            high.rank(),
        ),
    decreases r, c,
{
    if c > 0 {
        lemma_candidates_reaching(map, high, low, r, c - 1);
        let before = map.candidates_before(low, r, c - 1);
        if let Some(k) = map.candidate(low, r, c - 1) {
            assert(before.push(k).drop_last() =~= before);
        }
    } else if r > 0 {
        lemma_candidates_reaching(map, high, low, r - 1, map.cols as int);
    }
}

/// What is kept of a list starts with what is kept of its start, and goes on
/// with matches of the rest.
proof fn lemma_kept_in_parts(map: &ScoreMap, p: Seq<Candidate>, q: Seq<Candidate>, nms: Double)
    ensures
        kept(map, p, nms).len() <= kept(map, p + q, nms).len(),
        kept(map, p + q, nms).take(kept(map, p, nms).len() as int) == kept(map, p, nms),
        forall|i: int|
            kept(map, p, nms).len() <= i < kept(map, p + q, nms).len() ==> exists|j: int|
                0 <= j < q.len() && (#[trigger] kept(map, p + q, nms)[i]) == match_of(
                    map,
                    #[trigger] q[j],
                ),
    decreases q.len(),
{
    let first = kept(map, p, nms);
    if q.len() == 0 {
        assert(p + q =~= p);
        assert(first.take(first.len() as int) =~= first);
    } else {
        let few = q.drop_last();
        lemma_kept_in_parts(map, p, few, nms);
        assert((p + q).drop_last() =~= p + few);
        assert((p + q).last() == q.last());
        let before = kept(map, p + few, nms);
        let all = kept(map, p + q, nms);
        assert(all.take(first.len() as int) =~= before.take(first.len() as int));
        assert forall|i: int| first.len() <= i < all.len() implies exists|j: int|
            0 <= j < q.len() && (#[trigger] all[i]) == match_of(map, #[trigger] q[j]) by {
            if i < before.len() {
                assert(all[i] == before[i]);
                let j = choose|j: int|
                    0 <= j < few.len() && before[i] == match_of(map, #[trigger] few[j]);
                assert(q[j] == few[j]);
            } else {
                assert(all[i] == match_of(map, q[q.len() - 1]));
            }
        }
    }
}

/// The raw score of the map where a match lies.
pub open spec fn score_behind(map: &ScoreMap, m: Match) -> Double {
    map.score(m.rect.y as int, m.rect.x as int)
}

/// Lowering the threshold only adds matches at the end, and never drops or
/// replaces one: the matches at a higher threshold are the first of those at a
/// lower one, namely those whose score on the map reaches the higher threshold.
pub proof fn law_lower_threshold_adds(
    map: &ScoreMap,
    high: Double,
    low: Double,
    nms_threshold: Double,
)
    requires
        map.wf(),
        at_least(high, low),
    ensures
        ({
            let few = map.matches(high, nms_threshold);
            let all = map.matches(low, nms_threshold);
            &&& few.len() <= all.len()
            &&& few == all.take(few.len() as int)
            &&& forall|i: int|
                0 <= i < all.len() ==> (i < few.len() <==> at_least(
                    score_behind(map, #[trigger] all[i]),
                    high,
                ))
        }),
{
    let c = map.candidates(low);
    let bar = high.rank();
    let p = ranked(reaching(c, bar));
    let q = ranked(below(c, bar));
    let few = map.matches(high, nms_threshold);
    let all = map.matches(low, nms_threshold);
    lemma_candidates_reaching(map, high, low, map.rows as int, 0);
    law_ranking_parts(c, bar);
    lemma_kept_in_parts(map, p, q, nms_threshold);
    law_ranking_permutes(below(c, bar));
    assert forall|i: int| 0 <= i < all.len() implies (i < few.len() <==> at_least(
        score_behind(map, #[trigger] all[i]),
        high,
    )) by {
        if i < few.len() {
            assert(all[i] == all.take(few.len() as int)[i]);
            law_matches_reach_threshold(map, high, nms_threshold, i);
        } else {
            let j = choose|j: int|
                0 <= j < q.len() && all[i] == match_of(map, #[trigger] q[j]);
            assert(q.contains(q[j]));
            assert(below(c, bar).contains(q[j]));
            lemma_below(c, bar, q[j]);
            law_candidates(map, low, q[j]);
        }
    }
}

/// Whether one place of the map comes before another: it scores better there, or
/// equally well and lies further up, or in the same row and further left.
pub open spec fn goes_before(map: &ScoreMap, y: int, x: int, r: int, c: int) -> bool {
    let (first, second) = (map.score(y, x), map.score(r, c));
    ||| less(second, first)
    ||| at_least(first, second) && (y < r || (y == r && x < c))
}

/// Whether one candidate lies before another, row by row.
spec fn lies_before(a: Candidate, b: Candidate) -> bool {
    a.y < b.y || (a.y == b.y && a.x < b.x)
}

proof fn lemma_candidates_in_order(map: &ScoreMap, threshold: Double, r: int, c: int)
    requires
        map.wf(),
        0 <= r <= map.rows,
        0 <= c <= map.cols,
        r == map.rows ==> c == 0,
    ensures
        forall|i: int|
            0 <= i < map.candidates_before(threshold, r, c).len() ==> ({
                let k = #[trigger] map.candidates_before(threshold, r, c)[i];
                k.y < r || (k.y == r && k.x < c)
            }),
        forall|i: int, j: int|
            0 <= i < j < map.candidates_before(threshold, r, c).len() ==> lies_before(
                #[trigger] map.candidates_before(threshold, r, c)[i],
                #[trigger] map.candidates_before(threshold, r, c)[j],
            ),
    decreases r, c,
{
    let all = map.candidates_before(threshold, r, c);
    if c > 0 {
        let few = map.candidates_before(threshold, r, c - 1);
        lemma_candidates_in_order(map, threshold, r, c - 1);
        assert forall|i: int| 0 <= i < all.len() implies ({
            let k = #[trigger] all[i];
            k.y < r || (k.y == r && k.x < c)
        }) by {
            if i < few.len() {
                assert(all[i] == few[i]);
            }
        }
        assert forall|i: int, j: int| 0 <= i < j < all.len() implies lies_before(
            #[trigger] all[i],
            #[trigger] all[j],
        ) by {
            assert(all[i] == few[i]);
            if j < few.len() {
                assert(all[j] == few[j]);
            }
        }
    } else if r > 0 {
        lemma_candidates_in_order(map, threshold, r - 1, map.cols as int);
        assert(all == map.candidates_before(threshold, r - 1, map.cols as int));
        assert forall|i: int| 0 <= i < all.len() implies ({
            let k = #[trigger] all[i];
            k.y < r || (k.y == r && k.x < c)
        }) by {
            lemma_candidates(map, threshold, r, c, i);
            assert(all[i] == map.candidates_before(threshold, r - 1, map.cols as int)[i]);
        }
    }
}

/// The ranked candidates: where they come from, and how they stand.
proof fn lemma_ranked_candidates(map: &ScoreMap, threshold: Double)
    requires
        map.wf(),
    ensures
        forall|n: int|
            0 <= n < ranked(map.candidates(threshold)).len() ==> ({
                let k = #[trigger] ranked(map.candidates(threshold))[n];
                is_candidate(map, threshold, k.score, k.y as int, k.x as int)
            }),
        forall|i: int, j: int|
            0 <= i < j < ranked(map.candidates(threshold)).len() ==> ({
                let a = #[trigger] ranked(map.candidates(threshold))[i];
                let b = #[trigger] ranked(map.candidates(threshold))[j];
                goes_before(map, a.y as int, a.x as int, b.y as int, b.x as int)
            }),
{
    let all = map.candidates(threshold);
    let s = ranked(all);
    law_ranking_permutes(all);
    lemma_candidates_in_order(map, threshold, map.rows as int, 0);
    let before = |a: Candidate, b: Candidate| lies_before(a, b);
    assert forall|i: int, j: int| 0 <= i < j < all.len() implies before(
        #[trigger] all[i],
        #[trigger] all[j],
    ) by {}
    law_ranking_stands(all, before);
    assert forall|n: int| 0 <= n < s.len() implies ({
        let k = #[trigger] s[n];
        is_candidate(map, threshold, k.score, k.y as int, k.x as int)
    }) by {
        assert(s.contains(s[n]));
        law_candidates(map, threshold, s[n]);
    }
}

/// The numbers of the candidates that are kept.
spec fn kept_numbers(map: &ScoreMap, s: Seq<Candidate>, nms_threshold: Double) -> Seq<int>
    decreases s.len(),
{
    if s.len() == 0 {
        Seq::empty()
    } else {
        let before = kept_numbers(map, s.drop_last(), nms_threshold);
        if suppressed(
            map.place_of(s.last()),
            kept(map, s.drop_last(), nms_threshold),
            nms_threshold,
        ) {
            before
        } else {
            before.push(s.len() - 1)
        }
    }
}

/// Whether some numbers are below a limit, and each is below the next.
spec fn rising(from: Seq<int>, limit: int) -> bool {
    &&& forall|i: int| 0 <= i < from.len() ==> 0 <= #[trigger] from[i] < limit
    &&& forall|i: int, j: int| 0 <= i < j < from.len() ==> #[trigger] from[i] < #[trigger] from[j]
}

proof fn lemma_kept_numbers(map: &ScoreMap, s: Seq<Candidate>, nms_threshold: Double)
    ensures
        rising(kept_numbers(map, s, nms_threshold), s.len() as int),
        kept(map, s, nms_threshold) == kept_numbers(map, s, nms_threshold).map_values(
            |n: int| match_of(map, s[n]),
        ),
    decreases s.len(),
{
    let f = |n: int| match_of(map, s[n]);
    if s.len() == 0 {
        assert(kept(map, s, nms_threshold) =~= Seq::<int>::empty().map_values(f));
    } else {
        let few = s.drop_last();
        let g = |n: int| match_of(map, few[n]);
        lemma_kept_numbers(map, few, nms_threshold);
        let some = kept_numbers(map, few, nms_threshold);
        let from = kept_numbers(map, s, nms_threshold);
        assert(some.map_values(f) =~= some.map_values(g)) by {
            assert forall|i: int| 0 <= i < some.len() implies f(some[i]) == g(some[i]) by {
                assert(s[some[i]] == few[some[i]]);
            }
        }
        if from.len() > some.len() {
            assert(from.map_values(f) =~= some.map_values(f).push(match_of(map, s.last())));
            assert(rising(from, s.len() as int)) by {
                assert forall|i: int, j: int| 0 <= i < j < from.len() implies #[trigger] from[i]
                    < #[trigger] from[j] by {
                    assert(from[i] == some[i]);
                    if j < some.len() {
                        assert(from[j] == some[j]);
                    }
                }
            }
        }
    }
}

/// The number of a match that hides a candidate, or is made of it.
proof fn lemma_kept_or_hidden(map: &ScoreMap, s: Seq<Candidate>, nms_threshold: Double, n: int) -> (i:
    int)
    requires
        0 <= n < s.len(),
    ensures
        0 <= i < kept(map, s, nms_threshold).len(),
        i < kept_numbers(map, s, nms_threshold).len(),
        kept_numbers(map, s, nms_threshold)[i] == n || (kept_numbers(map, s, nms_threshold)[i] < n
            && less(
            nms_threshold,
            overlap(map.place_of(s[n]), kept(map, s, nms_threshold)[i].rect),
        )),
    decreases s.len(),
{
    let few = s.drop_last();
    let before = kept(map, few, nms_threshold);
    lemma_kept_numbers(map, s, nms_threshold);
    lemma_kept_numbers(map, few, nms_threshold);
    if n < few.len() {
        assert(few[n] == s[n]);
        lemma_kept_or_hidden(map, few, nms_threshold, n)
    } else if suppressed(map.place_of(s.last()), before, nms_threshold) {
        let i = choose|i: int|
            0 <= i < before.len() && less(
                nms_threshold,
                overlap(map.place_of(s.last()), #[trigger] before[i].rect),
            );
        i
    } else {
        before.len() as int
    }
}

/// The matches come in order: those that score better on the map first, and of
/// those that score equally well the one further up, or further left.
pub proof fn law_matches_in_order(
    map: &ScoreMap,
    threshold: Double,
    nms_threshold: Double,
    i: int,
    j: int,
)
    requires
        map.wf(),
        0 <= i < j < map.matches(threshold, nms_threshold).len(),
    ensures
        ({
            let a = map.matches(threshold, nms_threshold)[i].rect;
            let b = map.matches(threshold, nms_threshold)[j].rect;
            goes_before(map, a.y as int, a.x as int, b.y as int, b.x as int)
        }),
{
    let s = ranked(map.candidates(threshold));
    lemma_ranked_candidates(map, threshold);
    lemma_kept_numbers(map, s, nms_threshold);
    let from = kept_numbers(map, s, nms_threshold);
    assert(from[i] < from[j]);
    let (a, b) = (s[from[i]], s[from[j]]);
    assert(goes_before(map, a.y as int, a.x as int, b.y as int, b.x as int));
}

/// A place that reaches the threshold is either a match, or overlaps a match that
/// comes before it by more than the threshold for overlaps.
pub proof fn law_matches_leave_no_gap(
    map: &ScoreMap,
    threshold: Double,
    nms_threshold: Double,
    r: int,
    c: int,
) -> (i: int)
    requires
        map.wf(),
        on_grid(map.rows as int, map.cols as int, r, c),
        map.score(r, c).finite(),
        at_least(map.score(r, c), threshold),
    ensures
        0 <= i < map.matches(threshold, nms_threshold).len(),
        ({
            let rect = Rect {
                x: c as i32,
                y: r as i32,
                width: map.templ_cols,
                height: map.templ_rows,
            };
            let m = map.matches(threshold, nms_threshold)[i];
            m.rect == rect || (goes_before(map, m.rect.y as int, m.rect.x as int, r, c) && less(
                nms_threshold,
                overlap(rect, m.rect),
            ))
        }),
{
    let all = map.candidates(threshold);
    let s = ranked(all);
    let k = Candidate { score: map.score(r, c), x: c as i32, y: r as i32 };
    law_candidates(map, threshold, k);
    law_ranking_permutes(all);
    lemma_ranked_candidates(map, threshold);
    lemma_kept_numbers(map, s, nms_threshold);
    let from = kept_numbers(map, s, nms_threshold);
    assert(s.contains(k));
    let n = s.index_of(k);
    let i = lemma_kept_or_hidden(map, s, nms_threshold, n);
    let a = s[from[i]];
    if from[i] < n {
        assert(goes_before(map, a.y as int, a.x as int, s[n].y as int, s[n].x as int));
    }
    i
}

/// A template has a place in each row from which it does not reach over the last
/// row of the picture, and in each column likewise. Where it is larger than the
/// picture it is not matched at all.
pub proof fn law_plan_counts_places(
    rows: int,
    cols: int,
    templ: &Picture,
    mask: &Option<Mask>,
    i: int,
)
    requires
        0 <= rows <= i32::MAX,
        0 <= cols <= i32::MAX,
        templ.rows > 0,
        templ.cols > 0,
    ensures
        planned(rows, cols, templ, mask) is None <==> templ.rows > rows || templ.cols > cols,
        planned(rows, cols, templ, mask) matches Some(plan) ==> {
            &&& plan.rows > 0 && plan.cols > 0
            &&& i < plan.rows <==> i + templ.rows <= rows
            &&& i < plan.cols <==> i + templ.cols <= cols
            &&& plan.method == Method::SquaredDifference <==> less(variance(templ, mask), one())
        },
{
}

/// A correlation scores as it is, and a squared difference by what it leaves of
/// one, up to the error of the arithmetic, so that a smaller one scores better.
pub proof fn law_score(map: &ScoreMap, r: int, c: int)
    requires
        map.wf(),
        on_grid(map.rows as int, map.cols as int, r, c),
        map.scores@[r * map.cols + c] % 0x8000_0000 < 0x7f80_0000,
    ensures
        ({
            let bits = map.scores@[r * map.cols + c];
            let size = single_units((bits % 0x8000_0000) as nat);
            let raw = if bits >= 0x8000_0000 {
                -(size as int)
            } else {
                size as int
            };
            let score = map.score(r, c);
            match map.method {
                Method::Correlation => score.finite() && score.value() == raw,
                Method::SquaredDifference => size <= one_in_units() ==> score.finite() && distance(
                    score.value(),
                    one_in_units() - raw,
                ) <= pow2(1022),
            }
        }),
{
    let bits = map.scores@[r * map.cols + c];
    let raw = widened(bits);
    law_widening_is_exact(bits);
    lemma_one();
    let size = units(raw.magnitude());
    if map.method == Method::SquaredDifference && size <= one_in_units() {
        let u = one_in_units();
        let n = (u - raw.value()) as nat;
        let o = opposite(raw);
        assert(o.magnitude() == raw.magnitude() && o.negative() == !raw.negative());
        assert(o.value() == -raw.value());
        assert(one().value() == u);
        vstd::arithmetic::power2::lemma2_to64();
        vstd::arithmetic::power2::lemma2_to64_rest();
        lemma_pow2_adds(53, 1021);
        lemma_pow2_unfold(1022);
        lemma_pow2_pos(1021);
        assert(n <= 2 * u);
        assert(2 * u <= 2 * HIDDEN_BIT * pow2(1022)) by (nonlinear_arith)
            requires
                u == 0x20_0000_0000_0000 * pow2(1021),
                pow2(1022) == 2 * pow2(1021),
                HIDDEN_BIT == 0x10_0000_0000_0000,
                pow2(1021) > 0,
        ;
        law_rounding_error(n, 1, 1022);
        lemma_finite(nearest(n, 1), 4);
        assert(units(0) == 0);
    }
}

/// A score from zero to one is reported as it is, one below as zero and one above
/// as one.
pub proof fn law_normalized_holds_within(score: Double)
    requires
        !score.nan(),
    ensures
        is_share(normalized(score)),
        is_share(score) ==> normalized(score) == score,
        less(score, zero()) ==> normalized(score) == zero(),
        less(one(), score) ==> normalized(score) == one(),
{
}

} // verus!
