//! Ordering items by falling key, those of equal key in their first order.
use vstd::prelude::*;

verus! {

/// An item that is ordered by a whole number.
pub trait Keyed: Sized {
    spec fn key_value(self) -> int;

    fn key(&self) -> (k: i64)
        ensures
            k == self.key_value(),
    ;
}

/// `k` put into a list in front of every item at its end with a smaller key.
pub open spec fn inserted<T: Keyed>(s: Seq<T>, k: T) -> Seq<T>
    decreases s.len(),
{
    if s.len() == 0 || s.last().key_value() >= k.key_value() {
        s.push(k)
    } else {
        inserted(s.drop_last(), k).push(s.last())
    }
}

/// The items by falling key, those of equal key in their first order.
pub open spec fn ranked<T: Keyed>(s: Seq<T>) -> Seq<T>
    decreases s.len(),
{
    if s.len() == 0 {
        s
    } else {
        inserted(ranked(s.drop_last()), s.last())
    }
}

/// Two lists by falling key joined into one; on a tie the first list leads.
spec fn joined<T: Keyed>(p: Seq<T>, q: Seq<T>) -> Seq<T>
    decreases p.len() + q.len(),
{
    if p.len() == 0 {
        q
    } else if q.len() == 0 {
        p
    } else if p.last().key_value() >= q.last().key_value() {
        joined(p, q.drop_last()).push(q.last())
    } else {
        joined(p.drop_last(), q).push(p.last())
    }
}

proof fn lemma_inserted_ends<T: Keyed>(q: Seq<T>, k: T)
    ensures
        inserted(q, k).len() == q.len() + 1,
        q.len() > 0 && q.last().key_value() < k.key_value() ==> inserted(q, k).last() == q.last()
            && inserted(q, k).drop_last() == inserted(q.drop_last(), k),
        q.len() == 0 || q.last().key_value() >= k.key_value() ==> inserted(q, k).last() == k
            && inserted(q, k).drop_last() == q,
    decreases q.len(),
{
    if q.len() == 0 || q.last().key_value() >= k.key_value() {
        assert(q.push(k).drop_last() =~= q);
    } else {
        lemma_inserted_ends(q.drop_last(), k);
        assert(inserted(q.drop_last(), k).push(q.last()).drop_last() =~= inserted(q.drop_last(), k));
    }
}

/// Inserting into a join is inserting into its second list.
proof fn lemma_insert_into_join<T: Keyed>(p: Seq<T>, q: Seq<T>, k: T)
    ensures
        inserted(joined(p, q), k) == joined(p, inserted(q, k)),
    decreases p.len() + q.len(),
{
    lemma_inserted_ends(q, k);
    if p.len() == 0 {
    } else if q.len() == 0 {
        lemma_inserted_ends(p, k);
        assert(inserted(q, k) =~= seq![k]);
        assert(seq![k].drop_last() =~= q);
        if p.last().key_value() >= k.key_value() {
        } else {
            lemma_insert_into_join(p.drop_last(), q, k);
        }
    } else if p.last().key_value() >= q.last().key_value() {
        let j = joined(p, q.drop_last());
        assert(j.push(q.last()).drop_last() =~= j);
        if q.last().key_value() >= k.key_value() {
            assert(q.push(k).drop_last() =~= q);
        } else {
            lemma_insert_into_join(p, q.drop_last(), k);
        }
    } else {
        let j = joined(p.drop_last(), q);
        assert(j.push(p.last()).drop_last() =~= j);
        if p.last().key_value() >= k.key_value() {
            assert(q.push(k).drop_last() =~= q);
        } else {
            lemma_insert_into_join(p.drop_last(), q, k);
        }
    }
}

/// Ranking the halves and joining them ranks the whole.
proof fn lemma_ranked_halves<T: Keyed>(p: Seq<T>, q: Seq<T>)
    ensures
        ranked(p + q) == joined(ranked(p), ranked(q)),
    decreases q.len(),
{
    if q.len() == 0 {
        assert(p + q =~= p);
    } else {
        assert((p + q).drop_last() =~= p + q.drop_last());
        lemma_ranked_halves(p, q.drop_last());
        lemma_insert_into_join(ranked(p), ranked(q.drop_last()), q.last());
    }
}

/// Joins two lists by falling key.
fn join<T: Keyed + Copy>(p: &Vec<T>, q: &Vec<T>) -> (r: Vec<T>)
    ensures
        r@ == joined(p@, q@),
{
    let mut i: usize = p.len();
    let mut j: usize = q.len();
    let mut back: Vec<T> = Vec::new();
    proof {
        assert(p@.take(i as int) =~= p@);
        assert(q@.take(j as int) =~= q@);
        assert(joined(p@, q@) =~= joined(p@, q@) + back@.reverse());
    }
    while i > 0 || j > 0
        invariant
            i <= p.len(),
            j <= q.len(),
            joined(p@, q@) == joined(p@.take(i as int), q@.take(j as int)) + back@.reverse(),
        decreases i + j,
    {
        let ghost pi = p@.take(i as int);
        let ghost qj = q@.take(j as int);
        let ghost was = back@;
        let from_first: bool = if i == 0 {
            false
        } else if j == 0 {
            true
        } else {
            p[i - 1].key() < q[j - 1].key()
        };
        if from_first {
            proof {
                assert(pi.drop_last() =~= p@.take(i - 1));
                if j == 0 {
                    assert(qj =~= Seq::empty());
                    assert(joined(p@.take(i - 1), qj) =~= p@.take(i - 1));
                    assert(pi =~= p@.take(i - 1).push(p@[i - 1]));
                }
            }
            i = i - 1;
            back.push(p[i]);
        } else {
            proof {
                assert(qj.drop_last() =~= q@.take(j - 1));
                if i == 0 {
                    assert(pi =~= Seq::empty());
                    assert(qj =~= q@.take(j - 1).push(q@[j - 1]));
                }
            }
            j = j - 1;
            back.push(q[j]);
        }
        proof {
            let k = back@.last();
            assert(joined(pi, qj) =~= joined(p@.take(i as int), q@.take(j as int)).push(k));
            assert(back@.reverse() =~= seq![k] + was.reverse());
            assert(joined(p@.take(i as int), q@.take(j as int)).push(k) + was.reverse() =~= joined(
                p@.take(i as int),
                q@.take(j as int),
            ) + (seq![k] + was.reverse()));
        }
    }
    let ghost all = back@;
    let mut r: Vec<T> = Vec::new();
    proof {
        assert(p@.take(0) =~= Seq::empty());
        assert(q@.take(0) =~= Seq::empty());
        assert(joined(p@, q@) =~= all.reverse());
        assert(all.reverse() =~= r@ + back@.reverse());
    }
    while back.len() > 0
        invariant
            all.reverse() == r@ + back@.reverse(),
        decreases back.len(),
    {
        let ghost was = back@;
        let ghost had = r@;
        if let Some(k) = back.pop() {
            r.push(k);
            proof {
                assert(was.reverse() =~= seq![k] + back@.reverse());
                assert(had + (seq![k] + back@.reverse()) =~= r@ + back@.reverse());
            }
        }
    }
    proof {
        assert(r@ + back@.reverse() =~= r@);
    }
    r
}

/// Ranks the items from `lo` up to `hi`.
pub(crate) fn rank_between<T: Keyed + Copy>(s: &Vec<T>, lo: usize, hi: usize) -> (r: Vec<T>)
    requires
        lo <= hi <= s.len(),
    ensures
        r@ == ranked(s@.subrange(lo as int, hi as int)),
    decreases hi - lo,
{
    let ghost part = s@.subrange(lo as int, hi as int);
    if hi - lo <= 1 {
        let mut r: Vec<T> = Vec::new();
        if hi - lo == 1 {
            r.push(s[lo]);
            proof {
                reveal_with_fuel(ranked, 2);
                assert(part.drop_last() =~= Seq::empty());
                assert(r@ =~= Seq::empty().push(part.last()));
            }
        } else {
            assert(r@ =~= part);
        }
        return r;
    }
    let mid: usize = lo + (hi - lo) / 2;
    let first: Vec<T> = rank_between(s, lo, mid);
    let second: Vec<T> = rank_between(s, mid, hi);
    proof {
        let p = s@.subrange(lo as int, mid as int);
        let q = s@.subrange(mid as int, hi as int);
        assert(part =~= p + q);
        lemma_ranked_halves(p, q);
    }
    join(&first, &second)
}

proof fn lemma_inserted_permutes<T: Keyed>(s: Seq<T>, k: T)
    ensures
        inserted(s, k).to_multiset() == s.push(k).to_multiset(),
    decreases s.len(),
{
    broadcast use vstd::seq_lib::group_to_multiset_ensures;

    if s.len() == 0 || s.last().key_value() >= k.key_value() {
    } else {
        lemma_inserted_permutes(s.drop_last(), k);
        assert(s =~= s.drop_last().push(s.last()));
        assert(inserted(s, k).to_multiset() =~= s.push(k).to_multiset());
    }
}

/// Ranking neither drops nor adds an item.
pub proof fn law_ranking_permutes<T: Keyed>(s: Seq<T>)
    ensures
        ranked(s).to_multiset() == s.to_multiset(),
        ranked(s).len() == s.len(),
        forall|k: T| ranked(s).contains(k) <==> s.contains(k),
    decreases s.len(),
{
    broadcast use vstd::seq_lib::group_to_multiset_ensures;

    if s.len() > 0 {
        law_ranking_permutes(s.drop_last());
        lemma_inserted_permutes(ranked(s.drop_last()), s.last());
        assert(s =~= s.drop_last().push(s.last()));
    }
    assert(ranked(s).len() == ranked(s).to_multiset().len());
    assert(s.len() == s.to_multiset().len());
    assert forall|k: T| ranked(s).contains(k) <==> s.contains(k) by {
        assert(ranked(s).contains(k) <==> ranked(s).to_multiset().count(k) > 0);
        assert(s.contains(k) <==> s.to_multiset().count(k) > 0);
    }
}

/// Whether no item has a smaller key than a later one.
pub open spec fn falling<T: Keyed>(s: Seq<T>) -> bool {
    forall|i: int, j: int|
        0 <= i < j < s.len() ==> (#[trigger] s[i]).key_value() >= (#[trigger] s[j]).key_value()
}

proof fn lemma_inserted_falls<T: Keyed>(s: Seq<T>, k: T)
    requires
        falling(s),
    ensures
        falling(inserted(s, k)),
        inserted(s, k).len() == s.len() + 1,
        inserted(s, k).last().key_value() == (if s.len() > 0 && s.last().key_value()
            < k.key_value() {
            s.last().key_value()
        } else {
            k.key_value()
        }),
    decreases s.len(),
{
    if s.len() == 0 || s.last().key_value() >= k.key_value() {
        assert forall|i: int, j: int| 0 <= i < j < s.push(k).len() implies (#[trigger] s.push(
            k,
        )[i]).key_value() >= (#[trigger] s.push(k)[j]).key_value() by {
            if j == s.len() && i < s.len() - 1 {
                assert(s[i].key_value() >= s[s.len() - 1].key_value());
            }
        }
    } else {
        lemma_inserted_falls(s.drop_last(), k);
        let front = inserted(s.drop_last(), k);
        let all = front.push(s.last());
        assert forall|i: int, j: int| 0 <= i < j < all.len() implies (
        #[trigger] all[i]).key_value() >= (#[trigger] all[j]).key_value() by {
            if j == front.len() {
                if i < front.len() - 1 {
                    assert(front[i].key_value() >= front[front.len() - 1].key_value());
                }
                if s.len() > 1 {
                    assert(s[s.len() - 2].key_value() >= s[s.len() - 1].key_value());
                }
            }
        }
    }
}

/// Ranking puts no item before one with a larger key.
pub proof fn law_ranking_falls<T: Keyed>(s: Seq<T>)
    ensures
        falling(ranked(s)),
    decreases s.len(),
{
    if s.len() > 0 {
        law_ranking_falls(s.drop_last());
        lemma_inserted_falls(ranked(s.drop_last()), s.last());
    }
}

proof fn lemma_inserted_keeps_ties<T: Keyed>(s: Seq<T>, k: T, key: int)
    ensures
        inserted(s, k).filter(|x: T| x.key_value() == key) == s.push(k).filter(
            |x: T| x.key_value() == key,
        ),
    decreases s.len(),
{
    reveal(Seq::filter);
    let tied = |x: T| x.key_value() == key;
    if s.len() == 0 || s.last().key_value() >= k.key_value() {
    } else {
        let front = inserted(s.drop_last(), k);
        lemma_inserted_keeps_ties(s.drop_last(), k, key);
        assert(front.push(s.last()).drop_last() =~= front);
        assert(s.push(k).drop_last() =~= s);
        assert(s.drop_last().push(k).drop_last() =~= s.drop_last());
        let few = s.drop_last().filter(tied);
        assert(s.filter(tied) == if tied(s.last()) {
            few.push(s.last())
        } else {
            few
        });
        assert(s.push(k).filter(tied) == if tied(k) {
            s.filter(tied).push(k)
        } else {
            s.filter(tied)
        });
        assert(front.filter(tied) == if tied(k) {
            few.push(k)
        } else {
            few
        });
        assert(inserted(s, k).filter(tied) == if tied(s.last()) {
            front.filter(tied).push(s.last())
        } else {
            front.filter(tied)
        });
    }
}

/// Items of equal key keep their first order.
pub proof fn law_ranking_keeps_ties<T: Keyed>(s: Seq<T>, key: int)
    ensures
        ranked(s).filter(|x: T| x.key_value() == key) == s.filter(|x: T| x.key_value() == key),
    decreases s.len(),
{
    reveal(Seq::filter);
    if s.len() > 0 {
        let front = ranked(s.drop_last());
        law_ranking_keeps_ties(s.drop_last(), key);
        lemma_inserted_keeps_ties(front, s.last(), key);
        assert(front.push(s.last()).drop_last() =~= front);
    }
}

/// The items whose key reaches a bar, in order.
pub open spec fn reaching<T: Keyed>(s: Seq<T>, bar: int) -> Seq<T>
    decreases s.len(),
{
    if s.len() == 0 {
        s
    } else if s.last().key_value() >= bar {
        reaching(s.drop_last(), bar).push(s.last())
    } else {
        reaching(s.drop_last(), bar)
    }
}

/// The items whose key stays below a bar, in order.
pub open spec fn below<T: Keyed>(s: Seq<T>, bar: int) -> Seq<T>
    decreases s.len(),
{
    if s.len() == 0 {
        s
    } else if s.last().key_value() < bar {
        below(s.drop_last(), bar).push(s.last())
    } else {
        below(s.drop_last(), bar)
    }
}

proof fn lemma_parted<T: Keyed>(s: Seq<T>, bar: int)
    ensures
        forall|i: int|
            0 <= i < reaching(s, bar).len() ==> (#[trigger] reaching(s, bar)[i]).key_value() >= bar,
        forall|i: int|
            0 <= i < below(s, bar).len() ==> (#[trigger] below(s, bar)[i]).key_value() < bar,
    decreases s.len(),
{
    if s.len() > 0 {
        let few = s.drop_last();
        lemma_parted(few, bar);
        assert forall|i: int| 0 <= i < reaching(s, bar).len() implies (#[trigger] reaching(
            s,
            bar,
        )[i]).key_value() >= bar by {
            if i < reaching(few, bar).len() {
                assert(reaching(s, bar)[i] == reaching(few, bar)[i]);
            }
        }
        assert forall|i: int| 0 <= i < below(s, bar).len() implies (#[trigger] below(
            s,
            bar,
        )[i]).key_value() < bar by {
            if i < below(few, bar).len() {
                assert(below(s, bar)[i] == below(few, bar)[i]);
            }
        }
    }
}

/// An item below the bar is put in behind all that reach it.
proof fn lemma_inserted_behind<T: Keyed>(p: Seq<T>, q: Seq<T>, k: T, bar: int)
    requires
        forall|i: int| 0 <= i < p.len() ==> (#[trigger] p[i]).key_value() >= bar,
        k.key_value() < bar,
    ensures
        inserted(p + q, k) == p + inserted(q, k),
    decreases q.len(),
{
    if q.len() == 0 {
        assert(p + q =~= p);
        assert(p + q.push(k) =~= p.push(k));
        if p.len() > 0 {
            assert(p[p.len() - 1].key_value() >= bar);
        }
    } else {
        assert((p + q).drop_last() =~= p + q.drop_last());
        assert((p + q).last() == q.last());
        if q.last().key_value() >= k.key_value() {
            assert((p + q).push(k) =~= p + q.push(k));
        } else {
            lemma_inserted_behind(p, q.drop_last(), k, bar);
            assert((p + inserted(q.drop_last(), k)).push(q.last()) =~= p + inserted(
                q.drop_last(),
                k,
            ).push(q.last()));
        }
    }
}

/// An item that reaches the bar is put in before all that stay below it.
proof fn lemma_inserted_before<T: Keyed>(p: Seq<T>, q: Seq<T>, k: T, bar: int)
    requires
        forall|i: int| 0 <= i < q.len() ==> (#[trigger] q[i]).key_value() < bar,
        k.key_value() >= bar,
    ensures
        inserted(p + q, k) == inserted(p, k) + q,
    decreases q.len(),
{
    if q.len() == 0 {
        assert(p + q =~= p);
        assert(inserted(p, k) + q =~= inserted(p, k));
    } else {
        assert((p + q).drop_last() =~= p + q.drop_last());
        assert((p + q).last() == q.last());
        assert(q[q.len() - 1].key_value() < bar);
        let few = q.drop_last();
        assert forall|i: int| 0 <= i < few.len() implies (#[trigger] few[i]).key_value() < bar by {
            assert(few[i] == q[i]);
        }
        lemma_inserted_before(p, few, k, bar);
        assert((inserted(p, k) + few).push(q.last()) =~= inserted(p, k) + q);
    }
}

/// The ranked items are those that reach a bar, ranked, and then those that stay
/// below it, ranked.
pub proof fn law_ranking_parts<T: Keyed>(s: Seq<T>, bar: int)
    ensures
        ranked(s) == ranked(reaching(s, bar)) + ranked(below(s, bar)),
    decreases s.len(),
{
    if s.len() == 0 {
        assert(s + s =~= s);
    } else {
        let few = s.drop_last();
        let k = s.last();
        let (high, low) = (reaching(few, bar), below(few, bar));
        law_ranking_parts(few, bar);
        lemma_parted(few, bar);
        law_ranking_permutes(high);
        law_ranking_permutes(low);
        if k.key_value() >= bar {
            let q = ranked(low);
            assert forall|i: int| 0 <= i < q.len() implies (#[trigger] q[i]).key_value() < bar by {
                assert(q.contains(q[i]));
                assert(low.contains(q[i]));
            }
            lemma_inserted_before(ranked(high), q, k, bar);
            assert(high.push(k).drop_last() =~= high);
        } else {
            let p = ranked(high);
            assert forall|i: int| 0 <= i < p.len() implies (#[trigger] p[i]).key_value() >= bar by {
                assert(p.contains(p[i]));
                assert(high.contains(p[i]));
            }
            lemma_inserted_behind(p, ranked(low), k, bar);
            assert(low.push(k).drop_last() =~= low);
        }
    }
}

/// What stays below a bar is an item of the list, with a key below the bar.
pub proof fn lemma_below<T: Keyed>(s: Seq<T>, bar: int, k: T)
    requires
        below(s, bar).contains(k),
    ensures
        s.contains(k),
        k.key_value() < bar,
    decreases s.len(),
{
    lemma_parted(s, bar);
    let i = choose|i: int| 0 <= i < below(s, bar).len() && below(s, bar)[i] == k;
    let few = s.drop_last();
    if s.last().key_value() < bar && i == below(few, bar).len() {
        assert(s[s.len() - 1] == k);
    } else {
        assert(below(few, bar)[i] == k);
        lemma_below(few, bar, k);
        let j = choose|j: int| 0 <= j < few.len() && few[j] == k;
        assert(s[j] == k);
    }
}

/// Whether the items stand by falling key, and those of equal key as given.
pub open spec fn stands<T: Keyed>(s: Seq<T>, before: spec_fn(T, T) -> bool) -> bool {
    forall|i: int, j: int|
        0 <= i < j < s.len() ==> (#[trigger] s[i]).key_value() > (#[trigger] s[j]).key_value() || (
        s[i].key_value() == s[j].key_value() && before(s[i], s[j]))
}

proof fn lemma_inserted_stands<T: Keyed>(s: Seq<T>, k: T, before: spec_fn(T, T) -> bool)
    requires
        stands(s, before),
        forall|i: int| 0 <= i < s.len() ==> before(#[trigger] s[i], k),
    ensures
        stands(inserted(s, k), before),
        forall|i: int|
            0 <= i < inserted(s, k).len() ==> #[trigger] inserted(s, k)[i] == k || s.contains(
                inserted(s, k)[i],
            ),
    decreases s.len(),
{
    let all = inserted(s, k);
    if s.len() == 0 || s.last().key_value() >= k.key_value() {
        assert forall|i: int| 0 <= i < all.len() implies #[trigger] all[i] == k || s.contains(
            all[i],
        ) by {}
        assert forall|i: int, j: int| 0 <= i < j < all.len() implies (#[trigger] all[i]).key_value()
            > (#[trigger] all[j]).key_value() || (all[i].key_value() == all[j].key_value()
            && before(all[i], all[j])) by {
            if j == s.len() {
                assert(all[i] == s[i]);
                if i < s.len() - 1 {
                    assert(s[i].key_value() >= s[s.len() - 1].key_value());
                }
            } else {
                assert(all[i] == s[i] && all[j] == s[j]);
            }
        }
    } else {
        let few = s.drop_last();
        let front = inserted(few, k);
        assert forall|i: int| 0 <= i < few.len() implies before(#[trigger] few[i], k) by {
            assert(few[i] == s[i]);
        }
        assert(stands(few, before)) by {
            assert forall|i: int, j: int| 0 <= i < j < few.len() implies (
            #[trigger] few[i]).key_value() > (#[trigger] few[j]).key_value() || (
            few[i].key_value() == few[j].key_value() && before(few[i], few[j])) by {
                assert(few[i] == s[i] && few[j] == s[j]);
            }
        }
        lemma_inserted_stands(few, k, before);
        assert forall|i: int| 0 <= i < all.len() implies #[trigger] all[i] == k || s.contains(
            all[i],
        ) by {
            if i < front.len() {
                assert(all[i] == front[i]);
                if front[i] != k {
                    let n = few.index_of(front[i]);
                    assert(s[n] == front[i]);
                }
            } else {
                assert(all[i] == s[s.len() - 1]);
            }
        }
        assert forall|i: int, j: int| 0 <= i < j < all.len() implies (#[trigger] all[i]).key_value()
            > (#[trigger] all[j]).key_value() || (all[i].key_value() == all[j].key_value()
            && before(all[i], all[j])) by {
            assert(all[i] == front[i]);
            if j < front.len() {
                assert(all[j] == front[j]);
            } else {
                assert(all[j] == s[s.len() - 1]);
                if front[i] != k {
                    let n = few.index_of(front[i]);
                    assert(s[n] == front[i]);
                    assert(n < s.len() - 1);
                }
            }
        }
    }
}

/// Ranking a list puts the items by falling key, and those of equal key in the
/// order that they had.
pub proof fn law_ranking_stands<T: Keyed>(s: Seq<T>, before: spec_fn(T, T) -> bool)
    requires
        forall|i: int, j: int| 0 <= i < j < s.len() ==> before(#[trigger] s[i], #[trigger] s[j]),
    ensures
        stands(ranked(s), before),
    decreases s.len(),
{
    if s.len() > 0 {
        let few = s.drop_last();
        assert forall|i: int, j: int| 0 <= i < j < few.len() implies before(
            #[trigger] few[i],
            #[trigger] few[j],
        ) by {
            assert(few[i] == s[i] && few[j] == s[j]);
        }
        law_ranking_stands(few, before);
        law_ranking_permutes(few);
        let front = ranked(few);
        assert forall|i: int| 0 <= i < front.len() implies before(#[trigger] front[i], s.last()) by {
            assert(front.contains(front[i]));
            assert(few.contains(front[i]));
            let n = few.index_of(front[i]);
            assert(s[n] == front[i]);
            assert(before(s[n], s[s.len() - 1]));
        }
        lemma_inserted_stands(front, s.last(), before);
    }
}

/// An item whose key no other undercuts is ranked last, and one whose key is above
/// all others first.
pub proof fn law_ranking_ends<T: Keyed>(s: Seq<T>, k: T)
    ensures
        (forall|i: int| 0 <= i < s.len() ==> (#[trigger] s[i]).key_value() >= k.key_value())
            ==> ranked(s.push(k)) == ranked(s).push(k),
        (forall|i: int| 0 <= i < s.len() ==> (#[trigger] s[i]).key_value() < k.key_value())
            ==> ranked(s.push(k)) == seq![k] + ranked(s),
{
    let order = ranked(s);
    law_ranking_permutes(s);
    assert(s.push(k).drop_last() =~= s);
    if forall|i: int| 0 <= i < s.len() ==> (#[trigger] s[i]).key_value() >= k.key_value() {
        if order.len() > 0 {
            assert(order[order.len() - 1] == order.last());
            assert(s.contains(order.last()));
            let n = s.index_of(order.last());
            assert(s[n].key_value() >= k.key_value());
        }
    }
    if forall|i: int| 0 <= i < s.len() ==> (#[trigger] s[i]).key_value() < k.key_value() {
        assert forall|i: int| 0 <= i < order.len() implies (#[trigger] order[i]).key_value()
            < k.key_value() by {
            assert(s.contains(order[i]));
            let n = s.index_of(order[i]);
            assert(s[n].key_value() < k.key_value());
        }
        lemma_inserted_first(order, k);
    }
}

proof fn lemma_inserted_first<T: Keyed>(s: Seq<T>, k: T)
    requires
        forall|i: int| 0 <= i < s.len() ==> (#[trigger] s[i]).key_value() < k.key_value(),
    ensures
        inserted(s, k) == seq![k] + s,
    decreases s.len(),
{
    if s.len() == 0 {
        assert(s.push(k) =~= seq![k] + s);
    } else {
        let few = s.drop_last();
        assert forall|i: int| 0 <= i < few.len() implies (#[trigger] few[i]).key_value()
            < k.key_value() by {
            assert(few[i] == s[i]);
        }
        assert(s[s.len() - 1].key_value() < k.key_value());
        lemma_inserted_first(few, k);
        assert((seq![k] + few).push(s.last()) =~= seq![k] + s);
    }
}

} // verus!
