//! Ranking of scored candidates: highest score first, and among equal scores
//! the candidate that was submitted first.

use vstd::prelude::*;
use vstd::relations::{sorted_by, total_ordering};
use vstd::seq_lib::{lemma_multiset_commutative, lemma_sorted_unique, to_multiset_build};

verus! {

/// `a` stands no later than `b` in the ranking. An entry is a score and the
/// place its candidate had in the submitted list.
pub open spec fn ranks_before(a: (i32, usize), b: (i32, usize)) -> bool {
    a.0 > b.0 || (a.0 == b.0 && a.1 <= b.1)
}

/// [`ranks_before`] as a relation value.
pub open spec fn rank_order() -> spec_fn((i32, usize), (i32, usize)) -> bool {
    |a: (i32, usize), b: (i32, usize)| ranks_before(a, b)
}

/// The score of each candidate paired with its place in the list.
pub open spec fn keyed(candidates: Seq<(usize, i32)>) -> Seq<(i32, usize)> {
    Seq::new(candidates.len(), |i: int| (candidates[i].1, i as usize))
}

/// The entries of `candidates` in ranked order.
pub open spec fn ranked(candidates: Seq<(usize, i32)>) -> Seq<(i32, usize)> {
    keyed(candidates).sort_by(rank_order())
}

/// The ranking relation orders all entries totally, so a ranked list is unique.
pub proof fn lemma_rank_order_total()
    ensures
        total_ordering(rank_order()),
{
    let r = rank_order();
    assert forall|x: (i32, usize), y: (i32, usize)| #[trigger] r(x, y) && #[trigger] r(y, x) implies x == y by {
        assert(ranks_before(x, y) && ranks_before(y, x));
    }
    assert forall|x: (i32, usize), y: (i32, usize), z: (i32, usize)| #[trigger] r(x, y) && #[trigger] r(y, z) implies r(x, z) by {
        assert(ranks_before(x, y) && ranks_before(y, z));
    }
    assert forall|x: (i32, usize), y: (i32, usize)| #[trigger] r(x, y) || #[trigger] r(y, x) by {
        assert(ranks_before(x, y) || ranks_before(y, x));
    }
    assert(vstd::relations::reflexive(r));
    assert(vstd::relations::antisymmetric(r));
    assert(vstd::relations::transitive(r));
    assert(vstd::relations::strongly_connected(r));
}

/// The ranked list holds every candidate exactly once, best first: it is as long
/// as the submitted list, each entry carries the score of the candidate at its
/// place, no place occurs twice, and earlier entries rank before later ones.
pub proof fn lemma_ranked(candidates: Seq<(usize, i32)>)
    requires
        candidates.len() <= usize::MAX,
    ensures
        ranked(candidates).len() == candidates.len(),
        ranked(candidates).to_multiset() == keyed(candidates).to_multiset(),
        forall|k: int|
            0 <= k < candidates.len() ==> {
                let e = #[trigger] ranked(candidates)[k];
                e.1 < candidates.len() && e.0 == candidates[e.1 as int].1
            },
        forall|i: int, j: int|
            0 <= i < j < candidates.len() ==> ranks_before(
                #[trigger] ranked(candidates)[i],
                #[trigger] ranked(candidates)[j],
            ),
        forall|i: int, j: int|
            0 <= i < j < candidates.len() ==> (#[trigger] ranked(candidates)[i]).1 != (
            #[trigger] ranked(candidates)[j]).1,
{
    broadcast use vstd::seq_lib::group_to_multiset_ensures;

    let keys = keyed(candidates);
    let out = ranked(candidates);
    lemma_rank_order_total();
    keys.lemma_sort_by_ensures(rank_order());
    assert(out.len() == keys.len()) by {
        assert(out.to_multiset().len() == keys.to_multiset().len());
    }
    assert forall|k: int| 0 <= k < candidates.len() implies {
        let e = #[trigger] out[k];
        e.1 < candidates.len() && e.0 == candidates[e.1 as int].1
    } by {
        let e = out[k];
        assert(out.contains(e));
        assert(keys.contains(e));
        let i = choose|i: int| 0 <= i < keys.len() && keys[i] == e;
        assert(keys[i].1 == i);
    }
    assert forall|i: int, j: int| 0 <= i < j < candidates.len() implies ranks_before(
        #[trigger] out[i],
        #[trigger] out[j],
    ) by {
        assert(rank_order()(out[i], out[j]));
    }
    assert forall|i: int, j: int| 0 <= i < j < candidates.len() implies (#[trigger] out[i]).1 != (
    #[trigger] out[j]).1 by {
        if out[i].1 == out[j].1 {
            let e = out[i];
            assert(out[j] == e);
            // `e` would then occur twice in `out`, but only once in `keys`.
            assert(keys[e.1 as int] == e);
            lemma_count_one(keys, e.1 as int);
            lemma_count_two(out, i, j);
        }
    }
}

/// An entry of the keyed list occurs there once only: its place is part of it.
proof fn lemma_count_one(keys: Seq<(i32, usize)>, i: int)
    requires
        0 <= i < keys.len(),
        forall|k: int| 0 <= k < keys.len() ==> (#[trigger] keys[k]).1 == k,
    ensures
        keys.to_multiset().count(keys[i]) == 1,
    decreases keys.len(),
{
    broadcast use vstd::seq_lib::group_to_multiset_ensures;
    broadcast use vstd::multiset::group_multiset_axioms;

    let last = keys.len() - 1;
    let front = keys.drop_last();
    assert(keys =~= front.push(keys[last]));
    if i == last {
        if front.contains(keys[i]) {
            let k = choose|k: int| 0 <= k < front.len() && front[k] == keys[i];
            assert(keys[k].1 == k);
        }
        assert(front.to_multiset().count(keys[i]) == 0);
    } else {
        assert forall|k: int| 0 <= k < front.len() implies (#[trigger] front[k]).1 == k by {
            assert(front[k] == keys[k]);
        }
        lemma_count_one(front, i);
        assert(front[i] == keys[i]);
        assert(keys[last] != keys[i]);
    }
}

/// A value at two places of a sequence occurs in it at least twice.
proof fn lemma_count_two<A>(s: Seq<A>, i: int, j: int)
    requires
        0 <= i < j < s.len(),
        s[i] == s[j],
    ensures
        s.to_multiset().count(s[i]) >= 2,
    decreases s.len(),
{
    broadcast use vstd::seq_lib::group_to_multiset_ensures;
    broadcast use vstd::multiset::group_multiset_axioms;

    let last = s.len() - 1;
    let front = s.drop_last();
    assert(s =~= front.push(s[last]));
    if j == last {
        assert(front.contains(s[i])) by {
            assert(front[i] == s[i]);
        }
    } else {
        assert(front[i] == s[i] && front[j] == s[j]);
        lemma_count_two(front, i, j);
    }
}

fn stands_before(a: (i32, usize), b: (i32, usize)) -> (r: bool)
    ensures
        r == ranks_before(a, b),
{
    a.0 > b.0 || (a.0 == b.0 && a.1 <= b.1)
}

/// Merges two ranked lists into one.
fn merge(a: &Vec<(i32, usize)>, b: &Vec<(i32, usize)>) -> (out: Vec<(i32, usize)>)
    requires
        sorted_by(a@, rank_order()),
        sorted_by(b@, rank_order()),
    ensures
        sorted_by(out@, rank_order()),
        out@.to_multiset() == a@.to_multiset().add(b@.to_multiset()),
{
    broadcast use vstd::seq_lib::group_to_multiset_ensures;
    broadcast use vstd::multiset::group_multiset_axioms;

    let mut out: Vec<(i32, usize)> = Vec::new();
    let mut i: usize = 0;
    let mut j: usize = 0;
    assert(a@.take(0) =~= Seq::empty() && b@.take(0) =~= Seq::empty());
    assert(out@.to_multiset() =~= a@.take(0).to_multiset().add(b@.take(0).to_multiset()));
    while i < a.len() || j < b.len()
        invariant
            i <= a.len(),
            j <= b.len(),
            sorted_by(a@, rank_order()),
            sorted_by(b@, rank_order()),
            sorted_by(out@, rank_order()),
            out@.to_multiset() == a@.take(i as int).to_multiset().add(
                b@.take(j as int).to_multiset(),
            ),
            forall|k: int, p: int|
                0 <= k < out.len() && i <= p < a.len() ==> ranks_before(
                    #[trigger] out@[k],
                    #[trigger] a@[p],
                ),
            forall|k: int, p: int|
                0 <= k < out.len() && j <= p < b.len() ==> ranks_before(
                    #[trigger] out@[k],
                    #[trigger] b@[p],
                ),
        decreases a.len() - i + b.len() - j,
    {
        let left = if i >= a.len() {
            false
        } else if j >= b.len() {
            true
        } else {
            stands_before(a[i], b[j])
        };
        let ghost before = out@;
        if left {
            let x = a[i];
            proof {
                assert(a@.take(i + 1) =~= a@.take(i as int).push(x));
                assert forall|p: int| i < p < a.len() implies ranks_before(x, #[trigger] a@[p]) by {
                    assert(rank_order()(a@[i as int], a@[p]));
                }
                assert forall|p: int| j <= p < b.len() implies ranks_before(x, #[trigger] b@[p]) by {
                    assert(rank_order()(b@[j as int], b@[p]));
                }
            }
            out.push(x);
            i += 1;
            proof {
                let ma = a@.take(i - 1).to_multiset();
                let mb = b@.take(j as int).to_multiset();
                to_multiset_build(before, x);
                to_multiset_build(a@.take(i - 1), x);
                assert(ma.add(mb).insert(x) =~= ma.insert(x).add(mb));
            }
        } else {
            let x = b[j];
            proof {
                assert(b@.take(j + 1) =~= b@.take(j as int).push(x));
                assert forall|p: int| j < p < b.len() implies ranks_before(x, #[trigger] b@[p]) by {
                    assert(rank_order()(b@[j as int], b@[p]));
                }
                assert forall|p: int| i <= p < a.len() implies ranks_before(x, #[trigger] a@[p]) by {
                    assert(rank_order()(a@[i as int], a@[p]));
                }
            }
            out.push(x);
            j += 1;
            proof {
                let ma = a@.take(i as int).to_multiset();
                let mb = b@.take(j - 1).to_multiset();
                to_multiset_build(before, x);
                to_multiset_build(b@.take(j - 1), x);
                assert(ma.add(mb).insert(x) =~= ma.add(mb.insert(x)));
            }
        }
        proof {
            assert forall|p: int, q: int| 0 <= p < q < out.len() implies #[trigger] rank_order()(
                out@[p],
                out@[q],
            ) by {
                if q < before.len() {
                    assert(rank_order()(before[p], before[q]));
                } else {
                    assert(ranks_before(before[p], out@[q]));
                }
            }
        }
    }
    assert(a@.take(a.len() as int) =~= a@ && b@.take(b.len() as int) =~= b@);
    out
}

/// Ranks the entries of `keys` from `lo` up to `hi`.
fn sort_range(keys: &Vec<(i32, usize)>, lo: usize, hi: usize) -> (out: Vec<(i32, usize)>)
    requires
        lo <= hi <= keys.len(),
    ensures
        sorted_by(out@, rank_order()),
        out@.to_multiset() == keys@.subrange(lo as int, hi as int).to_multiset(),
    decreases hi - lo,
{
    if hi - lo <= 1 {
        let mut out: Vec<(i32, usize)> = Vec::new();
        if hi - lo == 1 {
            out.push(keys[lo]);
        }
        assert(out@ =~= keys@.subrange(lo as int, hi as int));
        out
    } else {
        let mid: usize = lo + (hi - lo) / 2;
        let left = sort_range(keys, lo, mid);
        let right = sort_range(keys, mid, hi);
        let out = merge(&left, &right);
        proof {
            let l = keys@.subrange(lo as int, mid as int);
            let r = keys@.subrange(mid as int, hi as int);
            assert(keys@.subrange(lo as int, hi as int) =~= l + r);
            lemma_multiset_commutative(l, r);
        }
        out
    }
}

/// Ranks `candidates`, each given as an agent and the score it reached: the
/// result lists score and place in the submitted list, best first.
pub fn rank(candidates: &Vec<(usize, i32)>) -> (out: Vec<(i32, usize)>)
    ensures
        out@ == ranked(candidates@),
{
    let mut keys: Vec<(i32, usize)> = Vec::new();
    let mut i: usize = 0;
    while i < candidates.len()
        invariant
            i <= candidates.len(),
            keys@ == keyed(candidates@).take(i as int),
        decreases candidates.len() - i,
    {
        keys.push((candidates[i].1, i));
        i += 1;
        assert(keys@ =~= keyed(candidates@).take(i as int));
    }
    let out = sort_range(&keys, 0, keys.len());
    proof {
        assert(keys@ =~= keyed(candidates@));
        assert(keys@.subrange(0, keys.len() as int) =~= keys@);
        lemma_rank_order_total();
        keys@.lemma_sort_by_ensures(rank_order());
        lemma_sorted_unique(out@, ranked(candidates@), rank_order());
    }
    out
}

/// Candidates that rank in the order of rising score: each place of `scores`
/// with a mark that falls as its score rises.
pub open spec fn rising_keys(scores: Seq<i32>) -> Seq<(usize, i32)> {
    Seq::new(scores.len(), |k: int| (k as usize, (-1 - scores[k]) as i32))
}

/// The places of `scores` by rising score, equal scores in the order given.
pub open spec fn rising(scores: Seq<i32>) -> Seq<usize> {
    Seq::new(scores.len(), |i: int| ranked(rising_keys(scores))[i].1)
}

/// The rising order names every place once, goes from the lowest score to the
/// highest, and keeps equal scores in the order given.
pub proof fn lemma_rising(scores: Seq<i32>)
    requires
        scores.len() <= usize::MAX,
    ensures
        rising(scores).len() == scores.len(),
        forall|i: int| 0 <= i < scores.len() ==> (#[trigger] rising(scores)[i]) < scores.len(),
        forall|i: int, j: int|
            0 <= i < j < scores.len() ==> (#[trigger] rising(scores)[i]) != (#[trigger] rising(
                scores,
            )[j]),
        forall|i: int, j: int|
            0 <= i < j < scores.len() ==> {
                let a = (#[trigger] rising(scores)[i]) as int;
                let b = (#[trigger] rising(scores)[j]) as int;
                scores[a] < scores[b] || (scores[a] == scores[b] && a < b)
            },
{
    let keys = rising_keys(scores);
    lemma_ranked(keys);
    let out = ranked(keys);
    assert forall|i: int, j: int| 0 <= i < j < scores.len() implies {
        let a = (#[trigger] rising(scores)[i]) as int;
        let b = (#[trigger] rising(scores)[j]) as int;
        scores[a] < scores[b] || (scores[a] == scores[b] && a < b)
    } by {
        assert(ranks_before(out[i], out[j]));
        assert(out[i].1 != out[j].1);
        assert(out[i].0 == keys[out[i].1 as int].1);
        assert(out[j].0 == keys[out[j].1 as int].1);
    }
}

/// The places of `scores` by rising score, equal scores in the order given.
pub fn rising_order(scores: &Vec<i32>) -> (order: Vec<usize>)
    ensures
        order@ == rising(scores@),
{
    let mut keys: Vec<(usize, i32)> = Vec::new();
    let mut k: usize = 0;
    while k < scores.len()
        invariant
            k <= scores.len(),
            keys@ == rising_keys(scores@).take(k as int),
        decreases scores.len() - k,
    {
        keys.push((k, -1 - scores[k]));
        k += 1;
        assert(keys@ =~= rising_keys(scores@).take(k as int));
    }
    assert(keys@ =~= rising_keys(scores@));
    let ranks = rank(&keys);
    proof {
        lemma_ranked(keys@);
    }
    let mut order: Vec<usize> = Vec::new();
    let mut i: usize = 0;
    while i < ranks.len()
        invariant
            i <= ranks.len(),
            ranks@ == ranked(rising_keys(scores@)),
            ranks@.len() == scores@.len(),
            order@ == rising(scores@).take(i as int),
        decreases ranks.len() - i,
    {
        order.push(ranks[i].1);
        i += 1;
        assert(order@ =~= rising(scores@).take(i as int));
    }
    assert(order@ =~= rising(scores@));
    order
}

} // verus!
