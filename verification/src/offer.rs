//! How a college picks whom to admit: the best candidates up to a quota, and
//! later a refill from the candidates it had turned down.

use crate::ranking::{rank, ranked};
use vstd::prelude::*;

verus! {

/// The agents of the `n` best candidates, best first.
pub open spec fn top(candidates: Seq<(usize, i32)>, n: int) -> Seq<usize> {
    Seq::new(n as nat, |k: int| candidates[ranked(candidates)[k].1 as int].0)
}

/// How many offers a quota yields: one for each candidate until the quota is used up.
pub open spec fn offer_count(quota: usize, candidates: Seq<(usize, i32)>) -> int {
    if quota <= candidates.len() {
        quota as int
    } else {
        candidates.len() as int
    }
}

/// The agents that a college with `quota` places makes an offer to.
pub open spec fn offered(quota: usize, candidates: Seq<(usize, i32)>) -> Seq<usize> {
    top(candidates, offer_count(quota, candidates))
}

/// How many admissions a college still lacks to reach its target.
pub open spec fn shortfall(current_admitted: usize, target_line: usize) -> int {
    if target_line > current_admitted {
        target_line - current_admitted
    } else {
        0
    }
}

/// The most candidates a refill may take: the shortfall and the waitlist pool
/// together, where there is a shortfall at all.
pub open spec fn backfill_limit(
    current_admitted: usize,
    target_line: usize,
    waitlist_pool: usize,
    rejected: Seq<(usize, i32)>,
) -> int {
    let lack = shortfall(current_admitted, target_line);
    if lack == 0 {
        0
    } else if lack + waitlist_pool <= rejected.len() {
        lack + waitlist_pool
    } else {
        rejected.len() as int
    }
}

/// `score` is not under the floor, where there is one.
pub open spec fn clears(score: i32, score_floor: Option<i64>) -> bool {
    match score_floor {
        Some(floor) => score >= floor,
        None => true,
    }
}

/// `admitted` is the refill from `rejected`: the best candidates in ranked
/// order, none left out, up to `limit` of them, ending before the first one
/// whose score is under the floor.
pub open spec fn is_backfill(
    admitted: Seq<usize>,
    rejected: Seq<(usize, i32)>,
    limit: int,
    score_floor: Option<i64>,
) -> bool {
    &&& admitted.len() <= limit
    &&& admitted == top(rejected, admitted.len() as int)
    &&& forall|k: int|
        0 <= k < admitted.len() ==> clears((#[trigger] ranked(rejected)[k]).0, score_floor)
    &&& admitted.len() < limit ==> !clears(
        ranked(rejected)[admitted.len() as int].0,
        score_floor,
    )
}

/// First offers: the candidates are ranked by score, the higher first and equal
/// scores in the order of submission, and the first `quota` of them, or all if
/// they are fewer, get an offer.
pub fn offer(quota: usize, candidates: &Vec<(usize, i32)>) -> (admitted: Vec<usize>)
    ensures
        admitted@ == offered(quota, candidates@),
{
    let order = rank(candidates);
    proof {
        assert(candidates@.len() == candidates.len());
        crate::ranking::lemma_ranked(candidates@);
    }
    let n = if quota <= candidates.len() {
        quota
    } else {
        candidates.len()
    };
    let mut admitted: Vec<usize> = Vec::new();
    let mut k: usize = 0;
    while k < n
        invariant
            k <= n <= candidates.len(),
            order@ == ranked(candidates@),
            order@.len() == candidates.len(),
            forall|i: int| 0 <= i < order@.len() ==> (#[trigger] order@[i]).1 < candidates.len(),
            admitted@ == top(candidates@, k as int),
        decreases n - k,
    {
        admitted.push(candidates[order[k].1].0);
        k += 1;
        assert(admitted@ =~= top(candidates@, k as int));
    }
    admitted
}

/// Refill from the waitlist. With no shortfall nobody is admitted. Otherwise the
/// rejected candidates are ranked as for a first offer and admitted from the
/// top: at most the shortfall and the waitlist pool together, and none from
/// the first candidate on whose score is under the floor.
pub fn backfill(
    current_admitted: usize,
    target_line: usize,
    waitlist_pool: usize,
    rejected: &Vec<(usize, i32)>,
    score_floor: Option<i64>,
) -> (admitted: Vec<usize>)
    ensures
        is_backfill(
            admitted@,
            rejected@,
            backfill_limit(current_admitted, target_line, waitlist_pool, rejected@),
            score_floor,
        ),
{
    let mut admitted: Vec<usize> = Vec::new();
    if target_line <= current_admitted {
        assert(admitted@ =~= top(rejected@, 0));
        return admitted;
    }
    let lack = target_line - current_admitted;
    let limit = match lack.checked_add(waitlist_pool) {
        Some(most) => if most <= rejected.len() {
            most
        } else {
            rejected.len()
        },
        None => rejected.len(),
    };
    let order = rank(rejected);
    proof {
        assert(rejected@.len() == rejected.len());
        crate::ranking::lemma_ranked(rejected@);
    }
    let mut k: usize = 0;
    while k < limit && passes(order[k].0, score_floor)
        invariant
            k <= limit <= rejected.len(),
            order@ == ranked(rejected@),
            order@.len() == rejected.len(),
            forall|i: int| 0 <= i < order@.len() ==> (#[trigger] order@[i]).1 < rejected.len(),
            admitted@ == top(rejected@, k as int),
            forall|i: int| 0 <= i < k ==> clears((#[trigger] ranked(rejected@)[i]).0, score_floor),
        decreases limit - k,
    {
        admitted.push(rejected[order[k].1].0);
        k += 1;
        assert(admitted@ =~= top(rejected@, k as int));
    }
    admitted
}

fn passes(score: i32, score_floor: Option<i64>) -> (r: bool)
    ensures
        r == clears(score, score_floor),
{
    match score_floor {
        Some(floor) => score as i64 >= floor,
        None => true,
    }
}

/// A larger quota never yields fewer offers, no quota yields more offers than
/// it has places or than there are candidates, and the offers under the
/// smaller quota are the first of those under the larger one.
pub proof fn lemma_quota_monotone(small: usize, large: usize, candidates: Seq<(usize, i32)>)
    requires
        small <= large,
    ensures
        offered(small, candidates).len() <= offered(large, candidates).len(),
        offered(large, candidates).len() <= large,
        offered(large, candidates).len() <= candidates.len(),
        offered(small, candidates) == offered(large, candidates).take(
            offered(small, candidates).len() as int,
        ),
{
    assert(offered(small, candidates) =~= offered(large, candidates).take(
        offered(small, candidates).len() as int,
    ));
}

/// A refill never admits a candidate whose score is under the floor, and never
/// more than the limit it was given: each admitted agent is that of a rejected
/// candidate whose score is at least the floor.
pub proof fn lemma_backfill_respects_floor(
    admitted: Seq<usize>,
    rejected: Seq<(usize, i32)>,
    limit: int,
    floor: i64,
)
    requires
        rejected.len() <= usize::MAX,
        0 <= limit <= rejected.len(),
        is_backfill(admitted, rejected, limit, Some(floor)),
    ensures
        admitted.len() <= limit,
        forall|k: int|
            0 <= k < admitted.len() ==> {
                let place = (#[trigger] ranked(rejected)[k]).1 as int;
                &&& 0 <= place < rejected.len()
                &&& rejected[place].0 == admitted[k]
                &&& rejected[place].1 >= floor
            },
{
    crate::ranking::lemma_ranked(rejected);
    assert forall|k: int| 0 <= k < admitted.len() implies {
        let place = (#[trigger] ranked(rejected)[k]).1 as int;
        &&& 0 <= place < rejected.len()
        &&& rejected[place].0 == admitted[k]
        &&& rejected[place].1 >= floor
    } by {
        let e = ranked(rejected)[k];
        assert(clears(e.0, Some(floor)));
        assert(admitted[k] == top(rejected, admitted.len() as int)[k]);
    }
}

/// The `n` best candidates are candidates, and where no agent is a
/// candidate twice none is among the best twice.
pub proof fn lemma_top(candidates: Seq<(usize, i32)>, n: int)
    requires
        0 <= n <= candidates.len() <= usize::MAX,
    ensures
        top(candidates, n).len() == n,
        forall|k: int|
            0 <= k < n ==> {
                let place = ranked(candidates)[k].1 as int;
                0 <= place < candidates.len() && #[trigger] top(candidates, n)[k]
                    == candidates[place].0
            },
        (forall|i: int, j: int|
            0 <= i < j < candidates.len() ==> (#[trigger] candidates[i]).0 != (
            #[trigger] candidates[j]).0) ==> forall|a: int, b: int|
            0 <= a < b < n ==> #[trigger] top(candidates, n)[a] != #[trigger] top(candidates, n)[b],
{
    crate::ranking::lemma_ranked(candidates);
    if forall|i: int, j: int|
        0 <= i < j < candidates.len() ==> (#[trigger] candidates[i]).0 != (#[trigger] candidates[j]).0 {
        assert forall|a: int, b: int| 0 <= a < b < n implies #[trigger] top(candidates, n)[a]
            != #[trigger] top(candidates, n)[b] by {
            let x = ranked(candidates)[a].1 as int;
            let y = ranked(candidates)[b].1 as int;
            assert(x != y);
            if x < y {
                assert(candidates[x].0 != candidates[y].0);
            } else {
                assert(candidates[y].0 != candidates[x].0);
            }
        }
    }
}

/// The refill from `rejected` under a limit and a floor.
pub open spec fn refill(rejected: Seq<(usize, i32)>, limit: int, score_floor: Option<i64>) -> Seq<
    usize,
> {
    choose|admitted: Seq<usize>| is_backfill(admitted, rejected, limit, score_floor)
}

/// There is one refill only.
pub proof fn lemma_backfill_unique(
    a: Seq<usize>,
    b: Seq<usize>,
    rejected: Seq<(usize, i32)>,
    limit: int,
    score_floor: Option<i64>,
)
    requires
        is_backfill(a, rejected, limit, score_floor),
        is_backfill(b, rejected, limit, score_floor),
    ensures
        a == b,
{
    if a.len() < b.len() {
        assert(clears(ranked(rejected)[a.len() as int].0, score_floor));
    } else if b.len() < a.len() {
        assert(clears(ranked(rejected)[b.len() as int].0, score_floor));
    }
}

/// What is a refill is the refill.
pub proof fn lemma_refill(
    admitted: Seq<usize>,
    rejected: Seq<(usize, i32)>,
    limit: int,
    score_floor: Option<i64>,
)
    requires
        is_backfill(admitted, rejected, limit, score_floor),
    ensures
        admitted == refill(rejected, limit, score_floor),
{
    lemma_backfill_unique(
        admitted,
        refill(rejected, limit, score_floor),
        rejected,
        limit,
        score_floor,
    );
}

} // verus!
