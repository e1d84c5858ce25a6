//! The band of colleges within reach of a student, and the choice among them.

use crate::college::{sorted_by_score, College};
use crate::stream::{
    distinct, index_draw, lemma_total_weight_cleared, lemma_total_weight_positive,
    lemma_total_weight_push, sample_indices, state_words, total_weight, weighted_draw,
    weighted_index,
};
use rand_xoshiro::Xoshiro256StarStar;
use superslice::Ext;
use vstd::prelude::*;

verus! {

/// How many colleges have a score under `threshold`.
pub open spec fn count_below(colleges: Seq<College>, threshold: int) -> int
    decreases colleges.len(),
{
    if colleges.len() == 0 {
        0
    } else if colleges.last().score < threshold {
        count_below(colleges.drop_last(), threshold) + 1
    } else {
        count_below(colleges.drop_last(), threshold)
    }
}

/// How many colleges have a score of `threshold` or less.
pub open spec fn count_up_to(colleges: Seq<College>, threshold: int) -> int {
    count_below(colleges, threshold + 1)
}

/// The band of a student among colleges that stand by rising score: the
/// places of the first college at or over the lower threshold and of the last
/// college at or under the upper one. Where no college reaches the lower
/// threshold the band starts at the last college, and where none is at or
/// under the upper one it ends at the first.
pub open spec fn band(
    colleges: Seq<College>,
    agent_score: i32,
    lower_offset: int,
    upper_offset: int,
) -> (usize, usize) {
    let lower = count_below(colleges, agent_score + lower_offset);
    let upper = count_up_to(colleges, agent_score + upper_offset);
    (
        if lower >= colleges.len() {
            (colleges.len() - 1) as usize
        } else {
            lower as usize
        },
        if upper > 0 {
            (upper - 1) as usize
        } else {
            0
        },
    )
}

/// The number of places from `bound.0` to `bound.1`, both counted.
pub open spec fn width(bound: (usize, usize)) -> int {
    bound.1 - bound.0 + 1
}

/// `picked` is a choice of colleges from a band. A band of one place or less
/// gives its first place. A band with no more places than wanted gives them
/// all, in order. From a wider band the wanted number is drawn, no place
/// twice. Where the draw goes by weight, a college without places is never
/// drawn, and fewer than wanted are drawn only if no more colleges have places.
pub open spec fn is_selection(
    picked: Seq<usize>,
    bound: (usize, usize),
    select_number: usize,
    candidates: Seq<College>,
    proportional: bool,
) -> bool {
    if width(bound) <= 1 {
        picked == seq![bound.0]
    } else if width(bound) <= select_number {
        picked == Seq::new(width(bound) as nat, |k: int| (bound.0 + k) as usize)
    } else {
        &&& distinct(picked)
        &&& forall|k: int| 0 <= k < picked.len() ==> bound.0 <= #[trigger] picked[k] <= bound.1
        &&& picked.len() <= select_number
        &&& !proportional ==> picked.len() == select_number
        &&& proportional ==> forall|k: int|
            0 <= k < picked.len() ==> candidates[(#[trigger] picked[k]) as int].enroll > 0
        &&& proportional && picked.len() < select_number ==> forall|j: int|
            bound.0 <= j <= bound.1 && (#[trigger] candidates[j]).enroll > 0 ==> picked.contains(
                j as usize,
            )
    }
}

/// The weights of the colleges of a band: their places.
pub open spec fn band_weights_of(bound: (usize, usize), candidates: Seq<College>) -> Seq<u64> {
    Seq::new(width(bound) as nat, |k: int| candidates[bound.0 + k].enroll as u64)
}

/// The places that `left` draws by weight give, and the state they leave:
/// each draw is among the weights that are left, the weight of the place
/// drawn is then cleared, and the drawing ends when no weight is left.
pub open spec fn weighted_picks(words: Seq<u64>, weights: Seq<u64>, left: nat, offset: usize) -> (
    Seq<usize>,
    Seq<u64>,
)
    decreases left,
{
    if left == 0 || total_weight(weights) <= 0 {
        (Seq::empty(), words)
    } else {
        let draw = weighted_draw(words, weights);
        let rest = weighted_picks(
            draw.1,
            weights.update(draw.0 as int, 0),
            (left - 1) as nat,
            offset,
        );
        (seq![(offset + draw.0) as usize] + rest.0, rest.1)
    }
}

/// The choice from a band that a generator in the given state makes, and
/// the state it is left in. Where the band is no wider than wanted nothing is
/// drawn and the state stays.
pub open spec fn selection(
    words: Seq<u64>,
    bound: (usize, usize),
    select_number: usize,
    candidates: Seq<College>,
    proportional: bool,
) -> (Seq<usize>, Seq<u64>) {
    if width(bound) <= 1 {
        (seq![bound.0], words)
    } else if width(bound) <= select_number {
        (Seq::new(width(bound) as nat, |k: int| (bound.0 + k) as usize), words)
    } else if proportional {
        weighted_picks(
            words,
            band_weights_of(bound, candidates),
            select_number as nat,
            bound.0,
        )
    } else {
        let draw = index_draw(words, width(bound) as usize, select_number);
        (Seq::new(draw.0.len(), |i: int| (draw.0[i] + bound.0) as usize), draw.1)
    }
}

/// Two generators in the same state make the same choice from a band, and
/// are left in the same state.
pub proof fn lemma_same_state_same_choice(
    one: Xoshiro256StarStar,
    other: Xoshiro256StarStar,
    bound: (usize, usize),
    select_number: usize,
    candidates: Seq<College>,
    proportional: bool,
)
    requires
        state_words(one) == state_words(other),
    ensures
        selection(state_words(one), bound, select_number, candidates, proportional) == selection(
            state_words(other),
            bound,
            select_number,
            candidates,
            proportional,
        ),
{
}

/// A place that parts the colleges at a threshold is the number of colleges
/// under the threshold.
pub proof fn lemma_partition_count(colleges: Seq<College>, threshold: int, place: int)
    requires
        0 <= place <= colleges.len(),
        forall|i: int| 0 <= i < place ==> (#[trigger] colleges[i]).score < threshold,
        forall|i: int| place <= i < colleges.len() ==> (#[trigger] colleges[i]).score >= threshold,
    ensures
        count_below(colleges, threshold) == place,
    decreases colleges.len(),
{
    if colleges.len() > 0 {
        let last = colleges.len() - 1;
        let front = colleges.drop_last();
        assert forall|i: int| 0 <= i < front.len() implies (#[trigger] front[i]) == colleges[i] by {}
        if colleges[last].score < threshold {
            assert(place == colleges.len());
            lemma_partition_count(front, threshold, place - 1);
        } else {
            assert(place <= last);
            lemma_partition_count(front, threshold, place);
        }
    }
}

/// Where a college lies between the two thresholds, the band holds just the
/// colleges that do.
pub proof fn lemma_band_covers(
    colleges: Seq<College>,
    agent_score: i32,
    lower_offset: int,
    upper_offset: int,
    inside: int,
)
    requires
        sorted_by_score(colleges),
        colleges.len() <= usize::MAX,
        0 <= inside < colleges.len(),
        agent_score + lower_offset <= colleges[inside].score <= agent_score + upper_offset,
    ensures
        forall|i: int|
            0 <= i < colleges.len() ==> ((band(
                colleges,
                agent_score,
                lower_offset,
                upper_offset,
            ).0 <= i <= band(colleges, agent_score, lower_offset, upper_offset).1) <==> (agent_score
                + lower_offset <= (#[trigger] colleges[i]).score <= agent_score + upper_offset)),
{
    let low = agent_score + lower_offset;
    let high = agent_score + upper_offset;
    let a = partition_point(colleges, low);
    let b = partition_point(colleges, high + 1);
    lemma_partition_point(colleges, low);
    lemma_partition_point(colleges, high + 1);
    lemma_partition_count(colleges, low, a);
    lemma_partition_count(colleges, high + 1, b);
    assert(a <= inside < b);
}

/// The first place of a college at or over the threshold, or the number of
/// colleges where there is none.
pub open spec fn partition_point(colleges: Seq<College>, threshold: int) -> int
    decreases colleges.len(),
{
    if colleges.len() == 0 {
        0
    } else if colleges.last().score < threshold {
        colleges.len() as int
    } else {
        partition_point(colleges.drop_last(), threshold)
    }
}

/// Among colleges that stand by rising score, those before the partition
/// point are under the threshold and the others are not.
pub proof fn lemma_partition_point(colleges: Seq<College>, threshold: int)
    requires
        sorted_by_score(colleges),
    ensures
        0 <= partition_point(colleges, threshold) <= colleges.len(),
        forall|i: int|
            0 <= i < partition_point(colleges, threshold) ==> (#[trigger] colleges[i]).score
                < threshold,
        forall|i: int|
            partition_point(colleges, threshold) <= i < colleges.len() ==> (
            #[trigger] colleges[i]).score >= threshold,
    decreases colleges.len(),
{
    if colleges.len() > 0 {
        let last = colleges.len() - 1;
        let front = colleges.drop_last();
        assert forall|i: int, j: int| 0 <= i < j < front.len() implies (#[trigger] front[i]).score <= (
        #[trigger] front[j]).score by {
            assert(front[i] == colleges[i] && front[j] == colleges[j]);
        }
        if colleges[last].score < threshold {
            assert forall|i: int| 0 <= i < colleges.len() implies (#[trigger] colleges[i]).score
                < threshold by {
                if i < last {
                    assert(colleges[i].score <= colleges[last].score);
                }
            }
        } else {
            lemma_partition_point(front, threshold);
            let p = partition_point(front, threshold);
            assert forall|i: int| 0 <= i < p implies (#[trigger] colleges[i]).score < threshold by {
                assert(front[i] == colleges[i]);
            }
            assert forall|i: int| p <= i < colleges.len() implies (#[trigger] colleges[i]).score
                >= threshold by {
                if i < last {
                    assert(front[i] == colleges[i]);
                }
            }
        }
    }
}

/// Calls `lower_bound_by_key` of superslice with the score as key. Claimed of
/// it: among colleges that stand by rising score, the result is the place of
/// the first with a score of `key` or more, and their number if there is none.
#[verifier::external_body]
fn first_at_least(colleges: &Vec<College>, key: i32) -> (place: usize)
    requires
        sorted_by_score(colleges@),
    ensures
        place <= colleges.len(),
        forall|i: int| 0 <= i < place ==> (#[trigger] colleges[i]).score < key,
        forall|i: int| place <= i < colleges.len() ==> (#[trigger] colleges[i]).score >= key,
{
    colleges.lower_bound_by_key(&key, |c| c.score)
}

/// Calls `upper_bound_by_key` of superslice with the score as key. Claimed of
/// it: among colleges that stand by rising score, the result is the place of
/// the first with a score over `key`, and their number if there is none.
#[verifier::external_body]
fn first_over(colleges: &Vec<College>, key: i32) -> (place: usize)
    requires
        sorted_by_score(colleges@),
    ensures
        place <= colleges.len(),
        forall|i: int| 0 <= i < place ==> (#[trigger] colleges[i]).score <= key,
        forall|i: int| place <= i < colleges.len() ==> (#[trigger] colleges[i]).score > key,
{
    colleges.upper_bound_by_key(&key, |c| c.score)
}

/// The place of the first college at or over a threshold that need not be a score.
fn lower_place(colleges: &Vec<College>, threshold: i64) -> (place: usize)
    requires
        sorted_by_score(colleges@),
    ensures
        place == count_below(colleges@, threshold as int),
        place <= colleges.len(),
{
    if threshold > i32::MAX as i64 {
        proof {
            lemma_partition_count(colleges@, threshold as int, colleges.len() as int);
        }
        colleges.len()
    } else if threshold < i32::MIN as i64 {
        proof {
            lemma_partition_count(colleges@, threshold as int, 0);
        }
        0
    } else {
        let place = first_at_least(colleges, threshold as i32);
        proof {
            lemma_partition_count(colleges@, threshold as int, place as int);
        }
        place
    }
}

/// The place after the last college at or under a threshold that need not be a score.
fn upper_place(colleges: &Vec<College>, threshold: i64) -> (place: usize)
    requires
        sorted_by_score(colleges@),
    ensures
        place == count_up_to(colleges@, threshold as int),
        place <= colleges.len(),
{
    if threshold >= i32::MAX as i64 {
        proof {
            lemma_partition_count(colleges@, threshold + 1, colleges.len() as int);
        }
        colleges.len()
    } else if threshold < i32::MIN as i64 {
        proof {
            lemma_partition_count(colleges@, threshold + 1, 0);
        }
        0
    } else {
        let place = first_over(colleges, threshold as i32);
        proof {
            lemma_partition_count(colleges@, threshold + 1, place as int);
        }
        place
    }
}

/// The band of a student of `agent_score` among `candidates`, which stand by
/// rising score: from the first college with a score of at least
/// `agent_score + lower_offset` to the last with a score of at most
/// `agent_score + upper_offset`.
pub fn bounds(
    agent_score: i32,
    lower_offset: i64,
    upper_offset: i64,
    candidates: &Vec<College>,
) -> (bound: (usize, usize))
    requires
        candidates.len() > 0,
        sorted_by_score(candidates@),
        -0x4000_0000_0000_0000 <= lower_offset <= 0x4000_0000_0000_0000,
        -0x4000_0000_0000_0000 <= upper_offset <= 0x4000_0000_0000_0000,
    ensures
        bound == band(candidates@, agent_score, lower_offset as int, upper_offset as int),
        bound.0 < candidates.len(),
        bound.1 < candidates.len(),
{
    let mut lower = lower_place(candidates, agent_score as i64 + lower_offset);
    let mut upper = upper_place(candidates, agent_score as i64 + upper_offset);
    if upper != 0 {
        upper = upper - 1;
    }
    if lower >= candidates.len() {
        lower = lower - 1;
    }
    (lower, upper)
}

/// The weights of the colleges of a band: their places.
fn band_weights(bound: (usize, usize), candidates: &Vec<College>) -> (weights: Vec<u64>)
    requires
        bound.0 < bound.1 < candidates.len(),
        candidates.len() <= u32::MAX,
    ensures
        weights.len() == width(bound),
        weights@ == band_weights_of(bound, candidates@),
        forall|k: int| 0 <= k < weights.len() ==> #[trigger] weights[k] == candidates[bound.0 + k].enroll,
        total_weight(weights@) <= u64::MAX,
{
    let mut weights: Vec<u64> = Vec::new();
    let mut j: usize = bound.0;
    while j <= bound.1
        invariant
            bound.0 <= j <= bound.1 + 1,
            bound.1 < candidates.len(),
            candidates.len() <= u32::MAX,
            weights.len() == j - bound.0,
            forall|k: int| 0 <= k < weights.len() ==> #[trigger] weights[k] == candidates[bound.0 + k].enroll,
            total_weight(weights@) <= weights.len() * 0xffff_ffff,
        decreases bound.1 + 1 - j,
    {
        proof {
            lemma_total_weight_push(weights@, candidates[j as int].enroll as u64);
        }
        weights.push(candidates[j].enroll as u64);
        j += 1;
    }
    assert(weights.len() * 0xffff_ffff <= 0xffff_ffff * 0xffff_ffff) by (nonlinear_arith)
        requires
            weights.len() <= 0xffff_ffff,
    ;
    assert(weights@ =~= band_weights_of(bound, candidates@));
    weights
}

/// Draws up to `select_number` places of a band by weight, each place once.
fn draw_weighted(
    rng: &mut Xoshiro256StarStar,
    bound: (usize, usize),
    select_number: usize,
    candidates: &Vec<College>,
) -> (picked: Vec<usize>)
    requires
        bound.0 < bound.1 < candidates.len(),
        candidates.len() <= u32::MAX,
    ensures
        distinct(picked@),
        forall|k: int| 0 <= k < picked.len() ==> bound.0 <= #[trigger] picked[k] <= bound.1,
        picked.len() <= select_number,
        forall|k: int| 0 <= k < picked.len() ==> candidates[(#[trigger] picked[k]) as int].enroll > 0,
        picked.len() < select_number ==> forall|j: int|
            bound.0 <= j <= bound.1 && (#[trigger] candidates[j]).enroll > 0 ==> picked@.contains(
                j as usize,
            ),
        (picked@, state_words(*final(rng))) == weighted_picks(
            state_words(*old(rng)),
            band_weights_of(bound, candidates@),
            select_number as nat,
            bound.0,
        ),
{
    let mut weights = band_weights(bound, candidates);
    let mut picked: Vec<usize> = Vec::new();
    let mut left: usize = select_number;
    let mut open = has_weight(&weights);
    let ghost whole = weighted_picks(
        state_words(*old(rng)),
        band_weights_of(bound, candidates@),
        select_number as nat,
        bound.0,
    );
    assert(picked@ + whole.0 =~= whole.0);
    while left > 0 && open
        invariant
            picked@ + weighted_picks(state_words(*rng), weights@, left as nat, bound.0).0 == whole.0,
            weighted_picks(state_words(*rng), weights@, left as nat, bound.0).1 == whole.1,
            bound.0 < bound.1 < candidates.len(),
            weights.len() == width(bound),
            total_weight(weights@) <= u64::MAX,
            open == (total_weight(weights@) > 0),
            picked.len() + left == select_number,
            distinct(picked@),
            forall|k: int| 0 <= k < picked.len() ==> bound.0 <= #[trigger] picked[k] <= bound.1,
            forall|k: int| 0 <= k < picked.len() ==> candidates[(#[trigger] picked[k]) as int].enroll > 0,
            forall|k: int| 0 <= k < picked.len() ==> weights[(#[trigger] picked[k]) - bound.0] == 0,
            forall|j: int|
                0 <= j < weights.len() ==> (#[trigger] weights[j]) == 0 || weights[j]
                    == candidates[bound.0 + j].enroll,
            forall|j: int|
                0 <= j < weights.len() && (#[trigger] weights[j]) == 0 && candidates[bound.0
                    + j].enroll > 0 ==> picked@.contains((bound.0 + j) as usize),
        decreases left,
    {
        let ghost found = state_words(*rng);
        let ghost rest_before = weighted_picks(found, weights@, left as nat, bound.0);
        let k = weighted_index(rng, &weights);
        let place = bound.0 + k;
        proof {
            let rest = weighted_picks(
                state_words(*rng),
                weights@.update(k as int, 0),
                (left - 1) as nat,
                bound.0,
            );
            assert(rest_before.0 == seq![place] + rest.0);
            assert(rest_before.1 == rest.1);
            assert(picked@.push(place) + rest.0 =~= picked@ + rest_before.0);
            lemma_total_weight_cleared(weights@, k as int);
            assert forall|p: int| 0 <= p < picked.len() implies picked[p] != place by {
                assert(weights[(picked[p]) - bound.0] == 0);
            }
        }
        let ghost before = picked@;
        weights.set(k, 0);
        picked.push(place);
        left -= 1;
        open = has_weight(&weights);
        proof {
            assert(picked@[before.len() as int] == place);
            assert forall|j: int|
                0 <= j < weights.len() && (#[trigger] weights[j]) == 0 && candidates[bound.0
                    + j].enroll > 0 implies picked@.contains((bound.0 + j) as usize) by {
                if j == k {
                    assert(picked@[before.len() as int] == (bound.0 + j) as usize);
                } else {
                    assert(before.contains((bound.0 + j) as usize));
                    let p = choose|p: int| 0 <= p < before.len() && before[p] == (bound.0 + j) as usize;
                    assert(picked@[p] == (bound.0 + j) as usize);
                }
            }
        }
    }
    proof {
        assert(picked@ + Seq::<usize>::empty() =~= picked@);
        if picked.len() < select_number {
            lemma_total_weight_positive(weights@);
            assert forall|j: int|
                bound.0 <= j <= bound.1 && (#[trigger] candidates[j]).enroll > 0 implies picked@.contains(
                j as usize,
            ) by {
                assert(weights[j - bound.0] == 0);
            }
        }
    }
    picked
}

/// Tells whether any weight is left.
fn has_weight(weights: &Vec<u64>) -> (open: bool)
    ensures
        open == (total_weight(weights@) > 0),
{
    let mut i: usize = 0;
    while i < weights.len()
        invariant
            i <= weights.len(),
            forall|j: int| 0 <= j < i ==> weights[j] == 0,
        decreases weights.len() - i,
    {
        if weights[i] > 0 {
            proof {
                lemma_total_weight_positive(weights@);
            }
            return true;
        }
        i += 1;
    }
    proof {
        lemma_total_weight_positive(weights@);
    }
    false
}

/// Chooses colleges from a band of `candidates`. The places of a band no wider
/// than `select_number` are all taken; from a wider one `select_number`
/// places are drawn from `rng`, all alike or, with `proportional`, with a
/// chance in proportion to the places of each college.
pub fn select(
    rng: &mut Xoshiro256StarStar,
    bound: (usize, usize),
    select_number: usize,
    candidates: &Vec<College>,
    proportional: bool,
) -> (picked: Vec<usize>)
    requires
        bound.0 < candidates.len(),
        bound.1 < candidates.len(),
        candidates.len() <= u32::MAX,
    ensures
        is_selection(picked@, bound, select_number, candidates@, proportional),
        forall|k: int| 0 <= k < picked.len() ==> #[trigger] picked[k] < candidates.len(),
        (picked@, state_words(*final(rng))) == selection(
            state_words(*old(rng)),
            bound,
            select_number,
            candidates@,
            proportional,
        ),
        width(bound) <= 1 || width(bound) <= select_number ==> *final(rng) == *old(rng),
{
    if bound.1 <= bound.0 {
        let mut picked: Vec<usize> = Vec::new();
        picked.push(bound.0);
        assert(picked@ =~= seq![bound.0]);
        return picked;
    }
    let size = bound.1 - bound.0 + 1;
    if size <= select_number {
        let mut picked: Vec<usize> = Vec::new();
        let mut j: usize = bound.0;
        while j <= bound.1
            invariant
                bound.0 <= j <= bound.1 + 1,
                bound.1 < candidates.len(),
                picked.len() == j - bound.0,
                forall|k: int| 0 <= k < picked.len() ==> #[trigger] picked[k] == bound.0 + k,
            decreases bound.1 + 1 - j,
        {
            picked.push(j);
            j += 1;
        }
        assert(picked@ =~= Seq::new(width(bound) as nat, |k: int| (bound.0 + k) as usize));
        picked
    } else if proportional {
        draw_weighted(rng, bound, select_number, candidates)
    } else {
        let drawn = sample_indices(rng, size, select_number);
        let mut picked: Vec<usize> = Vec::new();
        let mut k: usize = 0;
        while k < drawn.len()
            invariant
                k <= drawn.len(),
                size == bound.1 - bound.0 + 1,
                bound.0 < bound.1 < candidates.len(),
                forall|i: int| 0 <= i < drawn.len() ==> #[trigger] drawn[i] < size,
                picked.len() == k,
                forall|i: int| 0 <= i < k ==> #[trigger] picked[i] == drawn[i] + bound.0,
            decreases drawn.len() - k,
        {
            picked.push(drawn[k] + bound.0);
            k += 1;
        }
        assert(distinct(picked@)) by {
            assert forall|i: int, j: int| 0 <= i < j < picked.len() implies picked[i] != picked[j] by {
                assert(drawn[i] != drawn[j]);
            }
        }
        assert(picked@ =~= Seq::new(drawn@.len(), |i: int| (drawn@[i] + bound.0) as usize));
        picked
    }
}

/// A choice from a band holds places of the band only, or its first place,
/// and no more of them than wanted, or one.
pub proof fn lemma_selection_in_band(
    picked: Seq<usize>,
    bound: (usize, usize),
    select_number: usize,
    candidates: Seq<College>,
    proportional: bool,
)
    requires
        is_selection(picked, bound, select_number, candidates, proportional),
    ensures
        forall|k: int|
            0 <= k < picked.len() ==> bound.0 <= #[trigger] picked[k] <= bound.1 || picked[k]
                == bound.0,
        picked.len() <= select_number || picked.len() == 1,
        distinct(picked),
{
}

} // verus!
