//! Random streams: one generator for each agent, split off a common root.

use rand::distributions::Distribution;
use rand_xoshiro::rand_core::SeedableRng;
use rand_xoshiro::Xoshiro256StarStar;
use vstd::prelude::*;

verus! {

/// The generator of rand_xoshiro, of which only the claims below are known.
#[verifier::external_type_specification]
#[verifier::external_body]
pub struct ExXoshiro256StarStar(Xoshiro256StarStar);

/// The four state words that a generator holds.
pub uninterp spec fn state_words(rng: Xoshiro256StarStar) -> Seq<u64>;

/// The state that `Xoshiro256StarStar::jump` leaves behind, as a function of
/// the state it found.
pub uninterp spec fn jumped(words: Seq<u64>) -> Seq<u64>;

/// The state that `Xoshiro256StarStar::seed_from_u64` makes of a seed.
pub uninterp spec fn seeded_words(seed: u64) -> Seq<u64>;

/// What `rand::seq::index::sample` makes of a state, a length and an amount:
/// the indices it draws, and the state it leaves.
pub uninterp spec fn index_draw(words: Seq<u64>, length: usize, amount: usize) -> (
    Seq<usize>,
    Seq<u64>,
);

/// What a draw from `WeightedIndex` makes of a state and a list of weights:
/// the index it draws, and the state it leaves.
pub uninterp spec fn weighted_draw(words: Seq<u64>, weights: Seq<u64>) -> (usize, Seq<u64>);

/// The state after `count` jumps.
pub open spec fn jumped_times(words: Seq<u64>, count: nat) -> Seq<u64>
    decreases count,
{
    if count == 0 {
        words
    } else {
        jumped(jumped_times(words, (count - 1) as nat))
    }
}

/// The sum of the weights.
pub open spec fn total_weight(weights: Seq<u64>) -> int
    decreases weights.len(),
{
    if weights.len() == 0 {
        0
    } else {
        total_weight(weights.drop_last()) + weights.last()
    }
}

/// No value occurs twice in `s`.
pub open spec fn distinct(s: Seq<usize>) -> bool {
    forall|i: int, j: int| 0 <= i < j < s.len() ==> s[i] != s[j]
}

/// Calls `Xoshiro256StarStar::jump`, which moves the generator ahead by a
/// fixed, very long stretch of its sequence. Claimed of it: the new state
/// depends on the old state alone.
#[verifier::external_body]
pub(crate) fn jump(rng: &mut Xoshiro256StarStar)
    ensures
        state_words(*final(rng)) == jumped(state_words(*old(rng))),
{
    rng.jump()
}

/// Calls `seed_from_u64` of `Xoshiro256StarStar`, which makes a generator
/// from a seed. Claimed of it: the state depends on the seed alone.
#[verifier::external_body]
pub(crate) fn seeded(seed: u64) -> (rng: Xoshiro256StarStar)
    ensures
        state_words(rng) == seeded_words(seed),
{
    Xoshiro256StarStar::seed_from_u64(seed)
}

/// `clone` of `Xoshiro256StarStar`. Claimed of it: the copy holds the state of
/// the generator it was made from.
pub assume_specification[ <Xoshiro256StarStar as Clone>::clone ](
    rng: &Xoshiro256StarStar,
) -> (copy: Xoshiro256StarStar)
    ensures
        state_words(copy) == state_words(*rng),
;

/// Calls `rand::seq::index::sample` and `IndexVec::into_vec`. Claimed of
/// them: the result holds `amount` indices under `length`, none of them
/// twice, and it and the state left depend on the state found, the length
/// and the amount alone. (rand panics where `amount` exceeds `length`, and
/// takes another way, with checks of its own, for a length over `u32`.)
#[verifier::external_body]
pub(crate) fn sample_indices(rng: &mut Xoshiro256StarStar, length: usize, amount: usize) -> (picked:
    Vec<usize>)
    requires
        amount <= length,
        length <= u32::MAX,
    ensures
        picked.len() == amount,
        forall|i: int| 0 <= i < picked.len() ==> #[trigger] picked[i] < length,
        distinct(picked@),
        (picked@, state_words(*final(rng))) == index_draw(state_words(*old(rng)), length, amount),
{
    rand::seq::index::sample(rng, length, amount).into_vec()
}

/// Calls `WeightedIndex::new` and its `sample` of rand, which draw an index
/// with a chance in proportion to its weight. Claimed of them: the index lies
/// in the list and its weight is not zero, and it and the state left depend
/// on the state found and the weights alone. (rand fails on an empty list,
/// on weights that are all zero and on a sum that leaves `u64`.)
#[verifier::external_body]
pub(crate) fn weighted_index(rng: &mut Xoshiro256StarStar, weights: &Vec<u64>) -> (i: usize)
    requires
        0 < total_weight(weights@) <= u64::MAX,
    ensures
        i < weights.len(),
        weights[i as int] > 0,
        (i, state_words(*final(rng))) == weighted_draw(state_words(*old(rng)), weights@),
{
    rand::distributions::WeightedIndex::new(weights).unwrap().sample(rng)
}

/// Splits a stream off a root: the root moves one jump ahead, and the new
/// stream starts where the root then stands.
pub fn split(root: &mut Xoshiro256StarStar) -> (child: Xoshiro256StarStar)
    ensures
        state_words(*final(root)) == jumped(state_words(*old(root))),
        state_words(child) == state_words(*final(root)),
{
    jump(root);
    root.clone()
}

/// The stream of the agent with the given ordinal under a seed: the root of
/// the seed, moved one jump ahead for each agent up to this one. The same
/// seed and ordinal always give the same stream, and the streams of two
/// agents under one seed lie a whole number of jumps apart.
pub fn derive(seed: u64, ordinal: usize) -> (rng: Xoshiro256StarStar)
    ensures
        state_words(rng) == jumped_times(seeded_words(seed), (ordinal + 1) as nat),
{
    let mut root = seeded(seed);
    let mut i: usize = 0;
    while i < ordinal
        invariant
            i <= ordinal,
            state_words(root) == jumped_times(seeded_words(seed), i as nat),
        decreases ordinal - i,
    {
        jump(&mut root);
        i += 1;
    }
    jump(&mut root);
    root
}

/// A list of weights sums to more than nothing exactly if one of them does.
pub proof fn lemma_total_weight_positive(weights: Seq<u64>)
    ensures
        total_weight(weights) >= 0,
        total_weight(weights) > 0 <==> exists|i: int| 0 <= i < weights.len() && weights[i] > 0,
    decreases weights.len(),
{
    if weights.len() > 0 {
        let front = weights.drop_last();
        lemma_total_weight_positive(front);
        if total_weight(weights) > 0 {
            if weights.last() > 0 {
                assert(weights[weights.len() - 1] > 0);
            } else {
                let i = choose|i: int| 0 <= i < front.len() && front[i] > 0;
                assert(weights[i] > 0);
            }
        }
        if exists|i: int| 0 <= i < weights.len() && weights[i] > 0 {
            let i = choose|i: int| 0 <= i < weights.len() && weights[i] > 0;
            if i < front.len() {
                assert(front[i] > 0);
            }
        }
    }
}

/// Setting one weight to zero takes just that weight off the sum.
pub proof fn lemma_total_weight_cleared(weights: Seq<u64>, i: int)
    requires
        0 <= i < weights.len(),
    ensures
        total_weight(weights.update(i, 0)) == total_weight(weights) - weights[i],
    decreases weights.len(),
{
    let last = weights.len() - 1;
    let cleared = weights.update(i, 0);
    if i == last {
        assert(cleared.drop_last() =~= weights.drop_last());
    } else {
        lemma_total_weight_cleared(weights.drop_last(), i);
        assert(cleared.drop_last() =~= weights.drop_last().update(i, 0));
    }
}

/// Adding a weight at the end adds it to the sum.
pub proof fn lemma_total_weight_push(weights: Seq<u64>, w: u64)
    ensures
        total_weight(weights.push(w)) == total_weight(weights) + w,
{
    assert(weights.push(w).drop_last() =~= weights);
}

} // verus!
