//! Seeded random choices.
use vstd::prelude::*;
use itertools::Itertools;
use rand::seq::SliceRandom;
use rand::{random, Rng, SeedableRng};
use rand_chacha::ChaCha8Rng;

verus! {

/// The ChaCha generator with 8 rounds of `rand_chacha`. Nothing is known of
/// its state.
#[verifier::external_type_specification]
#[verifier::external_body]
pub struct ExChaCha8Rng(rand_chacha::ChaCha8Rng);

/// Calls `ChaCha8Rng::seed_from_u64`: a generator whose stream is fixed by
/// the seed. Nothing is claimed of the generator.
#[verifier::external_body]
pub(crate) fn seeded(seed: u64) -> ChaCha8Rng {
    ChaCha8Rng::seed_from_u64(seed)
}

/// Calls `gen_range` of `rand` on the inclusive range from `low` to `high`,
/// which is defined for a range that is not empty. The contract claims that
/// the number drawn lies in the range.
#[verifier::external_body]
pub(crate) fn draw_usize(rng: &mut ChaCha8Rng, low: usize, high: usize) -> (drawn: usize)
    requires
        low <= high,
    ensures
        low <= drawn <= high,
{
    rng.gen_range(low..=high)
}

/// Calls `gen_range` of `rand` on the inclusive range from `low` to `high`,
/// which is defined for a range that is not empty. The contract claims that
/// the number drawn lies in the range.
#[verifier::external_body]
pub(crate) fn draw_u32(rng: &mut ChaCha8Rng, low: u32, high: u32) -> (drawn: u32)
    requires
        low <= high,
    ensures
        low <= drawn <= high,
{
    rng.gen_range(low..=high)
}

/// Calls `partial_shuffle` of `rand`, which permutes the items and hands out
/// those that it chose: the last `amount` of the permuted items, or all of
/// them if there are fewer. The contract claims that the items are permuted
/// and that the chosen ones are that tail.
#[verifier::external_body]
pub(crate) fn choose_some(items: &mut Vec<usize>, rng: &mut ChaCha8Rng, amount: usize)
    -> (chosen: Vec<usize>)
    ensures
        final(items)@.to_multiset() == old(items)@.to_multiset(),
        chosen@ == final(items)@.subrange(
            if amount >= old(items)@.len() {
                0
            } else {
                old(items)@.len() - amount
            },
            old(items)@.len() as int,
        ),
{
    items.partial_shuffle(rng, amount).0.to_vec()
}

/// Calls `sorted` of `itertools`, which sorts the values in ascending order.
/// The contract claims that the result is ascending and holds the same
/// values as often.
#[verifier::external_body]
pub(crate) fn sorted(values: Vec<u32>) -> (ascending: Vec<u32>)
    ensures
        ascending@.to_multiset() == values@.to_multiset(),
        forall|i: int, j: int| 0 <= i <= j < ascending@.len() ==> ascending@[i] <= ascending@[j],
{
    values.into_iter().sorted().collect()
}

/// Calls `random` of `rand` for 64 random bits, from the generator of the
/// thread. Nothing is claimed of the bits.
#[verifier::external_body]
pub(crate) fn random_bits() -> u64 {
    random()
}

} // verus!
