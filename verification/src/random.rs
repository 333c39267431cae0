//! The random choices the game makes, drawn from `rand`.
//!
//! What comes back depends on the generator's state, so each of these says
//! only what holds of every outcome: a shuffle keeps exactly the items it was
//! given, and a roll lands inside the range it was asked for.

use rand::rngs::StdRng;
use rand::seq::SliceRandom;
use rand::Rng;
use vstd::prelude::*;

verus! {

/// The seedable generator every random choice in the library draws from.
#[verifier::external_type_specification]
#[verifier::external_body]
pub struct ExStdRng(StdRng);

/// Shuffles `items` in place with `SliceRandom::shuffle`, which rand
/// documents as picking a permutation uniformly at random. Claimed: the
/// same items come back, in some order. Which order is not stated.
#[verifier::external_body]
pub(crate) fn shuffle<T>(items: &mut Vec<T>, rng: &mut StdRng)
    ensures
        final(items)@.len() == old(items)@.len(),
        final(items)@.to_multiset() == old(items)@.to_multiset(),
{
    items.as_mut_slice().shuffle(rng);
}

/// A `usize` drawn with `Rng::random_range(low..=high)`, which rand
/// documents as uniform over the range and panicking only on an empty one.
/// Claimed: the value lies in `low..=high`. Every roll the game makes, of a
/// percentile as of an index, goes through this one draw.
#[verifier::external_body]
pub(crate) fn random_usize_in(rng: &mut StdRng, low: usize, high: usize) -> (value: usize)
    requires
        low <= high,
    ensures
        low <= value <= high,
{
    rng.random_range(low..=high)
}

} // verus!
