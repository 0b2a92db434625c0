//! Trusted access to the process random number generator.
//!
//! Randomness cannot be pinned down by a contract, so each wrapper states
//! only what holds of every outcome; the callers take the drawn value and
//! are verified for every value it could be.

use vstd::prelude::*;
use crate::bonk_room::Player;
use rand::seq::SliceRandom;

verus! {

/// Relies on rand::random::<bool>: a coin flip. Nothing can be promised
/// of the outcome.
#[verifier::external_body]
pub(crate) fn coin_flip() -> bool {
    rand::random::<bool>()
}

/// Relies on rand::random_range: returns a value drawn from the given
/// range, which must be non-empty; the result is always below `n`.
#[verifier::external_body]
pub(crate) fn random_below(n: usize) -> (r: usize)
    requires
        n > 0,
    ensures
        r < n,
{
    rand::random_range(0..n)
}

/// Relies on rand::seq::SliceRandom::shuffle: permutes the slice in
/// place, so the length and the multiset of elements are unchanged.
#[verifier::external_body]
pub(crate) fn shuffle_players(v: &mut Vec<Player>)
    ensures
        final(v)@.len() == old(v)@.len(),
        final(v)@.to_multiset() == old(v)@.to_multiset(),
{
    v.shuffle(&mut rand::rng());
}

} // verus!
