//! The boundary to the pseudo-random number generator.
//!
//! The game engine needs randomness for exactly one thing: shuffling a
//! discard pile before it becomes the new draw pile.  The generator itself
//! is `fastrand::Rng`, which the rest of the crate carries around as an
//! opaque value; nothing in the verified logic depends on which permutation
//! a shuffle produces, only on the fact that it is a permutation.

use vstd::prelude::*;

verus! {

#[verifier::external_type_specification]
#[verifier::external_body]
pub struct ExRng(fastrand::Rng);

/// Relies on `fastrand::Rng::shuffle`: a Fisher-Yates pass that only swaps
/// elements of the slice in place, so the result is a permutation of the
/// input — the same cards in some order.
#[verifier::external_body]
pub(crate) fn shuffle(rng: &mut fastrand::Rng, cards: &mut Vec<u8>)
    ensures
        final(cards)@.to_multiset() == old(cards)@.to_multiset(),
        final(cards)@.len() == old(cards)@.len(),
{
    rng.shuffle(cards.as_mut_slice());
}

} // verus!
