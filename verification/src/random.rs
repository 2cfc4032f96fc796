//! The one thing that the library asks of a random number generator.

use crate::card::Card;
use rand::rngs::SmallRng;
use rand::seq::SliceRandom;
use vstd::prelude::*;

verus! {

/// `rand::rngs::SmallRng`: a small and fast random number generator. The
/// proofs see nothing inside it.
#[verifier::external_type_specification]
#[verifier::external_body]
pub struct ExSmallRng(SmallRng);

/// `SliceRandom::shuffle`: the cards are put in another order; which one
/// depends on the generator.
#[verifier::external_body]
pub(crate) fn shuffle_cards(cards: &mut Vec<Card>, rng: &mut SmallRng)
    ensures
        final(cards)@.to_multiset() == old(cards)@.to_multiset(),
{
    cards.shuffle(rng)
}

} // verus!
