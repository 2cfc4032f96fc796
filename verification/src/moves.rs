//! The five kinds of move of the engine.

use crate::card::Card;
use vstd::prelude::*;

verus! {

/// A move names the card that it plays. Which column a card comes from or goes
/// to is never named: the engine does not tell apart columns that play alike.
#[derive(Debug, Clone, Copy, PartialEq, Eq, Structural)]
pub enum Move {
    /// From the waste to the foundation.
    DeckStack(Card),
    /// From the tableau to the foundation.
    PileStack(Card),
    /// From the waste to the tableau.
    DeckPile(Card),
    /// From the foundation back to the tableau.
    StackPile(Card),
    /// A card that lies on face-down cards, with all that lies on it, to
    /// another column.
    Reveal(Card),
}

impl Move {
    /// The card that the move plays.
    pub open spec fn spec_card(&self) -> Card {
        match *self {
            Move::DeckStack(c) => c,
            Move::PileStack(c) => c,
            Move::DeckPile(c) => c,
            Move::StackPile(c) => c,
            Move::Reveal(c) => c,
        }
    }

    /// A move that no position offers: the sentinel card to the tableau.
    pub open spec fn spec_fake() -> Move {
        Move::DeckPile(Card::spec_fake())
    }

    /// The card that the move plays.
    #[verifier::when_used_as_spec(spec_card)]
    pub fn card(&self) -> (c: Card)
        ensures
            c == self.spec_card(),
    {
        match *self {
            Move::DeckStack(c) => c,
            Move::PileStack(c) => c,
            Move::DeckPile(c) => c,
            Move::StackPile(c) => c,
            Move::Reveal(c) => c,
        }
    }

    /// A move that no position offers.
    #[verifier::when_used_as_spec(spec_fake)]
    pub fn fake() -> (m: Move)
        ensures
            m == Move::spec_fake(),
    {
        Move::DeckPile(Card::fake())
    }

    /// Place of the move's kind in a move filter: tableau to foundation, waste
    /// to foundation, foundation to tableau, waste to tableau, reveal.
    pub open spec fn spec_kind(&self) -> usize {
        match *self {
            Move::PileStack(_) => 0,
            Move::DeckStack(_) => 1,
            Move::StackPile(_) => 2,
            Move::DeckPile(_) => 3,
            Move::Reveal(_) => 4,
        }
    }

    #[verifier::when_used_as_spec(spec_kind)]
    pub fn kind(&self) -> (k: usize)
        ensures
            k == self.spec_kind(),
    {
        match *self {
            Move::PileStack(_) => 0,
            Move::DeckStack(_) => 1,
            Move::StackPile(_) => 2,
            Move::DeckPile(_) => 3,
            Move::Reveal(_) => 4,
        }
    }
}

/// Whether two optional moves are the same.
pub fn same_move(a: &Option<Move>, b: &Option<Move>) -> (r: bool)
    ensures
        r == (*a == *b),
{
    match (a, b) {
        (Some(x), Some(y)) => *x == *y,
        (None, None) => true,
        _ => false,
    }
}

} // verus!
