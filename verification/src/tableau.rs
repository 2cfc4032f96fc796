//! What the bitboards say of the columns: no more cards lie on a pair of
//! cards than the pair has face up. Every legal move keeps it so.

use crate::card::{
    above, below, in_mask, lemma_in_mask_ops, lemma_in_mask_single, lemma_mask_neighbours, mask_of,
    partner, Card, KING_RANK, N_CARDS,
};
use crate::engine::SolitaireView;
use crate::moves::Move;
use crate::movegen::pair_open;
use vstd::prelude::*;

verus! {

pub open spec fn one_if(b: bool) -> int {
    if b {
        1
    } else {
        0
    }
}

/// With no more cards on a pair than it has face up, the pair is open exactly
/// if it has more cards face up than cards on it.
pub proof fn lemma_pair_open_counts(a: bool, b: bool, x: bool, y: bool)
    requires
        one_if(x) + one_if(y) <= one_if(a) + one_if(b),
    ensures
        pair_open(a, b, x, y) <==> one_if(a) + one_if(b) > one_if(x) + one_if(y),
{
}

impl SolitaireView {
    /// How many of `c` and its partner lie face up.
    pub open spec fn shown_in_pair(self, c: Card) -> int {
        one_if(self.shown(c)) + one_if(self.shown(partner(c)))
    }

    /// How many of `c` and its partner lie on another card.
    pub open spec fn lying_in_pair(self, c: Card) -> int {
        one_if(self.covering(c)) + one_if(self.covering(partner(c)))
    }

    /// No more cards below the kings lie on other cards than cards of the next
    /// rank and the other colour lie face up for them to lie on.
    pub open spec fn consistent(self) -> bool {
        forall|c: Card| c.0 < 48 ==> #[trigger] self.lying_in_pair(c) <= self.shown_in_pair(below(c))
    }

    /// In a consistent state the pair of `c` has a card with nothing on it
    /// exactly if more of the pair lie face up than cards lie on the pair.
    pub proof fn lemma_open_pair_counts(self, c: Card)
        requires
            self.consistent(),
            c.0 < N_CARDS,
        ensures
            self.open_pair(c) <==> self.shown_in_pair(c) > (if c.0 >= 4 {
                self.lying_in_pair(above(c))
            } else {
                0
            }),
    {
        lemma_mask_neighbours(c);
        if c.0 >= 4 {
            let a = above(c);
            lemma_mask_neighbours(a);
            assert(self.lying_in_pair(a) <= self.shown_in_pair(below(a)));
            lemma_pair_open_counts(
                self.shown(c),
                self.shown(partner(c)),
                self.covering(a),
                self.covering(partner(a)),
            );
        } else {
            lemma_pair_open_counts(self.shown(c), self.shown(partner(c)), false, false);
        }
    }

    /// Whether `y` lies face up after move `m`.
    pub open spec fn shown_after(self, m: Move, y: Card) -> bool {
        match m {
            Move::DeckStack(_) => self.shown(y),
            Move::DeckPile(c) => self.shown(y) || y == c,
            Move::StackPile(c) => self.shown(y) || y == c,
            Move::PileStack(c) => (self.shown(y) && y != c) || (self.heading(c) && self.turned(c)
                == Some(y)),
            Move::Reveal(c) => self.shown(y) || self.turned(c) == Some(y),
        }
    }

    /// Whether `y` heads a pile after move `m`.
    pub open spec fn heading_after(self, m: Move, y: Card) -> bool {
        match m {
            Move::DeckStack(_) => self.heading(y),
            Move::DeckPile(_) => self.heading(y),
            Move::StackPile(_) => self.heading(y),
            Move::PileStack(c) => if self.heading(c) {
                (self.heading(y) && y != c) || (self.turned(c) == Some(y) && (y.spec_rank()
                    < KING_RANK || self.hidden.counts[self.home(c)] > 2))
            } else {
                self.heading(y)
            },
            Move::Reveal(c) => (self.heading(y) && y != c) || (self.turned(c) == Some(y) && (
            y.spec_rank() < KING_RANK || self.hidden.counts[self.home(c)] > 2)),
        }
    }

    /// What the bitboards hold after a move.
    pub proof fn lemma_after_masks(self, m: Move, y: Card)
        requires
            self.wf(),
            self.can_do(m),
            y.0 < 64,
        ensures
            self.after(m).shown(y) == self.shown_after(m, y),
            self.after(m).heading(y) == self.heading_after(m, y),
    {
        let c = m.spec_card();
        match m {
            Move::DeckStack(_) => {},
            Move::DeckPile(_) => {
                self.deck.lemma_drawn(c);
                lemma_in_mask_ops(self.visible, mask_of(c), y);
                lemma_in_mask_single(c, y);
            },
            Move::StackPile(_) => {
                lemma_in_mask_ops(self.visible, mask_of(c), y);
                lemma_in_mask_single(c, y);
            },
            Move::PileStack(_) => {
                lemma_in_mask_ops(self.visible, mask_of(c), y);
                lemma_in_mask_single(c, y);
                if self.heading(c) {
                    let s = SolitaireView {
                        visible: self.visible ^ mask_of(c),
                        stack: self.stack_with(c.spec_suit(), c.spec_rank() + 1),
                        ..self
                    };
                    assert(in_mask(self.top, c) <==> self.hidden.heads(c));
                    s.lemma_revealed_masks(c, y);
                    self.lemma_heading(c);
                }
            },
            Move::Reveal(_) => {
                assert(in_mask(self.top, c) <==> self.hidden.heads(c));
                self.lemma_revealed_masks(c, y);
            },
        }
    }

    /// What the bitboards hold after a card has left the head of its pile.
    proof fn lemma_revealed_masks(self, c: Card, y: Card)
        requires
            self.hidden.sound(),
            self.hidden.heads(c),
            in_mask(self.top, c),
            y.0 < 64,
        ensures
            self.revealed(c).shown(y) == (self.shown(y) || self.turned(c) == Some(y)),
            self.revealed(c).heading(y) == ((self.heading(y) && y != c) || (self.turned(c) == Some(y)
                && (y.spec_rank() < KING_RANK || self.hidden.counts[self.home(c)] > 2))),
    {
        self.lemma_heading(c);
        lemma_in_mask_ops(self.top, mask_of(c), y);
        lemma_in_mask_single(c, y);
        match self.turned(c) {
            Some(x) => {
                let tm = if x.spec_rank() < KING_RANK || self.hidden.counts[self.home(c)] > 2 {
                    mask_of(x)
                } else {
                    0
                };
                lemma_in_mask_ops(self.visible, mask_of(x), y);
                lemma_in_mask_ops(self.top ^ mask_of(c), tm, y);
                lemma_in_mask_ops(0, 0, y);
                lemma_in_mask_single(x, y);
            },
            None => {},
        }
    }

    /// The card that a move plays onto the tableau, or takes from a pile's
    /// head onto another card, did not lie on a card before; the card that a
    /// move turns up lay face down.
    proof fn lemma_moved_cards(self, m: Move)
        requires
            self.wf(),
            self.can_do(m),
        ensures
            match m {
                Move::DeckPile(c) => !self.shown(c) && !self.heading(c),
                Move::StackPile(c) => !self.shown(c) && !self.heading(c),
                Move::Reveal(c) => self.shown(c) && self.heading(c),
                Move::PileStack(c) => self.shown(c),
                Move::DeckStack(c) => !self.shown(c) && !self.heading(c),
            },
            m.spec_card().0 < N_CARDS,
            (m is PileStack && self.heading(m.spec_card())) || m is Reveal ==> (match self.turned(
                m.spec_card(),
            ) {
                Some(x) => x.0 < N_CARDS && !self.shown(x) && !self.heading(x) && x != m.spec_card(),
                None => true,
            }),
    {
        let c = m.spec_card();
        match m {
            Move::DeckPile(_) => {
                self.deck.lemma_drawn(c);
                assert(in_mask(self.visible, c) <==> c.0 < N_CARDS && !self.deck.holds(c)
                    && !self.hidden.is_down(c) && !self.stacked(c));
                assert(in_mask(self.top, c) ==> in_mask(self.visible, c));
            },
            Move::DeckStack(_) => {
                self.deck.lemma_drawn(c);
                assert(in_mask(self.visible, c) <==> c.0 < N_CARDS && !self.deck.holds(c)
                    && !self.hidden.is_down(c) && !self.stacked(c));
                assert(in_mask(self.top, c) ==> in_mask(self.visible, c));
            },
            Move::StackPile(_) => {
                assert(self.stacked(c));
                assert(in_mask(self.visible, c) <==> c.0 < N_CARDS && !self.deck.holds(c)
                    && !self.hidden.is_down(c) && !self.stacked(c));
                assert(in_mask(self.top, c) ==> in_mask(self.visible, c));
            },
            Move::Reveal(_) => {
                assert(in_mask(self.top, c) ==> in_mask(self.visible, c));
            },
            Move::PileStack(_) => {},
        }
        if (m is PileStack && self.heading(c)) || m is Reveal {
            assert(in_mask(self.top, c) <==> self.hidden.heads(c));
            self.lemma_heading(c);
            match self.turned(c) {
                Some(x) => {
                    assert(in_mask(self.visible, x) <==> x.0 < N_CARDS && !self.deck.holds(x)
                        && !self.hidden.is_down(x) && !self.stacked(x));
                    assert(in_mask(self.top, x) ==> in_mask(self.visible, x));
                },
                None => {},
            }
        }
    }

    /// A state in which every face-up card below the kings heads a pile is
    /// consistent: no card lies on another.
    pub proof fn lemma_heads_consistent(self)
        requires
            forall|c: Card| c.0 < 48 && #[trigger] self.shown(c) ==> self.heading(c),
        ensures
            self.consistent(),
    {
        assert forall|c: Card| c.0 < 48 implies #[trigger] self.lying_in_pair(c)
            <= self.shown_in_pair(below(c)) by {
            lemma_mask_neighbours(c);
            assert(partner(c).0 < 48);
            assert(self.shown(c) ==> self.heading(c));
            assert(self.shown(partner(c)) ==> self.heading(partner(c)));
        }
    }

    /// A legal move keeps a consistent state consistent.
    pub proof fn lemma_after_consistent(self, m: Move)
        requires
            self.wf(),
            self.consistent(),
            self.legal(m),
        ensures
            self.after(m).consistent(),
    {
        let r = self.after(m);
        let c = m.spec_card();
        self.lemma_offered_legal(false, m);
        self.lemma_moved_cards(m);
        lemma_mask_neighbours(c);
        lemma_mask_neighbours(partner(c));
        let placed = m is DeckPile || m is StackPile || m is Reveal;
        if placed && c.0 < 48 {
            // the pair that `c` comes to lie on had room for it
            lemma_mask_neighbours(below(c));
            self.lemma_open_pair_counts(below(c));
            assert(self.lying_in_pair(c) < self.shown_in_pair(below(c)));
        }
        if m is PileStack {
            // the pair that `c` leaves had a card with nothing on it
            self.lemma_open_pair_counts(c);
            if c.0 >= 4 {
                lemma_mask_neighbours(above(c));
                assert(self.lying_in_pair(above(c)) < self.shown_in_pair(c));
            }
        }
        assert forall|d: Card| d.0 < 48 implies #[trigger] r.lying_in_pair(d) <= r.shown_in_pair(
            below(d),
        ) by {
            let e = below(d);
            let pd = partner(d);
            let pe = partner(e);
            lemma_mask_neighbours(d);
            lemma_mask_neighbours(e);
            lemma_mask_neighbours(pd);
            lemma_mask_neighbours(pe);
            self.lemma_after_masks(m, d);
            self.lemma_after_masks(m, pd);
            self.lemma_after_masks(m, e);
            self.lemma_after_masks(m, pe);
            assert(self.lying_in_pair(d) <= self.shown_in_pair(e));
            let in_d = c == d || c == pd;
            let in_e = c == e || c == pe;
            if in_d {
                assert(self.lying_in_pair(c) == self.lying_in_pair(d));
                assert(below(c) == e || below(c) == pe);
                assert(self.shown_in_pair(below(c)) == self.shown_in_pair(e));
            }
            if in_e {
                assert(self.shown_in_pair(c) == self.shown_in_pair(e));
                assert(above(c) == d || above(c) == pd);
                assert(self.lying_in_pair(above(c)) == self.lying_in_pair(d));
            }
            // the cards of the pair of `d` lie on a card after the move if they did
            // before, or if the move has laid them there
            assert(r.covering(d) ==> self.covering(d) || (placed && c == d));
            assert(r.covering(pd) ==> self.covering(pd) || (placed && c == pd));
            // the cards of the pair of `e` lie face up after the move if they did before,
            // unless the move has taken them to the foundation
            assert(self.shown(e) ==> r.shown(e) || (m is PileStack && c == e));
            assert(self.shown(pe) ==> r.shown(pe) || (m is PileStack && c == pe));
        }
    }
}

} // verus!
