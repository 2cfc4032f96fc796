//! What a branch of a search remembers of the moves that led to it, and the
//! moves that it need not try for that.

use crate::bits::{bit64, lemma_bit64_consts, lemma_bit64_ops, lemma_bit64_shifts, lemma_bit64_single};
use crate::card::{
    below, card_mask, in_mask, lemma_in_mask_ops, lemma_in_mask_single, lemma_in_mask_test,
    lemma_mask_index, lemma_mask_neighbours, mask_index, partner, Card, ALT_MASK, KING_MASK,
    KING_RANK,
};
use crate::engine::Solitaire;
use crate::moves::Move;
use vstd::prelude::*;

verus! {

/// What a branch of a search remembers: the last move, the move that would
/// take it back, and the last card that came from the deck to the tableau.
pub struct PruneInfo {
    rev_move: Option<Move>,
    last_move: Move,
    last_draw: Option<Card>,
}

/// What [`PruneInfo`] is to the contracts.
pub struct PruneView {
    /// The move that would take the last move back.
    pub rev_move: Option<Move>,
    /// The last move.
    pub last_move: Move,
    /// The card that last came from the deck to the tableau, while no card from
    /// the foundation has been laid on it.
    pub last_draw: Option<Card>,
}

/// The draw that is remembered after move `m`: a card that comes from the deck
/// to the tableau is remembered; a card from the foundation that can lie on
/// the remembered card makes it forgotten, and so does a reveal.
pub open spec fn next_draw(last_draw: Option<Card>, m: Move) -> Option<Card> {
    match m {
        Move::DeckPile(c) => Some(c),
        Move::StackPile(c) => match last_draw {
            Some(d) => if d.spec_go_before(&c) {
                None
            } else {
                Some(d)
            },
            None => None,
        },
        Move::PileStack(_) => last_draw,
        Move::DeckStack(_) => last_draw,
        Move::Reveal(_) => None,
    }
}

/// The pair of `d`: `d` and the other card of its rank and colour.
pub open spec fn in_pair(c: Card, d: Card) -> bool {
    c == d || c == partner(d)
}

impl PruneView {
    pub open spec fn wf(self) -> bool {
        &&& self.last_move.spec_card().0 < 64
        &&& match self.rev_move {
            Some(r) => r.spec_card().0 < 64,
            None => true,
        }
        &&& match self.last_draw {
            Some(d) => d.0 < 64,
            None => true,
        }
    }

    /// Whether move `m` is still tried with this draw remembered: a card of the
    /// tableau does not go to the foundation if it is the partner of the
    /// remembered card, and a card is revealed only onto the remembered card.
    pub open spec fn emits(self, m: Move) -> bool {
        match self.last_draw {
            Some(d) => match m {
                Move::PileStack(c) => !(d.spec_rank() == c.spec_rank() && (d.spec_suit()
                    ^ c.spec_suit()) == 1),
                Move::Reveal(c) => d.spec_go_before(&c),
                _ => true,
            },
            None => true,
        }
    }

    /// Whether the filter drops the move of kind `kind` that plays `c`, where
    /// `first_layer` tells the deepest cards of the piles. After a reveal of
    /// such a card, no king is placed. With a draw remembered, its partner does
    /// not go from the tableau to the foundation, and a card is revealed only
    /// if it fits on the pair of the draw or is a deepest card. And the last
    /// move is not taken back.
    pub open spec fn filters(self, first_layer: u64, kind: int, c: Card) -> bool {
        ||| (kind >= 2 && c.spec_rank() == KING_RANK && match self.last_move {
            Move::Reveal(r) => in_mask(first_layer, r),
            _ => false,
        })
        ||| match self.last_draw {
            Some(d) => (kind == 0 && c == partner(d)) || (kind == 4 && !(c.0 < 60 && in_pair(
                below(c),
                d,
            )) && !in_mask(first_layer, c)),
            None => false,
        }
        ||| match self.rev_move {
            Some(r) => r.spec_kind() == kind && r.spec_card() == c,
            None => false,
        }
    }
}

impl View for PruneInfo {
    type V = PruneView;

    closed spec fn view(&self) -> PruneView {
        PruneView { rev_move: self.rev_move, last_move: self.last_move, last_draw: self.last_draw }
    }
}

impl Default for PruneInfo {
    /// Nothing is remembered.
    fn default() -> (p: PruneInfo)
        ensures
            p@.wf(),
            p@.rev_move.is_none(),
            p@.last_move == Move::spec_fake(),
            p@.last_draw.is_none(),
    {
        PruneInfo { rev_move: None, last_move: Move::fake(), last_draw: None }
    }
}

/// Both bits of the pair of the card whose bit is `m`.
fn pair_bits(d: &Card) -> (mm: u64)
    requires
        d.0 < 64,
    ensures
        forall|c: Card| c.0 < 64 ==> (#[trigger] in_mask(mm, c) <==> in_pair(c, *d)),
{
    let m = card_mask(d);
    let p = (m | (m >> 1)) & ALT_MASK;
    let mm = p | (p << 1);
    proof {
        assert forall|c: Card| c.0 < 64 implies (#[trigger] in_mask(mm, c) <==> in_pair(c, *d)) by {
            let k = mask_index(c.0) as u64;
            let kd = mask_index(d.0) as u64;
            lemma_mask_index(c.0);
            lemma_mask_index(d.0);
            lemma_mask_neighbours(*d);
            lemma_mask_index(partner(*d).0);
            lemma_bit64_ops(p, p << 1, k);
            lemma_bit64_shifts(p, k);
            lemma_bit64_ops(m | (m >> 1), ALT_MASK, k);
            lemma_bit64_consts(k);
            lemma_bit64_consts(kd);
            lemma_bit64_ops(m, m >> 1, k);
            lemma_bit64_shifts(m, k);
            lemma_bit64_single(kd, k);
            if k < 63 {
                lemma_bit64_single(kd, (k + 1) as u64);
            }
            if k >= 1 {
                let j = (k - 1) as u64;
                lemma_bit64_ops(m | (m >> 1), ALT_MASK, j);
                lemma_bit64_consts(j);
                lemma_bit64_ops(m, m >> 1, j);
                lemma_bit64_shifts(m, j);
                lemma_bit64_single(kd, j);
                lemma_bit64_single(kd, k);
            }
            if in_pair(c, *d) {
                assert(k == kd || k == kd ^ 1);
            }
            if k == kd || k == kd ^ 1 {
                assert(mask_index(mask_index(c.0)) == c.0);
                assert(c.0 == d.0 || c.0 == partner(*d).0);
            }
        }
    }
    mm
}

impl PruneInfo {
    /// What is remembered after move `m`, made in the state `game` by a branch
    /// that remembered `prev`.
    pub fn new(game: &Solitaire, prev: &PruneInfo, m: &Move) -> (p: PruneInfo)
        requires
            prev@.wf(),
            m.spec_card().0 < 64,
        ensures
            p@.wf(),
            p@.rev_move == game@.rev_move(*m),
            p@.last_move == *m,
            p@.last_draw == next_draw(prev@.last_draw, *m),
    {
        let last_draw = match *m {
            Move::DeckPile(c) => Some(c),
            Move::StackPile(c) => match prev.last_draw {
                Some(d) => if d.go_before(&c) {
                    None
                } else {
                    Some(d)
                },
                None => None,
            },
            Move::PileStack(_) => prev.last_draw,
            Move::DeckStack(_) => prev.last_draw,
            Move::Reveal(_) => None,
        };
        PruneInfo { rev_move: game.get_rev_move(m), last_move: *m, last_draw }
    }

    /// The move that would take the last move back.
    pub fn rev_move(&self) -> (r: Option<Move>)
        ensures
            r == self@.rev_move,
    {
        self.rev_move
    }

    /// The last move.
    pub fn last_move(&self) -> (m: Move)
        ensures
            m == self@.last_move,
    {
        self.last_move
    }

    /// The card that last came from the deck to the tableau, if it is still
    /// remembered.
    pub fn last_draw(&self) -> (d: Option<Card>)
        ensures
            d == self@.last_draw,
    {
        self.last_draw
    }

    /// Whether move `m` is still tried with what is remembered of the last draw.
    pub fn emits(&self, m: &Move) -> (b: bool)
        ensures
            b == self@.emits(*m),
    {
        match self.last_draw {
            Some(d) => match *m {
                Move::PileStack(c) => !(d.rank() == c.rank() && (d.suit() ^ c.suit()) == 1),
                Move::Reveal(c) => d.go_before(&c),
                _ => true,
            },
            None => true,
        }
    }

    /// For each kind of move, in the order of [`Move::kind`], the cards that
    /// need not be played that way from here: see [`PruneView::filters`].
    pub fn prune_moves(&self, game: &Solitaire) -> (f: [u64; 5])
        requires
            self@.wf(),
        ensures
            forall|k: int, c: Card|
                0 <= k < 5 && c.0 < 64 ==> (#[trigger] in_mask(f@[k], c) <==> self@.filters(
                    game@.hidden.first_layer,
                    k,
                    c,
                )),
    {
        let first_layer = game.get_hidden().first_layer_mask();
        let ghost fl = first_layer;
        let after_reveal = match self.last_move {
            Move::Reveal(c) => {
                proof {
                    lemma_in_mask_test(first_layer, c);
                }
                first_layer & card_mask(&c) != 0
            },
            _ => false,
        };
        let kings = if after_reveal {
            KING_MASK
        } else {
            0
        };
        let (stack_part, reveal_part) = match self.last_draw {
            Some(d) => {
                let m = card_mask(&d);
                let mm = pair_bits(&d);
                proof {
                    assert forall|c: Card| c.0 < 64 implies (#[trigger] in_mask(mm & !m, c) <==> c
                        == partner(d)) by {
                        lemma_in_mask_ops(mm, !m, c);
                        lemma_in_mask_ops(m, 0, c);
                        lemma_in_mask_single(d, c);
                        lemma_mask_neighbours(d);
                    }
                    assert forall|c: Card| c.0 < 64 implies (#[trigger] in_mask(
                        !((mm >> 4) | first_layer),
                        c,
                    ) <==> !(c.0 < 60 && in_pair(below(c), d)) && !in_mask(first_layer, c)) by {
                        let k = mask_index(c.0) as u64;
                        lemma_mask_index(c.0);
                        lemma_mask_neighbours(c);
                        lemma_in_mask_ops((mm >> 4) | first_layer, 0, c);
                        lemma_in_mask_ops(mm >> 4, first_layer, c);
                        lemma_bit64_shifts(mm, k);
                        if c.0 < 60 {
                            assert(in_mask(mm, below(c)) == bit64(mm, (k + 4) as u64));
                        }
                    }
                }
                (mm & !m, !((mm >> 4) | first_layer))
            },
            None => (0, 0),
        };
        let mut filter = [stack_part, 0, kings, kings, kings | reveal_part];
        proof {
            assert forall|k: int, c: Card| 0 <= k < 5 && c.0 < 64 implies (#[trigger] in_mask(
                filter@[k],
                c,
            ) <==> (PruneView { rev_move: None, ..self@ }).filters(fl, k, c)) by {
                lemma_in_mask_ops(kings, reveal_part, c);
                lemma_in_mask_ops(0, 0, c);
                lemma_mask_index(c.0);
                lemma_bit64_consts(mask_index(c.0) as u64);
            }
        }
        match self.rev_move {
            Some(r) => {
                let c = r.card();
                let k = r.kind();
                let ghost before = filter@;
                let bit = card_mask(&c);
                filter[k] = filter[k] | bit;
                proof {
                    assert forall|j: int, x: Card| 0 <= j < 5 && x.0 < 64 implies (
                    #[trigger] in_mask(filter@[j], x) <==> self@.filters(fl, j, x)) by {
                        lemma_in_mask_ops(before[k as int], bit, x);
                        lemma_in_mask_single(c, x);
                        assert(in_mask(before[j], x) <==> (PruneView {
                            rev_move: None,
                            ..self@
                        }).filters(fl, j, x));
                    }
                }
            },
            None => {},
        }
        filter
    }
}

} // verus!
