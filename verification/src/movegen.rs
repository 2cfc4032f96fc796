//! The move generator: which cards may go where, read off the bitboards.

use crate::bits::{
    bit64, count_ones, lemma_bit64_consts, lemma_bit64_ops, lemma_bit64_shifts, popcount,
};
use crate::card::{
    above, below, card_mask, from_mask, in_mask, lemma_in_mask_ops, lemma_in_mask_single,
    lemma_mask_index, lemma_mask_neighbours, mask_index, mask_of, partner, Card, ALT_MASK,
    KING_MASK, KING_RANK, N_CARDS, N_SUITS,
};
use crate::deck::N_PILES;
use crate::engine::{MoveVec, Solitaire, SolitaireView};
use crate::moves::Move;
use vstd::prelude::*;
use vstd::std_specs::bits::{axiom_u64_trailing_zeros, u64_trailing_zeros};

verus! {

/// The bits of the 52 cards.
pub const CARD_MASK: u64 = 0x000F_FFFF_FFFF_FFFF;

/// The bits of the aces and the twos.
pub const SAFE_MASK: u64 = 0xFF;

/// For each pair of cards of one rank and colour, both bits if the pair has a
/// card with nothing on it: if more of the pair lie face up than cards lie on
/// them. The cards that lie on a pair are those of the pair four bits below
/// that lie face up and head no pile.
pub open spec fn pair_mask(vis: u64, top: u64) -> u64 {
    let nt = vis & !top;
    let xv = vis ^ (vis >> 1);
    let ov = vis | (vis >> 1);
    let xn = (nt ^ (nt >> 1)) << 4;
    let on = (nt | (nt >> 1)) << 4;
    let p = ((xv ^ xn) | (ov & !on)) & ALT_MASK;
    (p | (p << 1)) & CARD_MASK
}

/// With `a`, `b` telling which cards of a pair lie face up and `x`, `y` which
/// of the two cards that may lie on them do so: the pair has a card with
/// nothing on it. (No more cards lie on a pair than the pair has face up.)
pub open spec fn pair_open(a: bool, b: bool, x: bool, y: bool) -> bool {
    ((a != b) != (x != y)) || ((a || b) && !(x || y))
}

/// What [`pair_mask`] holds at bit `k`.
proof fn lemma_pair_mask(vis: u64, top: u64, k: u64)
    requires
        k < 64,
    ensures
        bit64(pair_mask(vis, top), k) == (k < 52 && {
            let e = if k % 2 == 0 {
                k
            } else {
                (k - 1) as u64
            };
            pair_open(
                bit64(vis, e),
                bit64(vis, (e + 1) as u64),
                e >= 4 && bit64(vis & !top, (e - 4) as u64),
                e >= 4 && bit64(vis & !top, (e - 3) as u64),
            )
        }),
{
    let nt = vis & !top;
    let xv = vis ^ (vis >> 1);
    let ov = vis | (vis >> 1);
    let n1 = nt ^ (nt >> 1);
    let n2 = nt | (nt >> 1);
    let xn = n1 << 4;
    let on = n2 << 4;
    let w = (xv ^ xn) | (ov & !on);
    let p = w & ALT_MASK;
    let e = if k % 2 == 0 {
        k
    } else {
        (k - 1) as u64
    };
    lemma_bit64_ops(p | (p << 1), CARD_MASK, k);
    lemma_bit64_ops(p, p << 1, k);
    lemma_bit64_consts(k);
    lemma_bit64_shifts(p, k);
    lemma_bit64_ops(w, ALT_MASK, k);
    lemma_bit64_ops(w, ALT_MASK, e);
    lemma_bit64_consts(e);
    if k >= 1 {
        lemma_bit64_ops(w, ALT_MASK, (k - 1) as u64);
        lemma_bit64_consts((k - 1) as u64);
    }
    assert(bit64(p | (p << 1), k) == bit64(w, e));
    lemma_bit64_ops(xv ^ xn, ov & !on, e);
    lemma_bit64_ops(xv, xn, e);
    lemma_bit64_ops(ov, !on, e);
    lemma_bit64_ops(on, 0, e);
    lemma_bit64_ops(vis, vis >> 1, e);
    lemma_bit64_shifts(vis, e);
    lemma_bit64_shifts(n1, e);
    lemma_bit64_shifts(n2, e);
    if e >= 4 {
        lemma_bit64_ops(nt, nt >> 1, (e - 4) as u64);
        lemma_bit64_shifts(nt, (e - 4) as u64);
    }
}

impl SolitaireView {
    /// `c` lies face up on another card, or is a king at the foot of a column.
    pub open spec fn covering(self, c: Card) -> bool {
        self.shown(c) && !self.heading(c)
    }

    /// The pair of `c` has a card with nothing on it: more of `c` and its
    /// partner lie face up than cards lie on them. A pair has the same cards
    /// on it whichever of the two carries them, and plays the same.
    pub open spec fn open_pair(self, c: Card) -> bool {
        pair_open(
            self.shown(c),
            self.shown(partner(c)),
            c.0 >= 4 && self.covering(above(c)),
            c.0 >= 4 && self.covering(partner(above(c))),
        )
    }

    /// Number of columns that are not empty: those with a card on face-down
    /// cards, and those that a king heads.
    pub open spec fn occupied(self) -> nat {
        count_ones((self.visible & KING_MASK) | self.top)
    }

    /// There is a place for `c` in the tableau: an empty column for a king, for
    /// another card a card of the next rank and the other colour with nothing
    /// on it.
    pub open spec fn hostable(self, c: Card) -> bool {
        if c.spec_rank() == KING_RANK {
            self.occupied() < N_PILES
        } else {
            self.open_pair(below(c))
        }
    }

    /// `c` is the next card for the foundation of its suit.
    pub open spec fn fits_stack(self, c: Card) -> bool {
        c.spec_rank() == self.stack[c.spec_suit() as int]
    }

    /// `c` lies on top of the foundation of its suit.
    pub open spec fn tops_stack(self, c: Card) -> bool {
        c.spec_rank() + 1 == self.stack[c.spec_suit() as int]
    }

    /// `c` lies in the tableau with nothing on it, and is the next card for its
    /// foundation.
    pub open spec fn playable(self, c: Card) -> bool {
        c.0 < N_CARDS && self.shown(c) && self.open_pair(c) && self.fits_stack(c)
    }

    /// `c` is an ace or a two that can go to the foundation from the tableau: a
    /// move that never harms.
    pub open spec fn safe(self, c: Card) -> bool {
        self.playable(c) && c.spec_rank() < 2
    }

    pub open spec fn has_safe(self) -> bool {
        exists|c: Card| c.0 < 64 && #[trigger] self.safe(c)
    }

    /// `c` is the first card, in bitboard order, that is [`SolitaireView::safe`].
    pub open spec fn first_safe(self, c: Card) -> bool {
        c.0 < 64 && self.safe(c) && forall|x: Card|
            x.0 < 64 && #[trigger] self.safe(x) ==> mask_index(c.0) <= mask_index(x.0)
    }

    /// The rule of each kind of move: whether the position allows `m`.
    pub open spec fn legal(self, m: Move) -> bool {
        match m {
            Move::PileStack(c) => self.playable(c),
            Move::DeckStack(c) => self.deck.offers(false, c) && self.fits_stack(c),
            Move::StackPile(c) => c.0 < N_CARDS && self.tops_stack(c) && self.hostable(c),
            Move::DeckPile(c) => self.deck.offers(false, c) && self.hostable(c),
            Move::Reveal(c) => c.0 < N_CARDS && self.heading(c) && self.hostable(c),
        }
    }

    /// The last card of the deck is an ace or a two that can go to the
    /// foundation: taking it moves no other card of the deck, and never harms.
    pub open spec fn safe_draw(self) -> bool {
        self.deck.len() > 0 && self.fits_stack(self.deck.cards.last())
            && self.deck.cards.last().spec_rank() < 2
    }

    /// Whether the generator offers `m`. Without `dom`, every legal move. With
    /// it: if an ace or a two can go to the foundation from the tableau, the
    /// first such move and no other; else, if the last card of the deck is an
    /// ace or a two that can go to the foundation, the moves from the deck to
    /// the foundation that need no redeal, and no other; else the legal moves
    /// but those that take an ace or a two back from the foundation.
    pub open spec fn offered(self, dom: bool, m: Move) -> bool {
        if dom && self.has_safe() {
            match m {
                Move::PileStack(c) => self.first_safe(c),
                _ => false,
            }
        } else if dom && self.safe_draw() {
            match m {
                Move::DeckStack(c) => self.deck.offers(true, c) && self.fits_stack(c),
                _ => false,
            }
        } else {
            match m {
                Move::PileStack(c) => self.playable(c),
                Move::DeckStack(c) => self.deck.offers(false, c) && self.fits_stack(c),
                Move::StackPile(c) => c.0 < N_CARDS && self.tops_stack(c) && self.hostable(c) && !(
                dom && c.spec_rank() < 2),
                Move::DeckPile(c) => self.deck.offers(false, c) && self.hostable(c),
                Move::Reveal(c) => c.0 < N_CARDS && self.heading(c) && self.hostable(c),
            }
        }
    }

    /// The move that takes `m` back, if one move can: a card that went from
    /// the tableau to the foundation without turning a card up can come back,
    /// and a card that came from the foundation can go there again.
    pub open spec fn rev_move(self, m: Move) -> Option<Move> {
        match m {
            Move::PileStack(c) => if self.heading(c) {
                None
            } else {
                Some(Move::StackPile(c))
            },
            Move::StackPile(c) => Some(Move::PileStack(c)),
            _ => None,
        }
    }

    /// The filter of the five kinds of move, in the order of [`Move::kind`].
    pub open spec fn offers_card(self, dom: bool, kind: int, c: Card) -> bool {
        if kind == 0 {
            self.offered(dom, Move::PileStack(c))
        } else if kind == 1 {
            self.offered(dom, Move::DeckStack(c))
        } else if kind == 2 {
            self.offered(dom, Move::StackPile(c))
        } else if kind == 3 {
            self.offered(dom, Move::DeckPile(c))
        } else {
            self.offered(dom, Move::Reveal(c))
        }
    }
}

/// The move of kind `kind` that plays `c`.
pub open spec fn spec_make_move(kind: usize, c: Card) -> Move {
    if kind == 0 {
        Move::PileStack(c)
    } else if kind == 1 {
        Move::DeckStack(c)
    } else if kind == 2 {
        Move::StackPile(c)
    } else if kind == 3 {
        Move::DeckPile(c)
    } else {
        Move::Reveal(c)
    }
}

/// Where a move stands in the list of the moves of a state: first by its
/// kind, then by the bit of its card.
pub open spec fn move_key(m: Move) -> int {
    m.spec_kind() * 64 + mask_index(m.spec_card().0)
}

/// The move of kind `kind` that plays `c`.
#[verifier::when_used_as_spec(spec_make_move)]
pub fn make_move(kind: usize, c: Card) -> (m: Move)
    ensures
        m == spec_make_move(kind, c),
{
    if kind == 0 {
        Move::PileStack(c)
    } else if kind == 1 {
        Move::DeckStack(c)
    } else if kind == 2 {
        Move::StackPile(c)
    } else if kind == 3 {
        Move::DeckPile(c)
    } else {
        Move::Reveal(c)
    }
}

/// Appends to `out` the moves of kind `kind` for the cards of `mask`, lowest
/// bit first.
pub fn push_moves(out: &mut Vec<Move>, mask: u64, kind: usize)
    requires
        kind < 5,
        forall|c: Card| c.0 < 64 && #[trigger] in_mask(mask, c) ==> c.0 < 56,
    ensures
        forall|m: Move|
            #[trigger] final(out)@.contains(m) <==> (old(out)@.contains(m) || (m.spec_kind()
                == kind && m.spec_card().0 < 64 && in_mask(mask, m.spec_card()))),
        old(out)@.no_duplicates() && (forall|m: Move|
            #[trigger] old(out)@.contains(m) ==> m.spec_kind() != kind) ==> final(out)@.no_duplicates(),
        old(out)@.len() <= final(out)@.len(),
        forall|a: int| 0 <= a < old(out)@.len() ==> #[trigger] final(out)@[a] == old(out)@[a],
        forall|a: int|
            old(out)@.len() <= a < final(out)@.len() ==> (#[trigger] final(out)@[a]).spec_kind() == kind
                && final(out)@[a].spec_card().0 < 64,
        forall|a: int, b: int|
            old(out)@.len() <= a < b < final(out)@.len() ==> mask_index(
                (#[trigger] final(out)@[a]).spec_card().0,
            ) < mask_index((#[trigger] final(out)@[b]).spec_card().0),
{
    let mut rest = mask;
    while rest != 0
        invariant
            kind < 5,
            old(out)@.len() <= out@.len(),
            forall|a: int| 0 <= a < old(out)@.len() ==> #[trigger] out@[a] == old(out)@[a],
            forall|a: int|
                old(out)@.len() <= a < out@.len() ==> (#[trigger] out@[a]).spec_kind() == kind
                    && out@[a].spec_card().0 < 64,
            forall|a: int, b: int|
                old(out)@.len() <= a < b < out@.len() ==> mask_index(
                    (#[trigger] out@[a]).spec_card().0,
                ) < mask_index((#[trigger] out@[b]).spec_card().0),
            forall|a: int, x: Card|
                old(out)@.len() <= a < out@.len() && x.0 < 64 && #[trigger] in_mask(rest, x)
                    ==> mask_index((#[trigger] out@[a]).spec_card().0) < mask_index(x.0),
            old(out)@.no_duplicates() && (forall|m: Move|
                #[trigger] old(out)@.contains(m) ==> m.spec_kind() != kind)
                ==> out@.no_duplicates(),
            forall|c: Card| c.0 < 64 && #[trigger] in_mask(rest, c) ==> in_mask(mask, c),
            forall|c: Card| c.0 < 64 && #[trigger] in_mask(mask, c) ==> c.0 < 56,
            forall|m: Move|
                #[trigger] out@.contains(m) <==> (old(out)@.contains(m) || (m.spec_kind() == kind
                    && m.spec_card().0 < 64 && in_mask(mask, m.spec_card()) && !in_mask(
                    rest,
                    m.spec_card(),
                ))),
        decreases rest,
    {
        proof {
            axiom_u64_trailing_zeros(rest);
            let t = u64_trailing_zeros(rest) as u8;
            lemma_mask_index(t);
            let lowest = Card(mask_index(t));
            assert(in_mask(rest, lowest));
            assert(in_mask(mask, lowest));
        }
        let c = from_mask(&rest);
        let bit = card_mask(&c);
        let ghost before = out@;
        let ghost prev = rest;
        out.push(make_move(kind, c));
        rest = rest ^ bit;
        proof {
            let t = u64_trailing_zeros(prev) as u64;
            lemma_mask_index(t as u8);
            crate::bits::lemma_bit64_clear_less(prev, t);
            assert(out@ == before.push(make_move(kind, c)));
            assert forall|x: Card| x.0 < 64 implies (#[trigger] in_mask(rest, x) <==> in_mask(
                prev,
                x,
            ) && x != c) by {
                lemma_in_mask_ops(prev, bit, x);
                lemma_in_mask_single(c, x);
            }
            lemma_mask_index(c.0);
            assert(mask_index(c.0) == t);
            assert forall|a: int, x: Card|
                old(out)@.len() <= a < out@.len() && x.0 < 64 && #[trigger] in_mask(
                    rest,
                    x,
                ) implies mask_index((#[trigger] out@[a]).spec_card().0) < mask_index(x.0) by {
                lemma_mask_index(x.0);
                if a < before.len() {
                    assert(before[a] == out@[a]);
                    assert(in_mask(prev, x));
                } else {
                    let j = mask_index(x.0) as u64;
                    if j < t {
                        assert((prev >> j) & 1u64 == 0u64);
                    }
                    if j == t {
                        assert(mask_index(mask_index(x.0)) == mask_index(mask_index(c.0)));
                    }
                }
            }
            assert forall|a: int, b: int| old(out)@.len() <= a < b < out@.len() implies mask_index(
                (#[trigger] out@[a]).spec_card().0,
            ) < mask_index((#[trigger] out@[b]).spec_card().0) by {
                assert(before[a] == out@[a]);
                if b < before.len() {
                    assert(before[b] == out@[b]);
                } else {
                    assert(in_mask(prev, c));
                }
            }
            if old(out)@.no_duplicates() && (forall|m: Move|
                #[trigger] old(out)@.contains(m) ==> m.spec_kind() != kind) {
                let mv = make_move(kind, c);
                assert(in_mask(prev, c));
                assert(!before.contains(mv));
                assert forall|i: int, j: int|
                    0 <= i < out@.len() && 0 <= j < out@.len() && i != j implies out@[i]
                    != out@[j] by {
                    if i < before.len() && j < before.len() {
                        assert(before[i] != before[j]);
                    } else if i < before.len() {
                        assert(before.contains(before[i]));
                    } else {
                        assert(before.contains(before[j]));
                    }
                }
            }
            assert forall|m: Move|
                #[trigger] out@.contains(m) <==> (old(out)@.contains(m) || (m.spec_kind() == kind
                    && m.spec_card().0 < 64 && in_mask(mask, m.spec_card()) && !in_mask(
                    rest,
                    m.spec_card(),
                ))) by {
                let mv = make_move(kind, c);
                if m.spec_card().0 < 64 {
                    assert(in_mask(rest, m.spec_card()) <==> in_mask(prev, m.spec_card())
                        && m.spec_card() != c);
                }
                if out@.contains(m) {
                    let j = choose|j: int| 0 <= j < out@.len() && out@[j] == m;
                    if j < before.len() {
                        assert(before[j] == m);
                        assert(before.contains(m));
                    }
                }
                if before.contains(m) {
                    let j = choose|j: int| 0 <= j < before.len() && before[j] == m;
                    assert(out@[j] == m);
                }
                if m == mv {
                    assert(out@[before.len() as int] == m);
                }
                if m.spec_kind() == kind && m.spec_card() == c {
                    assert(m == mv);
                }
            }
        }
    }
    proof {
        assert forall|m: Move|
            #[trigger] out@.contains(m) <==> (old(out)@.contains(m) || (m.spec_kind() == kind
                && m.spec_card().0 < 64 && in_mask(mask, m.spec_card()))) by {
            if m.spec_card().0 < 64 {
                lemma_in_mask_ops(0, 0, m.spec_card());
            }
        }
    }
}

impl Solitaire {
    /// The pairs that have a card with nothing on it, both bits for each.
    #[must_use]
    pub fn get_bottom_mask(&self) -> (bm: u64)
        requires
            self.wf(),
        ensures
            forall|c: Card|
                c.0 < 64 ==> (#[trigger] in_mask(bm, c) <==> c.0 < N_CARDS && self@.open_pair(c)),
    {
        let vis = self.get_visible_mask();
        let top = self.get_top_mask();
        let nt = vis & !top;
        let xv = vis ^ (vis >> 1);
        let ov = vis | (vis >> 1);
        let xn = (nt ^ (nt >> 1)) << 4;
        let on = (nt | (nt >> 1)) << 4;
        let p = ((xv ^ xn) | (ov & !on)) & ALT_MASK;
        let bm = (p | (p << 1)) & CARD_MASK;
        proof {
            assert(bm == pair_mask(vis, top));
            assert forall|c: Card| c.0 < 64 implies (#[trigger] in_mask(bm, c) <==> c.0 < N_CARDS
                && self@.open_pair(c)) by {
                lemma_open_pair(self@, c);
            }
        }
        bm
    }

    /// The next card for each foundation.
    #[must_use]
    pub fn get_stack_mask(&self) -> (sm: u64)
        requires
            self.wf(),
        ensures
            forall|c: Card|
                c.0 < 64 ==> (#[trigger] in_mask(sm, c) <==> c.0 < 56 && self@.fits_stack(c)),
    {
        let stack = self.get_stack();
        let mut sm: u64 = 0;
        let mut s: u8 = 0;
        proof {
            self.lemma_wf();
            assert forall|c: Card| c.0 < 64 implies !in_mask(0, c) by {
                lemma_in_mask_ops(0, 0, c);
            }
        }
        while s < N_SUITS
            invariant
                s <= N_SUITS,
                self@.wf(),
                stack@ == self@.stack,
                forall|c: Card|
                    c.0 < 64 ==> (#[trigger] in_mask(sm, c) <==> c.0 < 56 && c.spec_suit() < s
                        && self@.fits_stack(c)),
            decreases N_SUITS - s,
        {
            assert(stack@[s as int] <= 13);
            let next = Card::new(stack[s as usize], s);
            let m = card_mask(&next);
            proof {
                assert forall|c: Card| c.0 < 64 implies (#[trigger] in_mask(sm | m, c) <==> c.0 < 56
                    && c.spec_suit() < s + 1 && self@.fits_stack(c)) by {
                    lemma_in_mask_ops(sm, m, c);
                    lemma_in_mask_single(next, c);
                }
            }
            sm |= m;
            s += 1;
        }
        sm
    }

    /// The card on top of each foundation.
    #[must_use]
    pub fn get_top_stack_mask(&self) -> (fm: u64)
        requires
            self.wf(),
        ensures
            forall|c: Card|
                c.0 < 64 ==> (#[trigger] in_mask(fm, c) <==> c.0 < N_CARDS && self@.tops_stack(c)),
    {
        let stack = self.get_stack();
        let mut fm: u64 = 0;
        let mut s: u8 = 0;
        proof {
            self.lemma_wf();
            assert forall|c: Card| c.0 < 64 implies !in_mask(0, c) by {
                lemma_in_mask_ops(0, 0, c);
            }
        }
        while s < N_SUITS
            invariant
                s <= N_SUITS,
                self@.wf(),
                stack@ == self@.stack,
                forall|c: Card|
                    c.0 < 64 ==> (#[trigger] in_mask(fm, c) <==> c.0 < N_CARDS && c.spec_suit() < s
                        && self@.tops_stack(c)),
            decreases N_SUITS - s,
        {
            assert(stack@[s as int] <= 13);
            let n = stack[s as usize];
            let ghost before = fm;
            if n > 0 {
                let last = Card::new(n - 1, s);
                let m = card_mask(&last);
                proof {
                    assert forall|c: Card| c.0 < 64 implies (#[trigger] in_mask(fm | m, c) <==> c.0
                        < N_CARDS && c.spec_suit() < s + 1 && self@.tops_stack(c)) by {
                        lemma_in_mask_ops(fm, m, c);
                        lemma_in_mask_single(last, c);
                    }
                }
                fm |= m;
            }
            s += 1;
        }
        fm
    }

    /// The cards that a move may draw from the deck.
    #[must_use]
    pub fn get_deck_mask(&self, filter: bool) -> (dm: u64)
        requires
            self.wf(),
        ensures
            forall|c: Card| c.0 < 64 ==> (#[trigger] in_mask(dm, c) <==> self@.deck.offers(filter, c)),
            forall|c: Card| self@.deck.offers(filter, c) ==> c.0 < N_CARDS,
    {
        let deck = self.get_deck();
        let v = deck.iter_drawable(filter);
        let mut dm: u64 = 0;
        let mut i: usize = 0;
        proof {
            self.lemma_wf();
            assert forall|c: Card| c.0 < 64 implies !in_mask(0, c) by {
                lemma_in_mask_ops(0, 0, c);
            }
        }
        while i < v.len()
            invariant
                i <= v.len(),
                self@.wf(),
                deck@ == self@.deck,
                forall|j: int|
                    0 <= j < v@.len() ==> (#[trigger] v@[j]).0 < deck@.len() && v@[j].1
                        == deck@.cards[v@[j].0 as int],
                forall|c: Card|
                    c.0 < 64 ==> (#[trigger] in_mask(dm, c) <==> exists|j: int|
                        0 <= j < i && (#[trigger] v@[j]).1 == c),
            decreases v.len() - i,
        {
            let c = v[i].1;
            assert(deck@.cards[v@[i as int].0 as int].0 < N_CARDS);
            let m = card_mask(&c);
            proof {
                assert forall|x: Card| x.0 < 64 implies (#[trigger] in_mask(dm | m, x)
                    <==> exists|j: int| 0 <= j < i + 1 && (#[trigger] v@[j]).1 == x) by {
                    lemma_in_mask_ops(dm, m, x);
                    lemma_in_mask_single(c, x);
                    if in_mask(dm, x) {
                        let j = choose|j: int| 0 <= j < i && (#[trigger] v@[j]).1 == x;
                        assert(0 <= j < i + 1 && v@[j].1 == x);
                    }
                    if c == x {
                        assert(v@[i as int].1 == x);
                    }
                    if exists|j: int| 0 <= j < i + 1 && (#[trigger] v@[j]).1 == x {
                        let j = choose|j: int| 0 <= j < i + 1 && (#[trigger] v@[j]).1 == x;
                        if j < i {
                            assert(in_mask(dm, x));
                        }
                    }
                }
            }
            dm |= m;
            i += 1;
        }
        proof {
            let d = deck@;
            let ps = d.drawables(filter);
            assert(v@.len() == ps.len());
            assert forall|c: Card| d.offers(filter, c) implies c.0 < N_CARDS by {
                let k = choose|k: int|
                    0 <= k < ps.len() && 0 <= #[trigger] ps[k] < d.len() && d.cards[ps[k]] == c;
                assert(d.cards[ps[k]].0 < N_CARDS);
            }
            assert forall|c: Card| c.0 < 64 implies (#[trigger] in_mask(dm, c) <==> d.offers(
                filter,
                c,
            )) by {
                if in_mask(dm, c) {
                    let j = choose|j: int| 0 <= j < v@.len() && (#[trigger] v@[j]).1 == c;
                    d.lemma_drawables_range(filter, j);
                    assert(v@[j] == d.visit(ps[j]));
                    assert(0 <= ps[j] < d.len() && d.cards[ps[j]] == c);
                }
                if d.offers(filter, c) {
                    let k = choose|k: int|
                        0 <= k < ps.len() && 0 <= #[trigger] ps[k] < d.len() && d.cards[ps[k]] == c;
                    assert(v@[k] == d.visit(ps[k]));
                    assert(v@[k].1 == c);
                }
            }
        }
        dm
    }

    /// Whether the last card of the deck is an ace or a two that can go to the
    /// foundation.
    #[must_use]
    pub fn has_safe_draw(&self) -> (b: bool)
        requires
            self.wf(),
        ensures
            b == self@.safe_draw(),
    {
        proof {
            self.lemma_wf();
        }
        match self.get_deck().peek_last() {
            Some(c) => c.rank() < 2 && self.get_stack()[c.suit() as usize] == c.rank(),
            None => false,
        }
    }

    /// For each kind of move, in the order of [`Move::kind`], the cards that
    /// the generator offers to play that way.
    #[must_use]
    pub fn gen_moves<const DOM: bool>(&self) -> (f: [u64; 5])
        requires
            self.wf(),
        ensures
            forall|k: int, c: Card|
                0 <= k < 5 && c.0 < 64 ==> (#[trigger] in_mask(f@[k], c) <==> self@.offers_card(
                    DOM,
                    k,
                    c,
                )),
            forall|k: int, c: Card|
                0 <= k < 5 && #[trigger] self@.offers_card(DOM, k, c) ==> c.0 < N_CARDS,
    {
        let vis = self.get_visible_mask();
        let top = self.get_top_mask();
        let bm = self.get_bottom_mask();
        let sm = self.get_stack_mask();
        let pile_stack = bm & vis & sm;
        let ghost s = self@;
        proof {
            self.lemma_wf();
            assert forall|c: Card| c.0 < 64 implies (#[trigger] in_mask(pile_stack, c)
                <==> s.playable(c)) by {
                lemma_in_mask_ops(bm, vis, c);
                lemma_in_mask_ops(bm & vis, sm, c);
            }
            assert forall|c: Card| c.0 < 64 implies !in_mask(0, c) by {
                lemma_in_mask_ops(0, 0, c);
            }
        }
        if DOM {
            let safe = pile_stack & SAFE_MASK;
            proof {
                assert forall|c: Card| c.0 < 64 implies (#[trigger] in_mask(safe, c) <==> s.safe(
                    c,
                )) by {
                    lemma_in_mask_ops(pile_stack, SAFE_MASK, c);
                    lemma_mask_index(c.0);
                    lemma_bit64_consts(mask_index(c.0) as u64);
                }
            }
            if safe != 0 {
                proof {
                    axiom_u64_trailing_zeros(safe);
                    let t = u64_trailing_zeros(safe) as u8;
                    lemma_mask_index(t);
                    assert(in_mask(safe, Card(mask_index(t))));
                    assert(s.safe(Card(mask_index(t))));
                    assert(t < 8) by {
                        lemma_in_mask_ops(pile_stack, SAFE_MASK, Card(mask_index(t)));
                        lemma_bit64_consts(t as u64);
                    }
                }
                let first = from_mask(&safe);
                let m = card_mask(&first);
                let f = [m, 0, 0, 0, 0];
                proof {
                    let t = u64_trailing_zeros(safe) as u8;
                    assert(s.has_safe());
                    assert forall|x: Card| x.0 < 64 && #[trigger] s.safe(x) implies mask_index(
                        first.0,
                    ) <= mask_index(x.0) by {
                        lemma_mask_index(x.0);
                        let j = mask_index(x.0) as u64;
                        assert(in_mask(safe, x));
                        if j < t {
                            assert((safe >> j) & 1u64 == 0u64);
                        }
                    }
                    assert(s.first_safe(first));
                    assert forall|x: Card| x.0 < 64 && s.first_safe(x) implies x == first by {
                        lemma_mask_index(x.0);
                        lemma_mask_index(first.0);
                        assert(s.safe(first));
                        assert(mask_index(x.0) <= mask_index(first.0));
                        assert(mask_index(first.0) <= mask_index(x.0));
                    }
                    assert forall|k: int, c: Card| 0 <= k < 5 && c.0 < 64 implies (
                    #[trigger] in_mask(f@[k], c) <==> s.offers_card(DOM, k, c)) by {
                        lemma_in_mask_single(first, c);
                    }
                }
                return f;
            }
            proof {
                if s.has_safe() {
                    let c = choose|c: Card| c.0 < 64 && #[trigger] s.safe(c);
                    assert(in_mask(safe, c));
                    lemma_in_mask_ops(0, 0, c);
                }
            }
        }
        if DOM && self.has_safe_draw() {
            let near = self.get_deck_mask(true);
            let forced = near & sm;
            let f = [0, forced, 0, 0, 0];
            proof {
                assert forall|k: int, c: Card| 0 <= k < 5 && c.0 < 64 implies (#[trigger] in_mask(
                    f@[k],
                    c,
                ) <==> s.offers_card(DOM, k, c)) by {
                    lemma_in_mask_ops(near, sm, c);
                }
            }
            return f;
        }
        let deck_mask = self.get_deck_mask(false);
        let occupied = popcount((vis & KING_MASK) | top);
        let king_slot = if occupied < N_PILES as u64 {
            KING_MASK
        } else {
            0
        };
        let free_slot = (bm >> 4) | king_slot;
        proof {
            assert forall|c: Card| c.0 < N_CARDS implies (#[trigger] in_mask(free_slot, c)
                <==> s.hostable(c)) by {
                let k = mask_index(c.0) as u64;
                lemma_mask_index(c.0);
                lemma_mask_neighbours(c);
                lemma_in_mask_ops(bm >> 4, king_slot, c);
                lemma_in_mask_ops(0, 0, c);
                lemma_bit64_shifts(bm, k);
                lemma_bit64_consts(k);
                assert(in_mask(bm, below(c)) <==> below(c).0 < N_CARDS && s.open_pair(below(c)));
                assert(in_mask(bm, below(c)) == bit64(bm, (k + 4) as u64));
            }
        }
        let fm = self.get_top_stack_mask();
        let stack_pile = if DOM {
            fm & free_slot & !SAFE_MASK
        } else {
            fm & free_slot
        };
        let deck_pile = deck_mask & free_slot;
        let deck_stack = deck_mask & sm;
        let reveal = top & free_slot;
        let f = [pile_stack, deck_stack, stack_pile, deck_pile, reveal];
        proof {
            assert forall|k: int, c: Card| 0 <= k < 5 && c.0 < 64 implies (#[trigger] in_mask(
                f@[k],
                c,
            ) <==> s.offers_card(DOM, k, c)) by {
                lemma_mask_index(c.0);
                lemma_in_mask_ops(deck_mask, sm, c);
                lemma_in_mask_ops(deck_mask, free_slot, c);
                lemma_in_mask_ops(top, free_slot, c);
                lemma_bit64_consts(mask_index(c.0) as u64);
                lemma_in_mask_ops(fm, free_slot, c);
                lemma_in_mask_ops(fm & free_slot, !SAFE_MASK, c);
                lemma_in_mask_ops(SAFE_MASK, 0, c);
                assert(in_mask(top, c) ==> in_mask(vis, c));
                assert(in_mask(vis, c) ==> c.0 < N_CARDS);
            }
            assert forall|k: int, c: Card| 0 <= k < 5 && #[trigger] s.offers_card(DOM, k, c) implies c.0
                < N_CARDS by {}
        }
        f
    }

    /// The moves that the generator offers: see [`SolitaireView::offered`].
    /// Each is legal and can be carried out. They stand in the order of their
    /// kinds, and within a kind in the order of the bitboard: the state alone
    /// tells the list.
    #[must_use]
    pub fn list_moves<const DOM: bool>(&self) -> (v: MoveVec)
        requires
            self.wf(),
        ensures
            forall|m: Move| #[trigger] v@.contains(m) <==> self@.offered(DOM, m),
            forall|m: Move|
                #[trigger] v@.contains(m) ==> self@.legal(m) && self@.can_do(m) && m.spec_card().0
                    < N_CARDS,
            v@.no_duplicates(),
            in_key_order(v@),
    {
        let f = self.gen_moves::<DOM>();
        let mut v: Vec<Move> = Vec::new();
        let ghost s = self@;
        let mut k: usize = 0;
        while k < 5
            invariant
                k <= 5,
                forall|j: int, c: Card|
                    0 <= j < 5 && c.0 < 64 ==> (#[trigger] in_mask(f@[j], c) <==> s.offers_card(
                        DOM,
                        j,
                        c,
                    )),
                forall|j: int, c: Card|
                    0 <= j < 5 && #[trigger] s.offers_card(DOM, j, c) ==> c.0 < N_CARDS,
                forall|m: Move|
                    #[trigger] v@.contains(m) <==> (m.spec_kind() < k && s.offered(DOM, m)),
                v@.no_duplicates(),
                forall|a: int|
                    0 <= a < v@.len() ==> (#[trigger] v@[a]).spec_kind() < k && v@[a].spec_card().0
                        < 64,
                forall|a: int, b: int|
                    0 <= a < b < v@.len() ==> move_key(#[trigger] v@[a]) < move_key(#[trigger] v@[b]),
            decreases 5 - k,
        {
            proof {
                assert forall|c: Card| c.0 < 64 && #[trigger] in_mask(f@[k as int], c) implies c.0
                    < 56 by {
                    assert(s.offers_card(DOM, k as int, c));
                }
            }
            let ghost before = v@;
            push_moves(&mut v, f[k], k);
            proof {
                assert forall|a: int, b: int| 0 <= a < b < v@.len() implies move_key(
                    #[trigger] v@[a],
                ) < move_key(#[trigger] v@[b]) by {
                    lemma_mask_index(v@[a].spec_card().0);
                    lemma_mask_index(v@[b].spec_card().0);
                    if b < before.len() {
                        assert(before[a] == v@[a] && before[b] == v@[b]);
                    } else if a < before.len() {
                        assert(before[a] == v@[a]);
                        assert(before[a].spec_kind() < k);
                        assert(v@[b].spec_kind() == k);
                    }
                }
                assert forall|a: int| 0 <= a < v@.len() implies (#[trigger] v@[a]).spec_kind() < k + 1
                    && v@[a].spec_card().0 < 64 by {
                    if a < before.len() {
                        assert(before[a] == v@[a]);
                    }
                }
            }
            proof {
                assert forall|m: Move|
                    #[trigger] v@.contains(m) <==> (m.spec_kind() < k + 1 && s.offered(DOM, m)) by {
                    let c = m.spec_card();
                    assert(before.contains(m) <==> (m.spec_kind() < k && s.offered(DOM, m)));
                    if m.spec_kind() == k {
                        assert(s.offers_card(DOM, k as int, c) == s.offered(DOM, m));
                        if c.0 < 64 {
                            assert(in_mask(f@[k as int], c) <==> s.offers_card(DOM, k as int, c));
                        }
                    }
                }
            }
            k += 1;
        }
        proof {
            self.lemma_wf();
            assert forall|m: Move| #[trigger] v@.contains(m) implies s.legal(m) && s.can_do(m)
                && m.spec_card().0 < N_CARDS by {
                s.lemma_offered_legal(DOM, m);
                assert(s.offers_card(DOM, m.spec_kind() as int, m.spec_card()));
            }
        }
        v
    }

    /// The move that takes `m` back, if one move can.
    #[must_use]
    pub fn get_rev_move(&self, m: &Move) -> (r: Option<Move>)
        requires
            m.spec_card().0 < 64,
        ensures
            r == self@.rev_move(*m),
    {
        match *m {
            Move::PileStack(c) => {
                proof {
                    crate::card::lemma_in_mask_test(self@.top, c);
                }
                if self.get_top_mask() & card_mask(&c) == 0 {
                    Some(Move::StackPile(c))
                } else {
                    None
                }
            },
            Move::StackPile(c) => Some(Move::PileStack(c)),
            _ => None,
        }
    }
}

/// What the mask of open pairs holds for card `c`.
pub proof fn lemma_open_pair(s: SolitaireView, c: Card)
    requires
        c.0 < 64,
    ensures
        in_mask(pair_mask(s.visible, s.top), c) <==> c.0 < N_CARDS && s.open_pair(c),
{
    let vis = s.visible;
    let top = s.top;
    let k = mask_index(c.0) as u64;
    let nt = vis & !top;
    lemma_mask_index(c.0);
    lemma_pair_mask(vis, top, k);
    lemma_mask_neighbours(c);
    lemma_bit64_consts(k);
    if c.0 >= 4 {
        let a = above(c);
        lemma_mask_neighbours(a);
        lemma_mask_index(a.0);
        lemma_bit64_consts((k - 4) as u64);
        lemma_in_mask_ops(vis, !top, a);
        lemma_in_mask_ops(top, 0, a);
        lemma_in_mask_ops(vis, !top, partner(a));
        lemma_in_mask_ops(top, 0, partner(a));
    }
}

impl SolitaireView {
    /// Every position that the deck offers with the filter it offers without.
    pub proof fn lemma_offers_unfiltered(self, c: Card)
        requires
            self.deck.offers(true, c),
        ensures
            self.deck.offers(false, c),
    {
        let d = self.deck;
        let pt = d.drawables(true);
        let pf = d.drawables(false);
        let k = choose|k: int|
            0 <= k < pt.len() && 0 <= #[trigger] pt[k] < d.len() && d.cards[pt[k]] == c;
        let head = crate::deck::stride(d.step - 1, d.step, d.cursor);
        assert(pf[head.len() + k] == pt[k]);
    }

    /// What the generator offers is legal, and can be carried out.
    pub proof fn lemma_offered_legal(self, dom: bool, m: Move)
        requires
            self.wf(),
            self.offered(dom, m),
        ensures
            self.legal(m),
            self.can_do(m),
    {
        let c = m.spec_card();
        if self.deck.offers(true, c) {
            self.lemma_offers_unfiltered(c);
        }
        if self.deck.offers(false, c) {
            let d = self.deck;
            let ps = d.drawables(false);
            let k = choose|k: int|
                0 <= k < ps.len() && 0 <= #[trigger] ps[k] < d.len() && d.cards[ps[k]] == c;
            assert(d.cards.contains(c));
        }
    }

    /// A move's reverse can be made right after it, and gives back the state
    /// that the move was made in.
    pub proof fn lemma_rev_move(self, m: Move, r: Move)
        requires
            self.wf(),
            self.can_do(m),
            self.rev_move(m) == Some(r),
        ensures
            self.after(m).can_do(r),
            self.after(m).after(r) == self,
    {
        let a = self.after(m);
        self.lemma_after_wf(m);
        match m {
            Move::PileStack(c) => {
                lemma_in_mask_ops(self.visible, mask_of(c), c);
                lemma_in_mask_single(c, c);
                assert(a.after(r).stack =~= self.stack);
                SolitaireView::lemma_mask_round(self.visible, c);
            },
            Move::StackPile(c) => {
                assert(self.stacked(c));
                assert(in_mask(self.visible, c) <==> c.0 < N_CARDS && !self.deck.holds(c)
                    && !self.hidden.is_down(c) && !self.stacked(c));
                assert(in_mask(self.top, c) ==> in_mask(self.visible, c));
                lemma_in_mask_ops(self.visible, mask_of(c), c);
                lemma_in_mask_single(c, c);
                assert(a.after(r).stack =~= self.stack);
                SolitaireView::lemma_mask_round(self.visible, c);
                assert((self.visible | mask_of(c)) ^ mask_of(c) == self.visible) by {
                    let v = self.visible;
                    let m = mask_of(c);
                    assert((v | m) & !m == v ==> (v | m) ^ m == v) by (bit_vector);
                }
            },
            _ => {},
        }
    }
}

/// The moves stand in the order of their keys.
pub open spec fn in_key_order(moves: Seq<Move>) -> bool {
    forall|a: int, b: int|
        0 <= a < b < moves.len() ==> move_key(#[trigger] moves[a]) < move_key(#[trigger] moves[b])
}

/// Two lists of the same moves in the order of their keys are one list: what
/// the generator offers in a state fixes the list of its moves, order and
/// all.
pub proof fn lemma_list_fixed(one: Seq<Move>, two: Seq<Move>)
    requires
        in_key_order(one),
        in_key_order(two),
        forall|m: Move|
            #![trigger one.contains(m)]
            #![trigger two.contains(m)]
            one.contains(m) <==> two.contains(m),
    ensures
        one == two,
    decreases one.len(),
{
    if one.len() == 0 {
        if two.len() > 0 {
            assert(two.contains(two[0]));
        }
        assert(one =~= two);
    } else {
        assert(one.contains(one[0]));
        let j = choose|j: int| 0 <= j < two.len() && two[j] == one[0];
        assert(two.contains(two[0]));
        let i = choose|i: int| 0 <= i < one.len() && one[i] == two[0];
        if i > 0 {
            assert(move_key(one[0]) < move_key(one[i]));
        }
        if j > 0 {
            assert(move_key(two[0]) < move_key(two[j]));
        }
        assert(i == 0 && j == 0);
        let rest_one = one.drop_first();
        let rest_two = two.drop_first();
        assert forall|a: int, b: int| 0 <= a < b < rest_one.len() implies move_key(
            #[trigger] rest_one[a],
        ) < move_key(#[trigger] rest_one[b]) by {
            assert(move_key(one[a + 1]) < move_key(one[b + 1]));
        }
        assert forall|a: int, b: int| 0 <= a < b < rest_two.len() implies move_key(
            #[trigger] rest_two[a],
        ) < move_key(#[trigger] rest_two[b]) by {
            assert(move_key(two[a + 1]) < move_key(two[b + 1]));
        }
        assert forall|m: Move|
            #![trigger rest_one.contains(m)]
            #![trigger rest_two.contains(m)]
            rest_one.contains(m) <==> rest_two.contains(m) by {
            if rest_one.contains(m) {
                let a = choose|a: int| 0 <= a < rest_one.len() && rest_one[a] == m;
                assert(one[a + 1] == m);
                assert(one.contains(m));
                assert(move_key(one[0]) < move_key(one[a + 1]));
                let b = choose|b: int| 0 <= b < two.len() && two[b] == m;
                assert(b != 0);
                assert(rest_two[b - 1] == m);
            }
            if rest_two.contains(m) {
                let b = choose|b: int| 0 <= b < rest_two.len() && rest_two[b] == m;
                assert(two[b + 1] == m);
                assert(two.contains(m));
                assert(move_key(two[0]) < move_key(two[b + 1]));
                let a = choose|a: int| 0 <= a < one.len() && one[a] == m;
                assert(a != 0);
                assert(rest_one[a - 1] == m);
            }
        }
        lemma_list_fixed(rest_one, rest_two);
        assert(one =~= seq![one[0]] + rest_one);
        assert(two =~= seq![two[0]] + rest_two);
    }
}

} // verus!
