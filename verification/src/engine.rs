//! The game state: deck, piles, foundations and two bitboards, with moves
//! that can be taken back.

use crate::card::{
    card_mask, in_mask, lemma_in_mask_ops, lemma_in_mask_single, lemma_in_mask_test,
    lemma_mask_ext, mask_of, Card, KING_RANK, N_CARDS, N_RANKS, N_SUITS,
};
use crate::deck::{valid_deal, Deck, DeckView, N_FULL_DECK, N_HIDDEN_CARDS, N_PILES, NO_SLOT};
use crate::hidden::{pile_index, pile_start, split_piles, valid_hidden_deal, Hidden, HiddenView};
use crate::moves::Move;
use vstd::prelude::*;

verus! {

/// The key of a state in a transposition table.
pub type Encode = u64;

pub type MoveVec = Vec<Move>;

/// The deal is no shuffle of the 52 cards, or the draw step is out of range.
#[derive(Debug, Clone, Copy, PartialEq, Eq, Structural)]
pub struct InvalidConstruction {}

/// What [`Solitaire::undo_move`] needs besides the move itself.
#[derive(Debug, Clone, Copy)]
pub struct UndoInfo {
    /// After a draw from the deck, the size that the waste had; after a card
    /// has gone from a pile to the foundation, 1 if it lay on face-down cards;
    /// after a reveal, the pile that the card came from.
    pub info: u8,
    /// The card that the move turned up.
    pub revealed: Option<Card>,
}

/// A game in play: the deck, the piles, the foundations, and two bitboards
/// that tell which cards lie face up in the tableau and which of them head a
/// pile. How the face-up cards are spread over the columns is not kept: cards
/// of one rank and colour play alike.
#[derive(Debug, Clone)]
pub struct Solitaire {
    hidden: Hidden,
    final_stack: [u8; 4],
    deck: Deck,
    visible_mask: u64,
    top_mask: u64,
}

/// Every card value occurs exactly once among the 52 cards.
pub open spec fn is_deal(cards: Seq<Card>) -> bool {
    &&& cards.len() == N_CARDS
    &&& forall|i: int| 0 <= i < cards.len() ==> (#[trigger] cards[i]).0 < N_CARDS
    &&& forall|i: int, j: int|
        0 <= i < j < cards.len() ==> (#[trigger] cards[i]).0 != (#[trigger] cards[j]).0
    &&& forall|c: Card| c.0 < N_CARDS ==> #[trigger] cards.contains(c)
}

/// What a game is to the contracts.
pub struct SolitaireView {
    pub deck: DeckView,
    pub hidden: HiddenView,
    /// For each suit, how many of its cards lie on the foundation: the rank of
    /// the next card to go there.
    pub stack: Seq<u8>,
    /// The cards that lie face up in the tableau.
    pub visible: u64,
    /// Those of them that lie on face-down cards, or at the foot of a column
    /// below the kings.
    pub top: u64,
}

impl SolitaireView {
    /// `c` lies on the foundation.
    pub open spec fn stacked(self, c: Card) -> bool {
        c.spec_rank() < self.stack[c.spec_suit() as int]
    }

    /// `c` lies face up in the tableau.
    pub open spec fn shown(self, c: Card) -> bool {
        in_mask(self.visible, c)
    }

    /// `c` lies face up on face-down cards, or at the foot of a column and is
    /// no king.
    pub open spec fn heading(self, c: Card) -> bool {
        in_mask(self.top, c)
    }

    /// Every card is in exactly one place: the deck, face down in a pile, on
    /// the foundation, or face up in the tableau; and the bitboards say so.
    pub open spec fn wf(self) -> bool {
        &&& self.deck.wf()
        &&& self.hidden.sound()
        &&& self.stack.len() == N_SUITS
        &&& forall|s: int| 0 <= s < N_SUITS ==> (#[trigger] self.stack[s]) <= N_RANKS
        &&& forall|c: Card|
            #![trigger self.deck.slot_of(c)]
            #![trigger self.hidden.dealt(c)]
            c.0 < N_CARDS ==> (self.deck.slot_of(c) < N_FULL_DECK <==> !self.hidden.dealt(c))
        &&& forall|c: Card|
            c.0 < 64 ==> (#[trigger] in_mask(self.visible, c) <==> c.0 < N_CARDS
                && !self.deck.holds(c) && !self.hidden.is_down(c) && !self.stacked(c))
        &&& forall|c: Card| #[trigger] self.deck.holds(c) ==> !self.stacked(c)
        &&& forall|c: Card| #[trigger] self.hidden.is_down(c) ==> !self.stacked(c)
        &&& forall|c: Card| c.0 < 64 ==> (#[trigger] in_mask(self.top, c) <==> self.hidden.heads(c))
        &&& forall|c: Card| c.0 < 64 && #[trigger] in_mask(self.top, c) ==> in_mask(self.visible, c)
    }

    /// Every card of the deal has one place: it was dealt into the deck or
    /// into a pile, and no card of the deck or of a pile lies on the
    /// foundation.
    pub open spec fn sorted(self) -> bool {
        &&& forall|c: Card|
            #![trigger self.deck.slot_of(c)]
            #![trigger self.hidden.dealt(c)]
            c.0 < N_CARDS ==> (self.deck.slot_of(c) < N_FULL_DECK <==> !self.hidden.dealt(c))
        &&& forall|c: Card| #[trigger] self.deck.holds(c) ==> !self.stacked(c)
        &&& forall|i: int, j: int|
            0 <= i < N_PILES && 0 <= j < self.hidden.counts[i] ==> !self.stacked(
                #[trigger] self.hidden.piles[i][j],
            )
    }

    /// What a move needs in order to be carried out: the card is where the move
    /// takes it from, and the foundation is ready for it or holds it on top.
    pub open spec fn can_do(self, m: Move) -> bool {
        match m {
            Move::DeckStack(c) => self.deck.cards.contains(c) && c.spec_rank()
                == self.stack[c.spec_suit() as int],
            Move::DeckPile(c) => self.deck.cards.contains(c),
            Move::PileStack(c) => c.0 < N_CARDS && self.shown(c) && c.spec_rank()
                == self.stack[c.spec_suit() as int],
            Move::StackPile(c) => c.0 < N_CARDS && self.stack[c.spec_suit() as int]
                == c.spec_rank() + 1,
            Move::Reveal(c) => c.0 < N_CARDS && self.heading(c),
        }
    }

    /// The pile that `c` was dealt into.
    pub open spec fn home(self, c: Card) -> int {
        self.hidden.pile_of[c.0 as int] as int
    }

    /// The card that lies under `c` in its pile, if `c` is that pile's top card
    /// and is not its last.
    pub open spec fn turned(self, c: Card) -> Option<Card> {
        let i = self.home(c);
        if self.hidden.counts[i] > 1 {
            Some(self.hidden.piles[i][self.hidden.counts[i] - 2])
        } else {
            None
        }
    }

    /// The state after `c` has left the head of its pile: the card under it is
    /// turned up and heads the pile, unless it is a king with nothing under it.
    pub open spec fn revealed(self, c: Card) -> SolitaireView {
        let i = self.home(c);
        match self.turned(c) {
            Some(x) => SolitaireView {
                hidden: self.hidden.popped(i),
                visible: self.visible | mask_of(x),
                top: (self.top ^ mask_of(c)) | (if x.spec_rank() < KING_RANK
                    || self.hidden.counts[i] > 2 {
                    mask_of(x)
                } else {
                    0
                }),
                ..self
            },
            None => SolitaireView {
                hidden: self.hidden.popped(i),
                top: self.top ^ mask_of(c),
                ..self
            },
        }
    }

    /// The foundations with that of suit `s` set to `n`.
    pub open spec fn stack_with(self, s: u8, n: int) -> Seq<u8> {
        self.stack.update(s as int, n as u8)
    }

    /// The state after move `m`.
    pub open spec fn after(self, m: Move) -> SolitaireView {
        match m {
            Move::DeckStack(c) => SolitaireView {
                deck: self.deck.drawn(c),
                stack: self.stack_with(c.spec_suit(), c.spec_rank() + 1),
                ..self
            },
            Move::DeckPile(c) => SolitaireView {
                deck: self.deck.drawn(c),
                visible: self.visible | mask_of(c),
                ..self
            },
            Move::PileStack(c) => {
                let s = SolitaireView {
                    visible: self.visible ^ mask_of(c),
                    stack: self.stack_with(c.spec_suit(), c.spec_rank() + 1),
                    ..self
                };
                if self.heading(c) {
                    s.revealed(c)
                } else {
                    s
                }
            },
            Move::StackPile(c) => SolitaireView {
                visible: self.visible | mask_of(c),
                stack: self.stack_with(c.spec_suit(), c.spec_rank() as int),
                ..self
            },
            Move::Reveal(c) => self.revealed(c),
        }
    }

    /// What is kept of the state before move `m` in order to take it back.
    pub open spec fn undo_of(self, m: Move) -> UndoInfo {
        match m {
            Move::DeckStack(c) => UndoInfo { info: self.deck.cursor as u8, revealed: None },
            Move::DeckPile(c) => UndoInfo { info: self.deck.cursor as u8, revealed: None },
            Move::PileStack(c) => if self.heading(c) {
                UndoInfo { info: 1, revealed: self.turned(c) }
            } else {
                UndoInfo { info: 0, revealed: None }
            },
            Move::StackPile(c) => UndoInfo { info: 0, revealed: None },
            Move::Reveal(c) => UndoInfo { info: self.home(c) as u8, revealed: self.turned(c) },
        }
    }

    /// The state with `c` back at the head of its pile and the card under it
    /// face down again.
    pub open spec fn unrevealed(self, c: Card) -> SolitaireView {
        let i = self.home(c);
        if self.hidden.counts[i] >= 1 {
            let x = self.hidden.top(i);
            SolitaireView {
                hidden: self.hidden.unpopped(i),
                visible: self.visible & !mask_of(x),
                top: (self.top & !mask_of(x)) | mask_of(c),
                ..self
            }
        } else {
            SolitaireView {
                hidden: self.hidden.unpopped(i),
                top: self.top | mask_of(c),
                ..self
            }
        }
    }

    /// The state with move `m` taken back.
    pub open spec fn before(self, m: Move, u: UndoInfo) -> SolitaireView {
        match m {
            Move::DeckStack(c) => SolitaireView {
                deck: self.deck.pushed(c).at(u.info as int),
                stack: self.stack_with(c.spec_suit(), c.spec_rank() as int),
                ..self
            },
            Move::DeckPile(c) => SolitaireView {
                deck: self.deck.pushed(c).at(u.info as int),
                visible: self.visible & !mask_of(c),
                ..self
            },
            Move::PileStack(c) => {
                let s = if u.info & 1 != 0 {
                    self.unrevealed(c)
                } else {
                    self
                };
                SolitaireView {
                    visible: s.visible | mask_of(c),
                    stack: self.stack_with(c.spec_suit(), c.spec_rank() as int),
                    ..s
                }
            },
            Move::StackPile(c) => SolitaireView {
                visible: self.visible & !mask_of(c),
                stack: self.stack_with(c.spec_suit(), c.spec_rank() + 1),
                ..self
            },
            Move::Reveal(c) => self.unrevealed(c),
        }
    }

    /// `self` came from `prev` by move `m`, which left `u` behind.
    pub open spec fn follows(self, prev: SolitaireView, m: Move, u: UndoInfo) -> bool {
        prev.wf() && prev.can_do(m) && prev.after(m) == self && prev.undo_of(m) == u
    }

    /// The two states come from the same deal with the same draw step.
    pub open spec fn same_deal(self, other: SolitaireView) -> bool {
        &&& self.deck.slots == other.deck.slots
        &&& self.deck.step == other.deck.step
        &&& self.hidden.piles == other.hidden.piles
        &&& self.hidden.pile_of == other.hidden.pile_of
        &&& self.hidden.first_layer == other.hidden.first_layer
    }

    /// The state with the cursor of its deck normalized.
    pub open spec fn normalized(self) -> SolitaireView {
        SolitaireView { deck: self.deck.normalized(), ..self }
    }

    /// The two states play alike: the same cards lie in the same places, and
    /// the same cards of the deck are out of reach. A king that is all that is
    /// left of a pile counts as nothing left of it.
    pub open spec fn equivalent(self, other: SolitaireView) -> bool {
        &&& self.deck.equivalent(other.deck)
        &&& self.stack == other.stack
        &&& forall|i: int|
            0 <= i < N_PILES ==> #[trigger] self.hidden.normal_count(i) == other.hidden.normal_count(i)
        &&& self.visible == other.visible
        &&& self.top == other.top
    }

    /// `self` is a well-formed state of the deal of `deal`, and `e` is its key.
    pub open spec fn encodes(self, deal: SolitaireView, e: u64) -> bool {
        self.wf() && self.same_deal(deal) && self.encoded() == e
    }

    /// All four foundations are full.
    pub open spec fn is_win(self) -> bool {
        self.stack[0] == N_RANKS && self.stack[1] == N_RANKS && self.stack[2] == N_RANKS
            && self.stack[3] == N_RANKS
    }

    /// The foundations, four bits each.
    pub open spec fn stack_key(self) -> u16 {
        (self.stack[0] as u16) | (self.stack[1] as u16) << 4 | (self.stack[2] as u16) << 8 | (
        self.stack[3] as u16) << 12
    }

    /// The key of the state: foundations, counts of the piles, and the deck.
    pub open spec fn encoded(self) -> u64 {
        (self.stack_key() as u64) | (self.hidden.encoded_from(0) as u64) << 16 | (
        self.deck.encoded() as u64) << 32
    }

    /// The state right after the deal `cards` with draw step `step`.
    pub open spec fn is_initial(self, cards: Seq<Card>, step: int) -> bool {
        &&& self.deck.cards == cards.subrange(N_HIDDEN_CARDS as int, N_CARDS as int)
        &&& self.deck.cursor == step
        &&& self.deck.step == step
        &&& self.deck.consumed == 0
        &&& self.hidden.piles == split_piles(cards.subrange(0, N_HIDDEN_CARDS as int))
        &&& forall|i: int| 0 <= i < N_PILES ==> self.hidden.counts[i] == i + 1
        &&& forall|s: int| 0 <= s < N_SUITS ==> self.stack[s] == 0
    }
}

impl View for Solitaire {
    type V = SolitaireView;

    closed spec fn view(&self) -> SolitaireView {
        SolitaireView {
            deck: self.deck@,
            hidden: self.hidden@,
            stack: self.final_stack@,
            visible: self.visible_mask,
            top: self.top_mask,
        }
    }
}

impl Solitaire {
    pub closed spec fn wf(&self) -> bool {
        &&& self.deck.wf()
        &&& self.hidden.wf()
        &&& self@.wf()
    }

    pub proof fn lemma_wf(&self)
        requires
            self.wf(),
        ensures
            self@.wf(),
    {
    }

    /// Deals: the first 28 cards go to the piles, pile `i` taking `i + 1` cards
    /// with the last of them face up, and the other 24 to the deck.
    pub fn new(cards: &[Card; 52], draw_step: u8) -> (r: Result<Solitaire, InvalidConstruction>)
        ensures
            r.is_ok() <==> is_deal(cards@) && 1 <= draw_step <= N_FULL_DECK,
            match r {
                Ok(g) => g.wf() && g@.is_initial(cards@, draw_step as int) && g@.consistent(),
                Err(_) => true,
            },
    {
        if draw_step == 0 || draw_step > N_FULL_DECK as u8 {
            return Err(InvalidConstruction {  });
        }
        let mut seen = [false;52];
        let mut i: usize = 0;
        while i < 52
            invariant
                i <= 52,
                forall|j: int| 0 <= j < i ==> (#[trigger] cards@[j]).0 < N_CARDS,
                forall|j: int, l: int|
                    0 <= j < l < i ==> (#[trigger] cards@[j]).0 != (#[trigger] cards@[l]).0,
                forall|v: int|
                    0 <= v < 52 ==> (#[trigger] seen@[v] <==> exists|j: int|
                        0 <= j < i && (#[trigger] cards@[j]).0 == v),
            decreases 52 - i,
        {
            let v = cards[i].value();
            if v >= N_CARDS {
                return Err(InvalidConstruction {  });
            }
            if seen[v as usize] {
                proof {
                    let j = choose|j: int| 0 <= j < i && (#[trigger] cards@[j]).0 == v;
                    assert(cards@[j].0 == cards@[i as int].0);
                }
                return Err(InvalidConstruction {  });
            }
            let ghost before = seen@;
            seen[v as usize] = true;
            proof {
                assert forall|w: int| 0 <= w < 52 implies (#[trigger] seen@[w] <==> exists|j: int|
                    0 <= j < i + 1 && (#[trigger] cards@[j]).0 == w) by {
                    if w == v {
                        assert(cards@[i as int].0 == w);
                    } else {
                        if before[w] {
                            let j = choose|j: int| 0 <= j < i && (#[trigger] cards@[j]).0 == w;
                            assert(0 <= j < i + 1 && cards@[j].0 == w);
                        }
                        if exists|j: int| 0 <= j < i + 1 && (#[trigger] cards@[j]).0 == w {
                            let j = choose|j: int| 0 <= j < i + 1 && (#[trigger] cards@[j]).0 == w;
                            assert(j < i);
                        }
                    }
                }
            }
            i += 1;
        }
        let mut v: usize = 0;
        while v < 52
            invariant
                v <= 52,
                forall|w: int| 0 <= w < v ==> #[trigger] seen@[w],
                forall|w: int|
                    0 <= w < 52 ==> (#[trigger] seen@[w] <==> exists|j: int|
                        0 <= j < 52 && (#[trigger] cards@[j]).0 == w),
            decreases 52 - v,
        {
            if !seen[v] {
                proof {
                    let c = Card(v as u8);
                    if cards@.contains(c) {
                        let j = choose|j: int| 0 <= j < 52 && cards@[j] == c;
                        assert(cards@[j].0 == v);
                    }
                }
                return Err(InvalidConstruction {  });
            }
            v += 1;
        }
        proof {
            assert forall|c: Card| c.0 < N_CARDS implies #[trigger] cards@.contains(c) by {
                assert(seen@[c.0 as int]);
                let j = choose|j: int| 0 <= j < 52 && (#[trigger] cards@[j]).0 == c.0;
                assert(cards@[j] == c);
            }
            assert(is_deal(cards@));
        }
        let mut hp = [Card::fake();28];
        let mut k: usize = 0;
        while k < 28
            invariant
                k <= 28,
                forall|l: int| 0 <= l < k ==> #[trigger] hp@[l] == cards@[l],
            decreases 28 - k,
        {
            hp[k] = cards[k];
            k += 1;
        }
        let mut dk = [Card::fake();N_FULL_DECK];
        let mut k: usize = 0;
        while k < 24
            invariant
                k <= 24,
                forall|l: int| 0 <= l < k ==> #[trigger] dk@[l] == cards@[l + 28],
            decreases 24 - k,
        {
            dk[k] = cards[k + 28];
            k += 1;
        }
        proof {
            assert(hp@ =~= cards@.subrange(0, 28));
            assert(dk@ =~= cards@.subrange(28, 52));
            assert(valid_hidden_deal(hp@));
            assert(valid_deal(dk@));
        }
        let hidden = Hidden::new(hp);
        let deck = Deck::new(&dk, draw_step);
        let mut visible_mask: u64 = 0;
        let mut top_mask: u64 = 0;
        let mut p: u8 = 0;
        proof {
            hidden.lemma_wf();
            assert forall|c: Card| c.0 < 64 implies !in_mask(0, c) by {
                lemma_in_mask_ops(0, 0, c);
            }
        }
        while p < N_PILES
            invariant
                p <= N_PILES,
                hidden.wf(),
                hidden@.sound(),
                forall|i: int| 0 <= i < N_PILES ==> hidden@.counts[i] == i + 1,
                forall|c: Card|
                    c.0 < 64 ==> (#[trigger] in_mask(visible_mask, c) <==> exists|t: int|
                        0 <= t < p && hidden@.top(t) == c),
                forall|c: Card|
                    c.0 < 64 ==> (#[trigger] in_mask(top_mask, c) <==> exists|t: int|
                        0 <= t < p && #[trigger] hidden@.heads_at(c, t)),
            decreases N_PILES - p,
        {
            let top = match hidden.peek(p) {
                Some(c) => *c,
                None => Card::fake(),
            };
            proof {
                assert(hidden@.dealt_at(top, p as int, p as int));
                assert(hidden@.piles[p as int][p as int].0 < N_CARDS);
            }
            let m = card_mask(&top);
            let heads = top.rank() < KING_RANK || hidden.len(p) > 1;
            let tm = if heads {
                m
            } else {
                0
            };
            proof {
                assert forall|c: Card| c.0 < 64 implies (#[trigger] in_mask(visible_mask | m, c)
                    <==> exists|t: int| 0 <= t < p + 1 && hidden@.top(t) == c) by {
                    lemma_in_mask_ops(visible_mask, m, c);
                    lemma_in_mask_single(top, c);
                    if in_mask(visible_mask, c) {
                        let t = choose|t: int| 0 <= t < p && hidden@.top(t) == c;
                        assert(0 <= t < p + 1 && hidden@.top(t) == c);
                    }
                    if top == c {
                        assert(hidden@.top(p as int) == c);
                    }
                    if exists|t: int| 0 <= t < p + 1 && hidden@.top(t) == c {
                        let t = choose|t: int| 0 <= t < p + 1 && hidden@.top(t) == c;
                        if t < p {
                            assert(in_mask(visible_mask, c));
                        }
                    }
                }
                assert forall|c: Card| c.0 < 64 implies (#[trigger] in_mask(top_mask | tm, c)
                    <==> exists|t: int| 0 <= t < p + 1 && #[trigger] hidden@.heads_at(c, t)) by {
                    lemma_in_mask_ops(top_mask, tm, c);
                    lemma_in_mask_single(top, c);
                    lemma_in_mask_ops(0, 0, c);
                    if in_mask(top_mask, c) {
                        let t = choose|t: int| 0 <= t < p && #[trigger] hidden@.heads_at(c, t);
                        assert(0 <= t < p + 1 && hidden@.heads_at(c, t));
                    }
                    if heads && top == c {
                        assert(hidden@.heads_at(c, p as int));
                    }
                    if exists|t: int| 0 <= t < p + 1 && #[trigger] hidden@.heads_at(c, t) {
                        let t = choose|t: int| 0 <= t < p + 1 && #[trigger] hidden@.heads_at(c, t);
                        if t < p {
                            assert(in_mask(top_mask, c));
                        }
                    }
                }
            }
            visible_mask |= m;
            top_mask |= tm;
            p += 1;
        }
        let g = Solitaire { hidden, final_stack: [0, 0, 0, 0], deck, visible_mask, top_mask };
        proof {
            deck.lemma_wf();
            lemma_initial_wf(g@, cards@, draw_step as int);
            let v = g@;
            assert forall|c: Card| c.0 < 48 && #[trigger] v.shown(c) implies v.heading(c) by {
                let t = choose|t: int| 0 <= t < N_PILES && v.hidden.top(t) == c;
                assert(v.hidden.heads_at(c, t));
            }
            v.lemma_heads_consistent();
        }
        Ok(g)
    }

    /// Takes `c` from the head of its pile and turns up the card under it.
    fn make_reveal(&mut self, c: Card) -> (u: UndoInfo)
        requires
            old(self).hidden.wf(),
            old(self).deck.wf(),
            old(self)@.hidden.sound(),
            old(self)@.hidden.heads(c),
            c.0 < N_CARDS,
        ensures
            final(self).hidden.wf(),
            final(self).deck.wf(),
            final(self)@ == old(self)@.revealed(c),
            u == (UndoInfo { info: old(self)@.home(c) as u8, revealed: old(self)@.turned(c) }),
    {
        proof {
            self.hidden.lemma_wf();
            let i = choose|i: int| #[trigger] self@.hidden.heads_at(c, i);
            assert(self@.hidden.dealt_at(c, i, self@.hidden.counts[i] - 1));
            assert(self@.hidden.piles[i][self@.hidden.counts[i] - 1].0 < N_CARDS);
            assert(self@.home(c) == i);
        }
        let pos = self.hidden.find(&c);
        let n = self.hidden.len(pos);
        self.top_mask ^= card_mask(&c);
        let mut revealed: Option<Card> = None;
        match self.hidden.pop(pos) {
            Some(x) => {
                let x: Card = *x;
                proof {
                    assert(old(self)@.hidden.dealt_at(x, pos as int, n - 2));
                    assert(old(self)@.hidden.piles[pos as int][n - 2].0 < N_CARDS);
                }
                revealed = Some(x);
            },
            None => {},
        }
        match revealed {
            Some(x) => {
                let xm = card_mask(&x);
                self.visible_mask |= xm;
                if x.rank() < KING_RANK || n > 2 {
                    self.top_mask |= xm;
                } else {
                    proof {
                        assert(self.top_mask | 0 == self.top_mask) by (bit_vector);
                    }
                }
            },
            None => {},
        }
        UndoInfo { info: pos, revealed }
    }

    /// Puts `c` back at the head of its pile and turns the card under it face
    /// down.
    fn unmake_reveal(&mut self, c: Card)
        requires
            old(self).hidden.wf(),
            old(self).deck.wf(),
            c.0 < N_CARDS,
            old(self)@.home(c) < N_PILES,
            old(self)@.hidden.counts[old(self)@.home(c)] <= old(self)@.home(c),
            old(self)@.hidden.counts[old(self)@.home(c)] >= 1 ==> old(self)@.hidden.top(
                old(self)@.home(c),
            ).0 < N_CARDS,
        ensures
            final(self).hidden.wf(),
            final(self).deck.wf(),
            final(self)@ == old(self)@.unrevealed(c),
    {
        proof {
            self.hidden.lemma_wf();
        }
        let pos = self.hidden.find(&c);
        let mut under: Option<Card> = None;
        match self.hidden.peek(pos) {
            Some(x) => {
                under = Some(*x);
            },
            None => {},
        }
        match under {
            Some(x) => {
                let xm = card_mask(&x);
                self.visible_mask &= !xm;
                self.top_mask &= !xm;
            },
            None => {},
        }
        self.top_mask |= card_mask(&c);
        self.hidden.unpop(pos);
    }

    /// Takes the deck `deck`, the counts `counts` of the piles and the
    /// foundations `stack` in place of its own, and reads the bitboards off
    /// them. The cards of the piles stay as they were dealt.
    pub(crate) fn reset(&mut self, deck: Deck, counts: &[u8; 7], stack: &[u8; 4])
        requires
            old(self).wf(),
            deck.wf(),
            forall|i: int| 0 <= i < N_PILES ==> (#[trigger] counts@[i]) <= i + 1,
            forall|s: int| 0 <= s < N_SUITS ==> (#[trigger] stack@[s]) <= N_RANKS,
            (SolitaireView {
                deck: deck@,
                hidden: HiddenView { counts: counts@, ..old(self)@.hidden },
                stack: stack@,
                ..old(self)@
            }).sorted(),
        ensures
            final(self).wf(),
            final(self)@.deck == deck@,
            final(self)@.hidden == (HiddenView { counts: counts@, ..old(self)@.hidden }),
            final(self)@.stack == stack@,
    {
        proof {
            self.hidden.lemma_wf();
            deck.lemma_wf();
        }
        self.deck = deck;
        self.final_stack = *stack;
        self.hidden.set_counts(counts);
        self.rebuild_masks();
        proof {
            let v = self@;
            assert forall|c: Card| c.0 < 64 && #[trigger] in_mask(v.top, c) implies in_mask(
                v.visible,
                c,
            ) by {
                v.lemma_heading(c);
                assert(v.hidden.heads_at(c, v.home(c)));
            }
        }
    }

    /// The same state once more.
    #[must_use]
    pub fn duplicate(&self) -> (r: Solitaire)
        ensures
            r == *self,
    {
        Solitaire {
            hidden: self.hidden.duplicate(),
            final_stack: self.final_stack,
            deck: self.deck.duplicate(),
            visible_mask: self.visible_mask,
            top_mask: self.top_mask,
        }
    }

    /// Carries out move `m`, and returns what is needed to take it back.
    pub fn do_move(&mut self, m: &Move) -> (u: UndoInfo)
        requires
            old(self).wf(),
            old(self)@.can_do(*m),
        ensures
            final(self).wf(),
            final(self)@ == old(self)@.after(*m),
            u == old(self)@.undo_of(*m),
            final(self)@.follows(old(self)@, *m, u),
            old(self)@.consistent() && old(self)@.legal(*m) ==> final(self)@.consistent(),
    {
        proof {
            old(self)@.lemma_after_wf(*m);
            if old(self)@.consistent() && old(self)@.legal(*m) {
                old(self)@.lemma_after_consistent(*m);
            }
            self.deck.lemma_wf();
            self.hidden.lemma_wf();
        }
        match *m {
            Move::DeckStack(c) => {
                proof {
                    self@.deck.lemma_drawn(c);
                }
                let offset = self.deck.get_offset();
                let pos = match self.deck.find_card(c) {
                    Some(p) => p,
                    None => 0,
                };
                proof {
                    self@.deck.lemma_position(c, pos as int);
                }
                self.deck.draw(pos);
                self.final_stack[c.suit() as usize] += 1;
                proof {
                    assert(self@.stack =~= old(self)@.after(*m).stack);
                }
                UndoInfo { info: offset, revealed: None }
            },
            Move::DeckPile(c) => {
                proof {
                    self@.deck.lemma_drawn(c);
                }
                let offset = self.deck.get_offset();
                let pos = match self.deck.find_card(c) {
                    Some(p) => p,
                    None => 0,
                };
                proof {
                    self@.deck.lemma_position(c, pos as int);
                }
                self.deck.draw(pos);
                self.visible_mask |= card_mask(&c);
                UndoInfo { info: offset, revealed: None }
            },
            Move::PileStack(c) => {
                let mask = card_mask(&c);
                let heading = self.top_mask & mask != 0;
                proof {
                    lemma_in_mask_test(self.top_mask, c);
                }
                self.visible_mask ^= mask;
                self.final_stack[c.suit() as usize] += 1;
                proof {
                    assert(self@.stack =~= old(self)@.stack_with(c.spec_suit(), c.spec_rank() + 1));
                }
                if heading {
                    let u = self.make_reveal(c);
                    UndoInfo { info: 1, revealed: u.revealed }
                } else {
                    UndoInfo { info: 0, revealed: None }
                }
            },
            Move::StackPile(c) => {
                self.visible_mask |= card_mask(&c);
                self.final_stack[c.suit() as usize] -= 1;
                proof {
                    assert(self@.stack =~= old(self)@.after(*m).stack);
                }
                UndoInfo { info: 0, revealed: None }
            },
            Move::Reveal(c) => {
                proof {
                    lemma_in_mask_test(self.top_mask, c);
                }
                self.make_reveal(c)
            },
        }
    }

    /// Takes back move `m`, the last move made, with what [`Solitaire::do_move`]
    /// returned for it. The state is then the one that the move was made in.
    pub fn undo_move(&mut self, m: &Move, undo: &UndoInfo)
        requires
            old(self).wf(),
            exists|prev: SolitaireView| #[trigger] old(self)@.follows(prev, *m, *undo),
        ensures
            final(self).wf(),
            final(self)@ == old(self)@.before(*m, *undo),
            forall|prev: SolitaireView| #[trigger]
                old(self)@.follows(prev, *m, *undo) ==> final(self)@ == prev,
            forall|prev: SolitaireView| #[trigger]
                old(self)@.follows(prev, *m, *undo) ==> final(self)@.encoded() == prev.encoded(),
    {
        let ghost prev = choose|prev: SolitaireView| #[trigger] old(self)@.follows(prev, *m, *undo);
        proof {
            prev.lemma_undo(*m);
            prev.lemma_after_wf(*m);
            self.deck.lemma_wf();
            self.hidden.lemma_wf();
            assert forall|p: SolitaireView| #[trigger]
                old(self)@.follows(p, *m, *undo) implies old(self)@.before(*m, *undo) == p by {
                p.lemma_undo(*m);
            }
        }
        match *m {
            Move::DeckStack(c) => {
                proof {
                    prev.deck.lemma_drawn(c);
                }
                self.final_stack[c.suit() as usize] -= 1;
                self.deck.push(c);
                self.deck.set_offset(undo.info);
                proof {
                    assert(self@.stack =~= old(self)@.before(*m, *undo).stack);
                }
            },
            Move::DeckPile(c) => {
                proof {
                    prev.deck.lemma_drawn(c);
                }
                self.visible_mask &= !card_mask(&c);
                self.deck.push(c);
                self.deck.set_offset(undo.info);
            },
            Move::PileStack(c) => {
                self.final_stack[c.suit() as usize] -= 1;
                proof {
                    assert(self@.stack =~= old(self)@.before(*m, *undo).stack);
                }
                if undo.info & 1 != 0 {
                    proof {
                        assert(0u8 & 1 == 0) by (bit_vector);
                        assert(in_mask(prev.top, c) <==> prev.hidden.heads(c));
                        prev.lemma_heading(c);
                        prev.hidden.lemma_popped(prev.home(c));
                    }
                    self.unmake_reveal(c);
                }
                self.visible_mask |= card_mask(&c);
            },
            Move::StackPile(c) => {
                self.visible_mask &= !card_mask(&c);
                self.final_stack[c.suit() as usize] += 1;
                proof {
                    assert(self@.stack =~= old(self)@.before(*m, *undo).stack);
                }
            },
            Move::Reveal(c) => {
                proof {
                    assert(in_mask(prev.top, c) <==> prev.hidden.heads(c));
                    prev.lemma_heading(c);
                    prev.hidden.lemma_popped(prev.home(c));
                }
                self.unmake_reveal(c);
            },
        }
    }

    /// Reads the two bitboards off the deck, the piles and the foundations.
    fn rebuild_masks(&mut self)
        requires
            old(self).deck.wf(),
            old(self).hidden.wf(),
            old(self)@.hidden.sound(),
            old(self)@.stack.len() == N_SUITS,
        ensures
            final(self).deck == old(self).deck,
            final(self).hidden == old(self).hidden,
            final(self)@.deck == old(self)@.deck,
            final(self)@.hidden == old(self)@.hidden,
            final(self)@.stack == old(self)@.stack,
            forall|c: Card|
                c.0 < 64 ==> (#[trigger] in_mask(final(self)@.visible, c) <==> c.0 < N_CARDS
                    && !final(self)@.deck.holds(c) && !final(self)@.hidden.is_down(c)
                    && !final(self)@.stacked(c)),
            forall|c: Card|
                c.0 < 64 ==> (#[trigger] in_mask(final(self)@.top, c) <==> final(self)@.hidden.heads(c)),
    {
        let down = self.hidden.mask();
        let mut visible: u64 = 0;
        let mut v: u8 = 0;
        let ghost s = self@;
        proof {
            self.hidden.lemma_wf();
            assert forall|c: Card| c.0 < 64 implies !in_mask(0, c) by {
                lemma_in_mask_ops(0, 0, c);
            }
        }
        while v < N_CARDS
            invariant
                v <= N_CARDS,
                s == self@,
                self.deck.wf(),
                self.hidden.wf(),
                s.stack.len() == N_SUITS,
                forall|c: Card| c.0 < 64 ==> (#[trigger] in_mask(down, c) <==> s.hidden.is_down(c)),
                forall|c: Card|
                    c.0 < 64 ==> (#[trigger] in_mask(visible, c) <==> c.0 < v && !s.deck.holds(c)
                        && !s.hidden.is_down(c) && !s.stacked(c)),
            decreases N_CARDS - v,
        {
            let c = Card::from_value(v);
            let bit = card_mask(&c);
            proof {
                lemma_in_mask_test(down, c);
            }
            let shown = !self.deck.holds_card(&c) && down & bit == 0 && c.rank()
                >= self.final_stack[c.suit() as usize];
            let add = if shown {
                bit
            } else {
                0
            };
            proof {
                assert forall|x: Card| c.0 < 64 && x.0 < 64 implies (#[trigger] in_mask(
                    visible | add,
                    x,
                ) <==> x.0 < v + 1 && !s.deck.holds(x) && !s.hidden.is_down(x) && !s.stacked(x)) by {
                    lemma_in_mask_ops(visible, add, x);
                    lemma_in_mask_single(c, x);
                    lemma_in_mask_ops(0, 0, x);
                }
            }
            visible |= add;
            v += 1;
        }
        let mut top: u64 = 0;
        let mut p: u8 = 0;
        while p < N_PILES
            invariant
                p <= N_PILES,
                s == self@,
                self.deck.wf(),
                self.hidden.wf(),
                s.hidden.sound(),
                forall|c: Card|
                    c.0 < 64 ==> (#[trigger] in_mask(top, c) <==> exists|t: int|
                        0 <= t < p && #[trigger] s.hidden.heads_at(c, t)),
            decreases N_PILES - p,
        {
            let ghost before = top;
            match self.hidden.peek(p) {
                Some(c) => {
                    let c: Card = *c;
                    proof {
                        let n = s.hidden.counts[p as int] as int;
                        assert(s.hidden.dealt_at(c, p as int, n - 1));
                        assert(s.hidden.piles[p as int][n - 1].0 < N_CARDS);
                    }
                    if c.rank() < KING_RANK || self.hidden.len(p) > 1 {
                        let bit = card_mask(&c);
                        proof {
                            assert forall|x: Card| x.0 < 64 implies (#[trigger] in_mask(top | bit, x)
                                <==> in_mask(top, x) || x == c) by {
                                lemma_in_mask_ops(top, bit, x);
                                lemma_in_mask_single(c, x);
                            }
                        }
                        top |= bit;
                    }
                },
                None => {},
            }
            proof {
                assert forall|x: Card| x.0 < 64 implies (#[trigger] in_mask(top, x) <==> exists|
                    t: int,
                | 0 <= t < p + 1 && #[trigger] s.hidden.heads_at(x, t)) by {
                    if in_mask(before, x) {
                        let t = choose|t: int| 0 <= t < p && #[trigger] s.hidden.heads_at(x, t);
                        assert(0 <= t < p + 1 && s.hidden.heads_at(x, t));
                    }
                    if s.hidden.heads_at(x, p as int) {
                        assert(in_mask(top, x));
                    }
                    if exists|t: int| 0 <= t < p + 1 && #[trigger] s.hidden.heads_at(x, t) {
                        let t = choose|t: int| 0 <= t < p + 1 && #[trigger] s.hidden.heads_at(x, t);
                        if t < p {
                            assert(in_mask(before, x));
                        }
                    }
                }
            }
            p += 1;
        }
        self.visible_mask = visible;
        self.top_mask = top;
        proof {
            assert forall|c: Card| c.0 < 64 implies (#[trigger] in_mask(self@.top, c)
                <==> self@.hidden.heads(c)) by {
                if in_mask(top, c) {
                    let t = choose|t: int| 0 <= t < N_PILES && #[trigger] s.hidden.heads_at(c, t);
                    assert(s.hidden.heads_at(c, t));
                }
                if s.hidden.heads(c) {
                    let t = choose|t: int| #[trigger] s.hidden.heads_at(c, t);
                    assert(0 <= t < N_PILES && s.hidden.heads_at(c, t));
                }
            }
        }
    }

    /// Sets the state to the one that the key `encode` stands for: a key made
    /// by [`Solitaire::encode`] on a state of the same deal. The state is that
    /// state with the cursor of its deck normalized, and plays like it.
    pub fn decode(&mut self, encode: Encode)
        requires
            old(self).wf(),
            exists|src: SolitaireView| #[trigger] src.encodes(old(self)@, encode),
        ensures
            final(self).wf(),
            final(self)@.same_deal(old(self)@),
            forall|src: SolitaireView| #[trigger]
                src.encodes(old(self)@, encode) ==> final(self)@ == src.normalized()
                    && final(self)@.equivalent(src),
    {
        let ghost src = choose|src: SolitaireView| #[trigger] src.encodes(old(self)@, encode);
        let stack_key = (encode & 0xFFFF) as u16;
        let hidden_key = ((encode >> 16) & 0xFFFF) as u16;
        let deck_key = (encode >> 32) as u32;
        proof {
            self.deck.lemma_wf();
            self.hidden.lemma_wf();
            lemma_key_parts(src);
            assert(self@.deck.admits(deck_key));
        }
        self.final_stack[0] = (stack_key & 0xF) as u8;
        self.final_stack[1] = ((stack_key >> 4) & 0xF) as u8;
        self.final_stack[2] = ((stack_key >> 8) & 0xF) as u8;
        self.final_stack[3] = ((stack_key >> 12) & 0xF) as u8;
        self.hidden.decode(hidden_key);
        self.deck.decode(deck_key);
        proof {
            self.deck.lemma_wf();
            self.hidden.lemma_wf();
            assert(self@.stack =~= src.stack);
            assert forall|i: int| 0 <= i < N_PILES implies #[trigger] self@.hidden.counts[i]
                == src.hidden.counts[i] by {
                src.hidden.lemma_key_roundtrip(i);
            }
            assert(self@.hidden.counts =~= src.hidden.counts);
            assert(self@.hidden == src.hidden);
            assert(self@.deck == src.deck.normalized());
        }
        self.rebuild_masks();
        proof {
            let f = self@;
            let n = src.normalized();
            src.lemma_normalized();
            assert forall|c: Card| c.0 < 64 implies #[trigger] in_mask(f.visible, c) == in_mask(
                n.visible,
                c,
            ) by {
                assert(in_mask(n.visible, c) <==> c.0 < N_CARDS && !n.deck.holds(c)
                    && !n.hidden.is_down(c) && !n.stacked(c));
            }
            lemma_mask_ext(f.visible, n.visible);
            assert forall|c: Card| c.0 < 64 implies #[trigger] in_mask(f.top, c) == in_mask(
                n.top,
                c,
            ) by {
                assert(in_mask(n.top, c) <==> n.hidden.heads(c));
            }
            lemma_mask_ext(f.top, n.top);
            assert(f == n);
            assert forall|other: SolitaireView| #[trigger]
                other.encodes(old(self)@, encode) implies f == other.normalized() && f.equivalent(
                other,
            ) by {
                lemma_key_unique(src, other);
                other.lemma_normalized();
            }
        }
    }

    /// The two states play alike: the same cards lie in the same places, and
    /// the same cards of the deck are out of reach.
    #[must_use]
    pub fn equivalent_to(&self, other: &Solitaire) -> (b: bool)
        requires
            self.wf(),
            other.wf(),
        ensures
            b == self@.equivalent(other@),
    {
        proof {
            self.hidden.lemma_wf();
            other.hidden.lemma_wf();
        }
        if !self.deck.equivalent_to(&other.deck) {
            return false;
        }
        if self.visible_mask != other.visible_mask || self.top_mask != other.top_mask {
            return false;
        }
        let mut s: usize = 0;
        while s < 4
            invariant
                s <= 4,
                forall|t: int| 0 <= t < s ==> self@.stack[t] == other@.stack[t],
            decreases 4 - s,
        {
            if self.final_stack[s] != other.final_stack[s] {
                return false;
            }
            s += 1;
        }
        let mine = self.hidden.normalize();
        let theirs = other.hidden.normalize();
        let mut p: usize = 0;
        while p < 7
            invariant
                p <= 7,
                forall|t: int| 0 <= t < N_PILES ==> #[trigger] mine@[t] == self@.hidden.normal_count(t),
                forall|t: int|
                    0 <= t < N_PILES ==> #[trigger] theirs@[t] == other@.hidden.normal_count(t),
                forall|t: int|
                    0 <= t < p ==> #[trigger] self@.hidden.normal_count(t) == other@.hidden.normal_count(
                        t,
                    ),
            decreases 7 - p,
        {
            if mine[p] != theirs[p] {
                assert(mine@[p as int] == self@.hidden.normal_count(p as int));
                assert(theirs@[p as int] == other@.hidden.normal_count(p as int));
                return false;
            }
            assert(mine@[p as int] == self@.hidden.normal_count(p as int));
            assert(theirs@[p as int] == other@.hidden.normal_count(p as int));
            p += 1;
        }
        proof {
            assert(self@.stack =~= other@.stack);
        }
        true
    }

    /// All four foundations are full.
    #[must_use]
    pub fn is_win(&self) -> (b: bool)
        ensures
            b == self@.is_win(),
    {
        self.final_stack[0] == N_RANKS && self.final_stack[1] == N_RANKS && self.final_stack[2]
            == N_RANKS && self.final_stack[3] == N_RANKS
    }

    #[must_use]
    pub fn get_deck(&self) -> (d: &Deck)
        ensures
            d@ == self@.deck,
            self.wf() ==> d.wf(),
    {
        &self.deck
    }

    #[must_use]
    pub fn get_hidden(&self) -> (h: &Hidden)
        ensures
            h@ == self@.hidden,
            self.wf() ==> h.wf(),
    {
        &self.hidden
    }

    /// For each suit, the rank of the next card to go on its foundation.
    #[must_use]
    pub fn get_stack(&self) -> (s: &[u8; 4])
        ensures
            s@ == self@.stack,
    {
        &self.final_stack
    }

    /// The cards that lie face up in the tableau, as a bitboard.
    #[must_use]
    pub fn get_visible_mask(&self) -> (m: u64)
        ensures
            m == self@.visible,
    {
        self.visible_mask
    }

    /// The face-up cards that lie on face-down cards, as a bitboard.
    #[must_use]
    pub fn get_top_mask(&self) -> (m: u64)
        ensures
            m == self@.top,
    {
        self.top_mask
    }

    /// The key of the state, 61 bits: equal for states that play alike.
    #[must_use]
    pub fn encode(&self) -> (e: Encode)
        requires
            self.wf(),
        ensures
            e == self@.encoded(),
    {
        let s = &self.final_stack;
        let stack_encode: u16 = (s[0] as u16) | (s[1] as u16) << 4 | (s[2] as u16) << 8 | (
        s[3] as u16) << 12;
        let hidden_encode = self.hidden.encode();
        let deck_encode = self.deck.encode();
        (stack_encode as u64) | (hidden_encode as u64) << 16 | (deck_encode as u64) << 32
    }
}

/// The state right after a deal is well formed.
proof fn lemma_initial_wf(v: SolitaireView, cards: Seq<Card>, step: int)
    requires
        is_deal(cards),
        v.deck.wf(),
        v.hidden.sound(),
        v.is_initial(cards, step),
        v.stack.len() == N_SUITS,
        forall|i: int|
            0 <= i < N_FULL_DECK ==> v.deck.slots[(#[trigger] v.deck.cards[i]).0 as int] == i,
        forall|c: Card|
            c.0 < N_CARDS && !v.deck.cards.contains(c) ==> #[trigger] v.deck.slot_of(c) == NO_SLOT,
        forall|c: Card|
            c.0 < 64 ==> (#[trigger] in_mask(v.visible, c) <==> exists|t: int|
                0 <= t < N_PILES && v.hidden.top(t) == c),
        forall|c: Card|
            c.0 < 64 ==> (#[trigger] in_mask(v.top, c) <==> exists|t: int|
                0 <= t < N_PILES && #[trigger] v.hidden.heads_at(c, t)),
    ensures
        v.wf(),
{
    let h = v.hidden;
    let d = v.deck;
    let hc = cards.subrange(0, 28);
    assert forall|i: int, j: int| 0 <= i < N_PILES && 0 <= j <= i implies #[trigger] h.piles[i][j]
        == cards[pile_start(i) + j] by {
        assert(h.piles[i] == hc.subrange(pile_start(i), pile_start(i) + i + 1));
    }
    assert forall|c: Card|
        #![trigger d.slot_of(c)]
        #![trigger h.dealt(c)]
        c.0 < N_CARDS implies (d.slot_of(c) < N_FULL_DECK <==> !h.dealt(c)) by {
        assert(cards.contains(c));
        let k = choose|k: int| 0 <= k < cards.len() && cards[k] == c;
        if k < 28 {
            let i = pile_index(k);
            let j = k - pile_start(i);
            assert(h.piles[i][j] == cards[pile_start(i) + j]);
            assert(h.dealt_at(c, i, j));
            if d.cards.contains(c) {
                let l = choose|l: int| 0 <= l < d.cards.len() && d.cards[l] == c;
                assert(cards[l + 28] == c);
                assert(cards[k].0 != cards[l + 28].0);
            }
        } else {
            assert(d.cards[k - 28] == c);
            assert(d.slots[d.cards[k - 28].0 as int] == k - 28);
            if h.dealt(c) {
                let (i, j) = choose|i: int, j: int| #[trigger] h.dealt_at(c, i, j);
                assert(h.piles[i][j] == cards[pile_start(i) + j]);
                assert(cards[pile_start(i) + j].0 != cards[k].0);
            }
        }
    }
    assert forall|c: Card| #[trigger] h.is_down(c) implies h.dealt(c) by {
        let (i, j) = choose|i: int, j: int| #[trigger] h.down_at(c, i, j);
        assert(h.dealt_at(c, i, j));
    }
    assert forall|c: Card| c.0 < 64 implies (#[trigger] in_mask(v.top, c) <==> h.heads(c)) by {
        if in_mask(v.top, c) {
            let t = choose|t: int| 0 <= t < N_PILES && #[trigger] h.heads_at(c, t);
            assert(h.heads_at(c, t));
        }
        if h.heads(c) {
            let t = choose|t: int| #[trigger] h.heads_at(c, t);
            assert(0 <= t < N_PILES && h.heads_at(c, t));
        }
    }
    assert forall|c: Card| c.0 < 64 && #[trigger] in_mask(v.top, c) implies in_mask(
        v.visible,
        c,
    ) by {
        let t = choose|t: int| 0 <= t < N_PILES && #[trigger] h.heads_at(c, t);
        assert(0 <= t < N_PILES && h.top(t) == c);
    }
    assert forall|c: Card| c.0 < 64 implies (#[trigger] in_mask(v.visible, c) <==> c.0 < N_CARDS
        && !d.holds(c) && !h.is_down(c) && !v.stacked(c)) by {
        assert(d.holds(c) <==> d.cards.contains(c));
        if in_mask(v.visible, c) {
            let t = choose|t: int| 0 <= t < N_PILES && h.top(t) == c;
            assert(h.dealt_at(c, t, t));
            assert(h.piles[t][t].0 < N_CARDS);
            assert(d.slot_of(c) < N_FULL_DECK <==> !h.dealt(c));
            if h.is_down(c) {
                let (i, j) = choose|i: int, j: int| #[trigger] h.down_at(c, i, j);
                assert(h.dealt_at(c, i, j));
                h.lemma_dealt_unique(c, i, j, t, t);
            }
        }
        if c.0 < N_CARDS && !d.holds(c) && !h.is_down(c) {
            assert(d.slot_of(c) < N_FULL_DECK <==> !h.dealt(c));
            if !h.dealt(c) {
                lemma_zero_consumed(d, c);
            }
            let (i, j) = choose|i: int, j: int| #[trigger] h.dealt_at(c, i, j);
            if j < i {
                assert(h.down_at(c, i, j));
            }
            assert(h.top(i) == c);
        }
    }
    assert forall|c: Card| #[trigger] d.holds(c) implies !v.stacked(c) by {}
    assert forall|c: Card| #[trigger] h.is_down(c) implies !v.stacked(c) by {}
}

/// While nothing has left the deck, it holds every card that was dealt into it.
proof fn lemma_zero_consumed(d: DeckView, c: Card)
    requires
        d.consumed == 0,
        c.0 < N_CARDS,
        d.slot_of(c) < N_FULL_DECK,
    ensures
        d.holds(c),
{
    crate::bits::lemma_bit32_zero(d.slot_of(c) as u32);
}

impl SolitaireView {
    /// A card that heads a pile is the top card of the pile it was dealt into.
    pub proof fn lemma_heading(self, c: Card)
        requires
            self.hidden.sound(),
            self.hidden.heads(c),
        ensures
            c.0 < N_CARDS,
            0 <= self.home(c) < N_PILES,
            self.hidden.heads_at(c, self.home(c)),
            self.hidden.counts[self.home(c)] >= 1,
            self.hidden.top(self.home(c)) == c,
            self.hidden.dealt(c),
            !self.hidden.is_down(c),
            match self.turned(c) {
                Some(x) => x.0 < N_CARDS && x != c && self.hidden.is_down(x) && self.hidden.dealt(x),
                None => true,
            },
    {
        let h = self.hidden;
        let i = choose|i: int| #[trigger] h.heads_at(c, i);
        let n = h.counts[i] as int;
        assert(h.dealt_at(c, i, n - 1));
        assert(h.piles[i][n - 1].0 < N_CARDS);
        h.lemma_popped(i);
        if n > 1 {
            let x = h.piles[i][n - 2];
            assert(h.dealt_at(x, i, n - 2));
            assert(h.piles[i][n - 2] != h.piles[i][n - 1]);
        }
    }

    /// The state that [`SolitaireView::revealed`] gives is well formed, if all
    /// was well before but that `c` itself need not show.
    proof fn lemma_revealed_wf(self, c: Card)
        requires
            self.deck.wf(),
            self.hidden.sound(),
            self.stack.len() == N_SUITS,
            forall|s: int| 0 <= s < N_SUITS ==> (#[trigger] self.stack[s]) <= N_RANKS,
            forall|x: Card|
                #![trigger self.deck.slot_of(x)]
                #![trigger self.hidden.dealt(x)]
                x.0 < N_CARDS ==> (self.deck.slot_of(x) < N_FULL_DECK <==> !self.hidden.dealt(x)),
            forall|x: Card|
                x.0 < 64 ==> (#[trigger] in_mask(self.visible, x) <==> x.0 < N_CARDS
                    && !self.deck.holds(x) && !self.hidden.is_down(x) && !self.stacked(x)),
            forall|x: Card| #[trigger] self.deck.holds(x) ==> !self.stacked(x),
            forall|x: Card| #[trigger] self.hidden.is_down(x) ==> !self.stacked(x),
            forall|x: Card|
                x.0 < 64 ==> (#[trigger] in_mask(self.top, x) <==> self.hidden.heads(x)),
            forall|x: Card|
                x.0 < 64 && x != c && #[trigger] in_mask(self.top, x) ==> in_mask(self.visible, x),
            self.hidden.heads(c),
        ensures
            self.revealed(c).wf(),
    {
        let r = self.revealed(c);
        let h = self.hidden;
        let i = self.home(c);
        self.lemma_heading(c);
        h.lemma_popped(i);
        let n = h.counts[i] as int;
        assert forall|x: Card|
            #![trigger r.deck.slot_of(x)]
            #![trigger r.hidden.dealt(x)]
            x.0 < N_CARDS implies (r.deck.slot_of(x) < N_FULL_DECK <==> !r.hidden.dealt(x)) by {
            assert(self.deck.slot_of(x) < N_FULL_DECK <==> !h.dealt(x));
            assert(r.hidden.dealt(x) <==> h.dealt(x));
        }
        assert forall|x: Card| #[trigger] r.hidden.is_down(x) implies !r.stacked(x) by {
            assert(h.is_down(x));
        }
        assert forall|x: Card| #[trigger] r.deck.holds(x) implies !r.stacked(x) by {
            assert(self.deck.holds(x));
        }
        match self.turned(c) {
            Some(t) => {
                let tm = if t.spec_rank() < KING_RANK || n > 2 {
                    mask_of(t)
                } else {
                    0
                };
                assert(self.deck.slot_of(t) < N_FULL_DECK <==> !h.dealt(t));
                assert forall|x: Card| x.0 < 64 implies (#[trigger] in_mask(r.visible, x) <==> x.0
                    < N_CARDS && !r.deck.holds(x) && !r.hidden.is_down(x) && !r.stacked(x)) by {
                    lemma_in_mask_ops(self.visible, mask_of(t), x);
                    lemma_in_mask_single(t, x);
                    assert(in_mask(self.visible, x) <==> x.0 < N_CARDS && !self.deck.holds(x)
                        && !h.is_down(x) && !self.stacked(x));
                    assert(r.hidden.is_down(x) <==> (h.is_down(x) && !(n > 1 && x == h.piles[i][n
                        - 2])));
                }
                assert forall|x: Card| x.0 < 64 implies (#[trigger] in_mask(r.top, x)
                    <==> r.hidden.heads(x)) by {
                    lemma_in_mask_ops(self.top ^ mask_of(c), tm, x);
                    lemma_in_mask_ops(self.top, mask_of(c), x);
                    lemma_in_mask_single(t, x);
                    lemma_in_mask_single(c, x);
                    lemma_in_mask_ops(0, 0, x);
                    assert(in_mask(self.top, x) <==> h.heads(x));
                    assert(in_mask(self.top, c) <==> h.heads(c));
                    assert(r.hidden.heads(x) <==> ((h.heads(x) && x != h.top(i)) || (n > 1 && x
                        == h.piles[i][n - 2] && (n > 2 || x.spec_rank() < KING_RANK))));
                }
                assert forall|x: Card| x.0 < 64 && #[trigger] in_mask(r.top, x) implies in_mask(
                    r.visible,
                    x,
                ) by {
                    lemma_in_mask_ops(self.top ^ mask_of(c), tm, x);
                    lemma_in_mask_ops(self.top, mask_of(c), x);
                    lemma_in_mask_ops(self.visible, mask_of(t), x);
                    lemma_in_mask_single(t, x);
                    lemma_in_mask_single(c, x);
                    lemma_in_mask_ops(0, 0, x);
                    assert(in_mask(self.top, c) <==> h.heads(c));
                    if x != c && in_mask(self.top, x) {
                        assert(in_mask(self.visible, x));
                    }
                }
            },
            None => {
                assert forall|x: Card| x.0 < 64 implies (#[trigger] in_mask(r.visible, x) <==> x.0
                    < N_CARDS && !r.deck.holds(x) && !r.hidden.is_down(x) && !r.stacked(x)) by {
                    assert(in_mask(self.visible, x) <==> x.0 < N_CARDS && !self.deck.holds(x)
                        && !h.is_down(x) && !self.stacked(x));
                    assert(r.hidden.is_down(x) <==> (h.is_down(x) && !(n > 1 && x == h.piles[i][n
                        - 2])));
                }
                assert forall|x: Card| x.0 < 64 implies (#[trigger] in_mask(r.top, x)
                    <==> r.hidden.heads(x)) by {
                    lemma_in_mask_ops(self.top, mask_of(c), x);
                    lemma_in_mask_single(c, x);
                    assert(in_mask(self.top, x) <==> h.heads(x));
                    assert(in_mask(self.top, c) <==> h.heads(c));
                    assert(r.hidden.heads(x) <==> ((h.heads(x) && x != h.top(i)) || (n > 1 && x
                        == h.piles[i][n - 2] && (n > 2 || x.spec_rank() < KING_RANK))));
                }
                assert forall|x: Card| x.0 < 64 && #[trigger] in_mask(r.top, x) implies in_mask(
                    r.visible,
                    x,
                ) by {
                    lemma_in_mask_ops(self.top, mask_of(c), x);
                    lemma_in_mask_single(c, x);
                    assert(in_mask(self.top, c) <==> h.heads(c));
                    if x != c && in_mask(self.top, x) {
                        assert(in_mask(self.visible, x));
                    }
                }
            },
        }
    }

    /// Two cards of one suit and rank are one card.
    pub proof fn lemma_same_card(c: Card, x: Card)
        requires
            c.spec_rank() == x.spec_rank(),
            c.spec_suit() == x.spec_suit(),
        ensures
            c == x,
    {
    }

    /// A move that can be carried out leaves a well-formed state.
    pub proof fn lemma_after_wf(self, m: Move)
        requires
            self.wf(),
            self.can_do(m),
        ensures
            self.after(m).wf(),
    {
        let r = self.after(m);
        match m {
            Move::DeckStack(c) => {
                self.deck.lemma_drawn(c);
                assert(!self.stacked(c));
                assert forall|x: Card| x != c implies (#[trigger] r.stacked(x) <==> self.stacked(
                    x,
                )) by {
                    if x.spec_suit() == c.spec_suit() && x.spec_rank() == c.spec_rank() {
                        Self::lemma_same_card(c, x);
                    }
                }
                assert(r.stacked(c));
                assert(self.deck.slot_of(c) < N_FULL_DECK <==> !self.hidden.dealt(c));
                assert forall|x: Card| x.0 < 64 implies (#[trigger] in_mask(r.visible, x) <==> x.0
                    < N_CARDS && !r.deck.holds(x) && !r.hidden.is_down(x) && !r.stacked(x)) by {
                    assert(in_mask(self.visible, x) <==> x.0 < N_CARDS && !self.deck.holds(x)
                        && !self.hidden.is_down(x) && !self.stacked(x));
                    if x != c {
                        assert(r.deck.holds(x) <==> self.deck.holds(x));
                    }
                }
                assert forall|x: Card| #[trigger] r.deck.holds(x) implies !r.stacked(x) by {
                    assert(self.deck.holds(x));
                }
                assert forall|x: Card| #[trigger] r.hidden.is_down(x) implies !r.stacked(x) by {
                    if x == c {
                        let (i, j) = choose|i: int, j: int| #[trigger] self.hidden.down_at(x, i, j);
                        assert(self.hidden.dealt_at(x, i, j));
                    }
                }
                assert forall|x: Card|
                    #![trigger r.deck.slot_of(x)]
                    #![trigger r.hidden.dealt(x)]
                    x.0 < N_CARDS implies (r.deck.slot_of(x) < N_FULL_DECK <==> !r.hidden.dealt(
                    x,
                )) by {
                    assert(self.deck.slot_of(x) < N_FULL_DECK <==> !self.hidden.dealt(x));
                }
                assert forall|s: int| 0 <= s < N_SUITS implies (#[trigger] r.stack[s])
                    <= N_RANKS by {
                    assert(self.stack[s] <= N_RANKS);
                }
            },
            Move::DeckPile(c) => {
                self.deck.lemma_drawn(c);
                assert(!self.stacked(c));
                assert(self.deck.slot_of(c) < N_FULL_DECK <==> !self.hidden.dealt(c));
                assert(!self.hidden.is_down(c)) by {
                    if self.hidden.is_down(c) {
                        let (i, j) = choose|i: int, j: int| #[trigger] self.hidden.down_at(c, i, j);
                        assert(self.hidden.dealt_at(c, i, j));
                    }
                }
                assert forall|x: Card| x.0 < 64 implies (#[trigger] in_mask(r.visible, x) <==> x.0
                    < N_CARDS && !r.deck.holds(x) && !r.hidden.is_down(x) && !r.stacked(x)) by {
                    lemma_in_mask_ops(self.visible, mask_of(c), x);
                    lemma_in_mask_single(c, x);
                    assert(in_mask(self.visible, x) <==> x.0 < N_CARDS && !self.deck.holds(x)
                        && !self.hidden.is_down(x) && !self.stacked(x));
                    if x != c {
                        assert(r.deck.holds(x) <==> self.deck.holds(x));
                    }
                }
                assert forall|x: Card| #[trigger] r.deck.holds(x) implies !r.stacked(x) by {
                    assert(self.deck.holds(x));
                }
                assert forall|x: Card|
                    #![trigger r.deck.slot_of(x)]
                    #![trigger r.hidden.dealt(x)]
                    x.0 < N_CARDS implies (r.deck.slot_of(x) < N_FULL_DECK <==> !r.hidden.dealt(
                    x,
                )) by {
                    assert(self.deck.slot_of(x) < N_FULL_DECK <==> !self.hidden.dealt(x));
                }
                assert forall|x: Card| x.0 < 64 && #[trigger] in_mask(r.top, x) implies in_mask(
                    r.visible,
                    x,
                ) by {
                    lemma_in_mask_ops(self.visible, mask_of(c), x);
                    assert(in_mask(self.visible, x));
                }
            },
            Move::PileStack(c) => {
                let s = SolitaireView {
                    visible: self.visible ^ mask_of(c),
                    stack: self.stack_with(c.spec_suit(), c.spec_rank() + 1),
                    ..self
                };
                assert(in_mask(self.visible, c) <==> c.0 < N_CARDS && !self.deck.holds(c)
                    && !self.hidden.is_down(c) && !self.stacked(c));
                assert forall|x: Card| x != c implies (#[trigger] s.stacked(x) <==> self.stacked(
                    x,
                )) by {
                    if x.spec_suit() == c.spec_suit() && x.spec_rank() == c.spec_rank() {
                        Self::lemma_same_card(c, x);
                    }
                }
                assert(s.stacked(c));
                assert forall|x: Card| x.0 < 64 implies (#[trigger] in_mask(s.visible, x) <==> x.0
                    < N_CARDS && !s.deck.holds(x) && !s.hidden.is_down(x) && !s.stacked(x)) by {
                    lemma_in_mask_ops(self.visible, mask_of(c), x);
                    lemma_in_mask_single(c, x);
                    assert(in_mask(self.visible, x) <==> x.0 < N_CARDS && !self.deck.holds(x)
                        && !self.hidden.is_down(x) && !self.stacked(x));
                }
                assert forall|x: Card| #[trigger] s.deck.holds(x) implies !s.stacked(x) by {
                    assert(!self.stacked(x));
                }
                assert forall|x: Card| #[trigger] s.hidden.is_down(x) implies !s.stacked(x) by {
                    assert(!self.stacked(x));
                }
                assert forall|k: int| 0 <= k < N_SUITS implies (#[trigger] s.stack[k])
                    <= N_RANKS by {
                    assert(self.stack[k] <= N_RANKS);
                }
                assert forall|x: Card|
                    x.0 < 64 && x != c && #[trigger] in_mask(s.top, x) implies in_mask(
                    s.visible,
                    x,
                ) by {
                    lemma_in_mask_ops(self.visible, mask_of(c), x);
                    lemma_in_mask_single(c, x);
                    assert(in_mask(self.visible, x));
                }
                assert forall|x: Card|
                    #![trigger s.deck.slot_of(x)]
                    #![trigger s.hidden.dealt(x)]
                    x.0 < N_CARDS implies (s.deck.slot_of(x) < N_FULL_DECK <==> !s.hidden.dealt(
                    x,
                )) by {
                    assert(self.deck.slot_of(x) < N_FULL_DECK <==> !self.hidden.dealt(x));
                }
                assert forall|x: Card| x.0 < 64 implies (#[trigger] in_mask(s.top, x)
                    <==> s.hidden.heads(x)) by {
                    assert(in_mask(self.top, x) <==> self.hidden.heads(x));
                }
                if self.heading(c) {
                    assert(in_mask(self.top, c) <==> self.hidden.heads(c));
                    s.lemma_revealed_wf(c);
                } else {
                    assert(s.wf());
                }
            },
            Move::StackPile(c) => {
                assert(self.stacked(c));
                assert forall|x: Card| x != c implies (#[trigger] r.stacked(x) <==> self.stacked(
                    x,
                )) by {
                    if x.spec_suit() == c.spec_suit() && x.spec_rank() == c.spec_rank() {
                        Self::lemma_same_card(c, x);
                    }
                }
                assert(!r.stacked(c));
                assert(!self.deck.holds(c));
                assert(!self.hidden.is_down(c));
                assert forall|x: Card| x.0 < 64 implies (#[trigger] in_mask(r.visible, x) <==> x.0
                    < N_CARDS && !r.deck.holds(x) && !r.hidden.is_down(x) && !r.stacked(x)) by {
                    lemma_in_mask_ops(self.visible, mask_of(c), x);
                    lemma_in_mask_single(c, x);
                    assert(in_mask(self.visible, x) <==> x.0 < N_CARDS && !self.deck.holds(x)
                        && !self.hidden.is_down(x) && !self.stacked(x));
                }
                assert forall|x: Card| #[trigger] r.deck.holds(x) implies !r.stacked(x) by {
                    assert(!self.stacked(x));
                }
                assert forall|x: Card| #[trigger] r.hidden.is_down(x) implies !r.stacked(x) by {
                    assert(!self.stacked(x));
                }
                assert forall|k: int| 0 <= k < N_SUITS implies (#[trigger] r.stack[k])
                    <= N_RANKS by {
                    assert(self.stack[k] <= N_RANKS);
                }
                assert forall|x: Card| x.0 < 64 && #[trigger] in_mask(r.top, x) implies in_mask(
                    r.visible,
                    x,
                ) by {
                    lemma_in_mask_ops(self.visible, mask_of(c), x);
                    assert(in_mask(self.visible, x));
                }
                assert forall|x: Card|
                    #![trigger r.deck.slot_of(x)]
                    #![trigger r.hidden.dealt(x)]
                    x.0 < N_CARDS implies (r.deck.slot_of(x) < N_FULL_DECK <==> !r.hidden.dealt(
                    x,
                )) by {
                    assert(self.deck.slot_of(x) < N_FULL_DECK <==> !self.hidden.dealt(x));
                }
            },
            Move::Reveal(c) => {
                assert(in_mask(self.top, c) <==> self.hidden.heads(c));
                self.lemma_revealed_wf(c);
            },
        }
    }

    /// Putting `c` back at the head of its pile is the reverse of taking it
    /// from there.
    proof fn lemma_unrevealed(self, c: Card)
        requires
            self.hidden.sound(),
            self.hidden.heads(c),
            in_mask(self.top, c),
            match self.turned(c) {
                Some(x) => !in_mask(self.visible, x) && !in_mask(self.top, x),
                None => true,
            },
        ensures
            self.revealed(c).unrevealed(c) == self,
    {
        let r = self.revealed(c);
        let u = r.unrevealed(c);
        let i = self.home(c);
        self.lemma_heading(c);
        self.hidden.lemma_unpopped(i);
        let n = self.hidden.counts[i] as int;
        match self.turned(c) {
            Some(t) => {
                assert(r.hidden.top(i) == t);
                let tm = if t.spec_rank() < KING_RANK || n > 2 {
                    mask_of(t)
                } else {
                    0
                };
                assert forall|x: Card| x.0 < 64 implies #[trigger] in_mask(u.visible, x) == in_mask(
                    self.visible,
                    x,
                ) by {
                    lemma_in_mask_ops(self.visible, mask_of(t), x);
                    lemma_in_mask_ops(self.visible | mask_of(t), !mask_of(t), x);
                    lemma_in_mask_ops(mask_of(t), 0, x);
                    lemma_in_mask_single(t, x);
                }
                lemma_mask_ext(u.visible, self.visible);
                assert forall|x: Card| x.0 < 64 implies #[trigger] in_mask(u.top, x) == in_mask(
                    self.top,
                    x,
                ) by {
                    lemma_in_mask_ops(self.top, mask_of(c), x);
                    lemma_in_mask_ops(self.top ^ mask_of(c), tm, x);
                    lemma_in_mask_ops(r.top, !mask_of(t), x);
                    lemma_in_mask_ops(mask_of(t), 0, x);
                    lemma_in_mask_ops(r.top & !mask_of(t), mask_of(c), x);
                    lemma_in_mask_ops(0, 0, x);
                    lemma_in_mask_single(t, x);
                    lemma_in_mask_single(c, x);
                }
                lemma_mask_ext(u.top, self.top);
            },
            None => {
                assert forall|x: Card| x.0 < 64 implies #[trigger] in_mask(u.top, x) == in_mask(
                    self.top,
                    x,
                ) by {
                    lemma_in_mask_ops(self.top, mask_of(c), x);
                    lemma_in_mask_ops(self.top ^ mask_of(c), mask_of(c), x);
                    lemma_in_mask_single(c, x);
                }
                lemma_mask_ext(u.top, self.top);
            },
        }
    }

    /// Adding a card to a bitboard that lacks it and taking it out again, or
    /// the reverse where the bitboard has it, gives the bitboard back.
    pub proof fn lemma_mask_round(v: u64, c: Card)
        requires
            c.0 < 64,
        ensures
            !in_mask(v, c) ==> (v | mask_of(c)) & !mask_of(c) == v,
            in_mask(v, c) ==> (v ^ mask_of(c)) | mask_of(c) == v,
            in_mask(v, c) ==> (v & !mask_of(c)) | mask_of(c) == v,
    {
        let m = mask_of(c);
        assert forall|x: Card| x.0 < 64 implies (#[trigger] in_mask((v | m) & !m, x)) == (in_mask(
            v,
            x,
        ) && x != c) by {
            lemma_in_mask_ops(v, m, x);
            lemma_in_mask_ops(v | m, !m, x);
            lemma_in_mask_ops(m, 0, x);
            lemma_in_mask_single(c, x);
        }
        assert forall|x: Card| x.0 < 64 implies (#[trigger] in_mask((v ^ m) | m, x)) == (in_mask(
            v,
            x,
        ) || x == c) by {
            lemma_in_mask_ops(v, m, x);
            lemma_in_mask_ops(v ^ m, m, x);
            lemma_in_mask_single(c, x);
        }
        assert forall|x: Card| x.0 < 64 implies (#[trigger] in_mask((v & !m) | m, x)) == (in_mask(
            v,
            x,
        ) || x == c) by {
            lemma_in_mask_ops(v, !m, x);
            lemma_in_mask_ops(m, 0, x);
            lemma_in_mask_ops(v & !m, m, x);
            lemma_in_mask_single(c, x);
        }
        if !in_mask(v, c) {
            lemma_mask_ext((v | m) & !m, v);
        } else {
            lemma_mask_ext((v ^ m) | m, v);
            lemma_mask_ext((v & !m) | m, v);
        }
    }

    /// Taking a move back gives the state that the move was made in.
    pub proof fn lemma_undo(self, m: Move)
        requires
            self.wf(),
            self.can_do(m),
        ensures
            self.after(m).before(m, self.undo_of(m)) == self,
    {
        let a = self.after(m);
        let b = a.before(m, self.undo_of(m));
        match m {
            Move::DeckStack(c) => {
                self.deck.lemma_drawn(c);
                assert(b.stack =~= self.stack);
            },
            Move::DeckPile(c) => {
                self.deck.lemma_drawn(c);
                assert(in_mask(self.visible, c) <==> c.0 < N_CARDS && !self.deck.holds(c)
                    && !self.hidden.is_down(c) && !self.stacked(c));
                Self::lemma_mask_round(self.visible, c);
            },
            Move::PileStack(c) => {
                let s = SolitaireView {
                    visible: self.visible ^ mask_of(c),
                    stack: self.stack_with(c.spec_suit(), c.spec_rank() + 1),
                    ..self
                };
                assert(b.stack =~= self.stack);
                Self::lemma_mask_round(self.visible, c);
                if self.heading(c) {
                    assert(1u8 & 1 != 0) by (bit_vector);
                    assert(in_mask(self.top, c) <==> self.hidden.heads(c));
                    self.lemma_heading(c);
                    match self.turned(c) {
                        Some(x) => {
                            assert(in_mask(self.visible, x) <==> x.0 < N_CARDS && !self.deck.holds(
                                x,
                            ) && !self.hidden.is_down(x) && !self.stacked(x));
                            lemma_in_mask_ops(self.visible, mask_of(c), x);
                            lemma_in_mask_single(c, x);
                            assert(in_mask(self.top, x) ==> in_mask(self.visible, x));
                        },
                        None => {},
                    }
                    s.lemma_unrevealed(c);
                } else {
                    assert(0u8 & 1 == 0) by (bit_vector);
                }
            },
            Move::StackPile(c) => {
                assert(b.stack =~= self.stack);
                assert(self.stacked(c));
                assert(in_mask(self.visible, c) <==> c.0 < N_CARDS && !self.deck.holds(c)
                    && !self.hidden.is_down(c) && !self.stacked(c));
                Self::lemma_mask_round(self.visible, c);
            },
            Move::Reveal(c) => {
                assert(in_mask(self.top, c) <==> self.hidden.heads(c));
                self.lemma_heading(c);
                match self.turned(c) {
                    Some(x) => {
                        assert(in_mask(self.visible, x) <==> x.0 < N_CARDS && !self.deck.holds(x)
                            && !self.hidden.is_down(x) && !self.stacked(x));
                        assert(in_mask(self.top, x) ==> in_mask(self.visible, x));
                    },
                    None => {},
                }
                self.lemma_unrevealed(c);
            },
        }
    }
}

/// The three parts of a key can be read back from it.
proof fn lemma_unpack(a: u16, b: u16, c: u32)
    ensures
        (((a as u64) | (b as u64) << 16 | (c as u64) << 32) & 0xFFFF) as u16 == a,
        ((((a as u64) | (b as u64) << 16 | (c as u64) << 32) >> 16) & 0xFFFF) as u16 == b,
        (((a as u64) | (b as u64) << 16 | (c as u64) << 32) >> 32) as u32 == c,
{
    assert((((a as u64) | (b as u64) << 16 | (c as u64) << 32) & 0xFFFF) as u16 == a && ((((
    a as u64) | (b as u64) << 16 | (c as u64) << 32) >> 16) & 0xFFFF) as u16 == b && (((a as u64) | (
    b as u64) << 16 | (c as u64) << 32) >> 32) as u32 == c) by (bit_vector);
}

/// Four counts below 16 can be read back from the word that packs them.
proof fn lemma_nibbles(a: u8, b: u8, c: u8, d: u8)
    requires
        a < 16,
        b < 16,
        c < 16,
        d < 16,
    ensures
        ({
            let k = (a as u16) | (b as u16) << 4 | (c as u16) << 8 | (d as u16) << 12;
            (k & 0xF) as u8 == a && ((k >> 4) & 0xF) as u8 == b && ((k >> 8) & 0xF) as u8 == c && ((k
                >> 12) & 0xF) as u8 == d
        }),
{
    assert(a < 16 && b < 16 && c < 16 && d < 16 ==> ((((a as u16) | (b as u16) << 4 | (c as u16) << 8
        | (d as u16) << 12) & 0xF) as u8 == a && ((((a as u16) | (b as u16) << 4 | (c as u16) << 8 | (
    d as u16) << 12) >> 4) & 0xF) as u8 == b && ((((a as u16) | (b as u16) << 4 | (c as u16) << 8 | (
    d as u16) << 12) >> 8) & 0xF) as u8 == c && ((((a as u16) | (b as u16) << 4 | (c as u16) << 8 | (
    d as u16) << 12) >> 12) & 0xF) as u8 == d)) by (bit_vector);
}

/// The foundations, the key of the piles and the key of the deck can be read
/// back from the key of a state.
proof fn lemma_key_parts(s: SolitaireView)
    requires
        s.wf(),
    ensures
        ({
            let e = s.encoded();
            let k = (e & 0xFFFF) as u16;
            &&& ((e >> 16) & 0xFFFF) as u16 == s.hidden.encoded_from(0)
            &&& (e >> 32) as u32 == s.deck.encoded()
            &&& (k & 0xF) as u8 == s.stack[0]
            &&& ((k >> 4) & 0xF) as u8 == s.stack[1]
            &&& ((k >> 8) & 0xF) as u8 == s.stack[2]
            &&& ((k >> 12) & 0xF) as u8 == s.stack[3]
        }),
{
    s.hidden.lemma_key_roundtrip(0);
    lemma_hidden_key_bound(s.hidden);
    let h = s.hidden.encoded_from(0) as u16;
    assert(h as u64 == s.hidden.encoded_from(0) as u64);
    lemma_unpack(s.stack_key(), h, s.deck.encoded());
    assert(s.stack[0] <= 13 && s.stack[1] <= 13 && s.stack[2] <= 13 && s.stack[3] <= 13);
    lemma_nibbles(s.stack[0], s.stack[1], s.stack[2], s.stack[3]);
}

/// The key of the piles is below 40320.
proof fn lemma_hidden_key_bound(h: HiddenView)
    requires
        h.wf(),
    ensures
        0 <= h.encoded_from(0) < 40320,
{
    crate::hidden::lemma_radix();
    lemma_hidden_key_below(h, 0);
}

proof fn lemma_hidden_key_below(h: HiddenView, i: int)
    requires
        h.wf(),
        0 <= i <= N_PILES,
    ensures
        0 <= h.encoded_from(i) < crate::hidden::radix_from(i),
    decreases N_PILES - i,
{
    if i < N_PILES {
        lemma_hidden_key_below(h, i + 1);
        let d = i + 2;
        let e = h.encoded_from(i + 1);
        let r = crate::hidden::radix_from(i + 1);
        let n = h.counts[i] as int;
        assert(0 <= n + d * e < d * r) by (nonlinear_arith)
            requires
                0 <= n < d,
                0 <= e < r,
        ;
    }
}

/// Two well-formed states of one deal with the same key differ at most in
/// the cursor of the deck, and not when it is normalized.
proof fn lemma_key_unique(a: SolitaireView, b: SolitaireView)
    requires
        a.wf(),
        b.wf(),
        a.same_deal(b),
        a.encoded() == b.encoded(),
    ensures
        a.normalized() == b.normalized(),
{
    lemma_key_parts(a);
    lemma_key_parts(b);
    assert(a.stack =~= b.stack);
    assert forall|i: int| 0 <= i < N_PILES implies #[trigger] a.hidden.counts[i]
        == b.hidden.counts[i] by {
        a.hidden.lemma_key_roundtrip(i);
        b.hidden.lemma_key_roundtrip(i);
    }
    assert(a.hidden.counts =~= b.hidden.counts);
    assert(a.hidden == b.hidden);
    crate::deck::lemma_encode_parts(a.deck.consumed, a.deck.normalized_offset() as u32);
    crate::deck::lemma_encode_parts(b.deck.consumed, b.deck.normalized_offset() as u32);
    crate::deck::lemma_cards_determined(a.deck, b.deck);
    assert(a.deck.normalized() == b.deck.normalized());
    assert forall|c: Card| c.0 < 64 implies #[trigger] in_mask(a.visible, c) == in_mask(
        b.visible,
        c,
    ) by {
        assert(in_mask(b.visible, c) <==> c.0 < N_CARDS && !b.deck.holds(c) && !b.hidden.is_down(c)
            && !b.stacked(c));
        assert(a.deck.holds(c) <==> b.deck.holds(c));
    }
    lemma_mask_ext(a.visible, b.visible);
    assert forall|c: Card| c.0 < 64 implies #[trigger] in_mask(a.top, c) == in_mask(b.top, c) by {
        assert(in_mask(b.top, c) <==> b.hidden.heads(c));
    }
    lemma_mask_ext(a.top, b.top);
}

impl SolitaireView {
    /// Normalizing the cursor of the deck gives a well-formed state that plays
    /// like the state itself and has the same key.
    pub proof fn lemma_normalized(self)
        requires
            self.wf(),
        ensures
            self.normalized().wf(),
            self.normalized().equivalent(self),
            self.normalized().encoded() == self.encoded(),
            self.normalized().same_deal(self),
            forall|c: Card| #[trigger] self.normalized().deck.holds(c) <==> self.deck.holds(c),
    {
        let n = self.normalized();
        self.deck.lemma_normalized_equivalent();
        crate::deck::lemma_at_wf(self.deck, self.deck.normalized_offset());
        assert forall|c: Card| #[trigger] n.deck.holds(c) implies !n.stacked(c) by {
            assert(self.deck.holds(c));
        }
        assert forall|c: Card|
            c.0 < 64 implies (#[trigger] in_mask(n.visible, c) <==> c.0 < N_CARDS && !n.deck.holds(c)
            && !n.hidden.is_down(c) && !n.stacked(c)) by {
            assert(in_mask(self.visible, c) <==> c.0 < N_CARDS && !self.deck.holds(c)
                && !self.hidden.is_down(c) && !self.stacked(c));
            assert(n.deck.holds(c) <==> self.deck.holds(c));
        }
        assert forall|c: Card|
            #![trigger n.deck.slot_of(c)]
            #![trigger n.hidden.dealt(c)]
            c.0 < N_CARDS implies (n.deck.slot_of(c) < N_FULL_DECK <==> !n.hidden.dealt(c)) by {
            assert(self.deck.slot_of(c) < N_FULL_DECK <==> !self.hidden.dealt(c));
        }
        assert forall|i: int| 0 <= i < self.deck.len() implies ((#[trigger] n.deck.drawable(i))
            == crate::deck::Drawable::Blocked <==> self.deck.drawable(i)
            == crate::deck::Drawable::Blocked) by {
            assert(self.deck.drawable(i) == crate::deck::Drawable::Blocked <==> n.deck.drawable(i)
                == crate::deck::Drawable::Blocked);
        }
    }

    /// A state that is set from the key of a state of its deal plays like
    /// that state.
    pub proof fn lemma_encode_roundtrip(self, fresh: SolitaireView, decoded: SolitaireView)
        requires
            self.wf(),
            fresh.wf(),
            self.same_deal(fresh),
            decoded == self.normalized(),
        ensures
            self.encodes(fresh, self.encoded()),
            decoded.wf(),
            decoded.equivalent(self),
            decoded.encoded() == self.encoded(),
    {
        self.lemma_normalized();
    }
}

} // verus!
