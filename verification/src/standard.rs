//! The game as it lies on the table: seven columns of cards, the deck, and
//! the foundations, played one card or one run at a time.

use crate::card::{Card, KING_RANK, N_CARDS, N_RANKS, N_SUITS};
use crate::deck::{valid_deal, Deck, DeckView, N_FULL_DECK, N_HIDDEN_CARDS, N_PILES};
use crate::engine::InvalidConstruction;
use crate::hidden::pile_start;
use vstd::prelude::*;

verus! {

/// A place that a card comes from or goes to.
#[derive(Debug, Clone, Copy, PartialEq, Eq, Structural)]
pub enum Pos {
    Deck,
    /// The foundation of a suit.
    Stack(u8),
    /// A column of the tableau.
    Pile(u8),
}

/// One step on the table: `card`, with the cards that lie on it, goes from
/// `from` to `to`. From the deck to the deck it is a deal.
#[derive(Debug, Clone, Copy, PartialEq, Eq, Structural)]
pub struct StandardMove {
    pub from: Pos,
    pub to: Pos,
    pub card: Card,
}

/// The step cannot be made in the position.
#[derive(Debug, Clone, Copy, PartialEq, Eq, Structural)]
pub struct InvalidMove {}

pub type MoveResult<T> = Result<T, InvalidMove>;

pub type StandardHistoryVec = Vec<StandardMove>;

pub type PileVec = Vec<Card>;

pub type HiddenVec = Vec<Card>;

impl StandardMove {
    /// Turning the next cards of the stock.
    pub open spec fn spec_draw_next() -> StandardMove {
        StandardMove { from: Pos::Deck, to: Pos::Deck, card: Card::spec_fake() }
    }

    #[verifier::when_used_as_spec(spec_draw_next)]
    pub fn draw_next() -> (m: StandardMove)
        ensures
            m == StandardMove::spec_draw_next(),
    {
        StandardMove { from: Pos::Deck, to: Pos::Deck, card: Card::fake() }
    }

    pub open spec fn spec_new(from: Pos, to: Pos, card: Card) -> StandardMove {
        StandardMove { from, to, card }
    }

    #[verifier::when_used_as_spec(spec_new)]
    pub fn new(from: Pos, to: Pos, card: Card) -> (m: StandardMove)
        ensures
            m == StandardMove::spec_new(from, to, card),
    {
        StandardMove { from, to, card }
    }
}

/// A game in play with its columns spelled out card by card.
#[derive(Debug, Clone)]
pub struct StandardSolitaire {
    hidden_piles: Vec<Vec<Card>>,
    final_stack: [u8; 4],
    deck: Deck,
    piles: Vec<Vec<Card>>,
}

/// What [`StandardSolitaire`] is to the contracts.
pub struct StandardView {
    /// The face-down cards of each column, deepest first.
    pub hidden: Seq<Seq<Card>>,
    /// The face-up cards of each column, the card that others lie on first.
    pub piles: Seq<Seq<Card>>,
    /// For each suit, the rank of the next card for its foundation.
    pub stack: Seq<u8>,
    pub deck: DeckView,
}

impl StandardView {
    pub open spec fn wf(self) -> bool {
        &&& self.hidden.len() == N_PILES
        &&& self.piles.len() == N_PILES
        &&& self.stack.len() == N_SUITS
        &&& self.deck.wf()
        &&& forall|s: int| 0 <= s < N_SUITS ==> (#[trigger] self.stack[s]) <= N_RANKS
        &&& forall|p: int, j: int|
            0 <= p < N_PILES && 0 <= j < self.piles[p].len() ==> (#[trigger] self.piles[p][j]).0
                < N_CARDS
        &&& forall|p: int, j: int|
            0 <= p < N_PILES && 0 <= j < self.hidden[p].len() ==> (#[trigger] self.hidden[p][j]).0
                < N_CARDS
        &&& forall|p: int|
            0 <= p < N_PILES && (#[trigger] self.piles[p]).len() == 0 ==> self.hidden[p].len() == 0
    }

    /// `c` can be laid on column `p`: on a card of the next rank and the other
    /// colour, or as a king on an empty column.
    pub open spec fn accepts(self, p: int, c: Card) -> bool {
        if self.piles[p].len() > 0 {
            self.piles[p].last().spec_go_before(&c)
        } else {
            c.spec_rank() == KING_RANK
        }
    }

    /// `c` is the next card for the foundation of its suit.
    pub open spec fn fits_stack(self, c: Card) -> bool {
        c.0 < N_CARDS && self.stack[c.spec_suit() as int] == c.spec_rank()
    }

    /// The top card of the waste is `c`.
    pub open spec fn waste_top(self, c: Card) -> bool {
        self.deck.cursor > 0 && self.deck.cards[self.deck.cursor - 1] == c
    }

    /// After `n` deals the top card of the waste is `c`.
    pub open spec fn top_after(self, n: int, c: Card) -> bool {
        self.deck.offset_after(n) > 0 && self.deck.cards[self.deck.offset_after(n) - 1] == c
    }

    /// The deck after its top waste card has gone.
    pub open spec fn drawn_deck(self) -> DeckView {
        self.deck.at(self.deck.cursor - 1).popped()
    }

    /// Column `p` without its cards from index `j` on; if none is left, the
    /// last face-down card is turned up.
    pub open spec fn taken(self, p: int, j: int) -> StandardView {
        let rest = self.piles[p].subrange(0, j);
        if j == 0 && self.hidden[p].len() > 0 {
            StandardView {
                piles: self.piles.update(p, seq![self.hidden[p].last()]),
                hidden: self.hidden.update(p, self.hidden[p].drop_last()),
                ..self
            }
        } else {
            StandardView { piles: self.piles.update(p, rest), ..self }
        }
    }

    /// Column `p` with the cards `run` laid on it.
    pub open spec fn laid(self, p: int, run: Seq<Card>) -> StandardView {
        StandardView { piles: self.piles.update(p, self.piles[p] + run), ..self }
    }

    /// The foundation of suit `s` set to `n`.
    pub open spec fn stacked(self, s: int, n: int) -> StandardView {
        StandardView { stack: self.stack.update(s, n as u8), ..self }
    }

    /// Where `c` lies in column `p`, if it lies there face up.
    pub open spec fn index_in(self, p: int, c: Card) -> int {
        first_index(self.piles[p], c)
    }

    /// Some column accepts `c`.
    #[verifier::opaque]
    pub open spec fn has_free_pile(self, c: Card) -> bool {
        exists|p: int| 0 <= p < N_PILES && #[trigger] self.accepts(p, c)
    }

    /// The first column that accepts `c`.
    #[verifier::opaque]
    pub open spec fn free_pile(self, c: Card) -> int {
        choose|p: int|
            0 <= p < N_PILES && #[trigger] self.accepts(p, c) && forall|q: int|
                0 <= q < p ==> !self.accepts(q, c)
    }

    /// The face-up cards of column `p` begin with `c`.
    pub open spec fn tops(self, p: int, c: Card) -> bool {
        self.piles[p].len() > 0 && self.piles[p][0] == c
    }

    #[verifier::opaque]
    pub open spec fn has_top_pile(self, c: Card) -> bool {
        exists|p: int| 0 <= p < N_PILES && #[trigger] self.tops(p, c)
    }

    /// The first column whose face-up cards begin with `c`.
    #[verifier::opaque]
    pub open spec fn top_pile(self, c: Card) -> int {
        choose|p: int|
            0 <= p < N_PILES && #[trigger] self.tops(p, c) && forall|q: int|
                0 <= q < p ==> !self.tops(q, c)
    }

    /// `c` lies face up in column `p`.
    pub open spec fn holds(self, p: int, c: Card) -> bool {
        self.piles[p].contains(c)
    }

    #[verifier::opaque]
    pub open spec fn has_holder(self, c: Card) -> bool {
        exists|p: int| 0 <= p < N_PILES && #[trigger] self.holds(p, c)
    }

    /// The first column in which `c` lies face up.
    #[verifier::opaque]
    pub open spec fn holder(self, c: Card) -> int {
        choose|p: int|
            0 <= p < N_PILES && #[trigger] self.holds(p, c) && forall|q: int|
                0 <= q < p ==> !self.holds(q, c)
    }

    /// Some number of deals, at most 24, brings `c` on top of the waste.
    #[verifier::opaque]
    pub open spec fn in_reach(self, c: Card) -> bool {
        exists|n: int| 0 <= n <= N_FULL_DECK && #[trigger] self.top_after(n, c)
    }

    /// The least number of deals that brings `c` on top of the waste.
    #[verifier::opaque]
    pub open spec fn deals_to(self, c: Card) -> int {
        choose|n: int|
            0 <= n <= N_FULL_DECK && #[trigger] self.top_after(n, c) && forall|i: int|
                0 <= i < n ==> !self.top_after(i, c)
    }

    /// Whether the step can be made.
    pub open spec fn valid(self, m: StandardMove) -> bool {
        match (m.from, m.to) {
            (Pos::Deck, Pos::Deck) => true,
            (Pos::Deck, Pos::Stack(s)) => self.waste_top(m.card) && self.fits_stack(m.card)
                && m.card.spec_suit() == s,
            (Pos::Deck, Pos::Pile(p)) => p < N_PILES && self.waste_top(m.card) && self.accepts(
                p as int,
                m.card,
            ),
            (Pos::Stack(s), Pos::Pile(p)) => p < N_PILES && m.card.0 < N_CARDS
                && m.card.spec_suit() == s && self.stack[s as int] == m.card.spec_rank() + 1
                && self.accepts(p as int, m.card),
            (Pos::Pile(p), Pos::Stack(s)) => p < N_PILES && self.piles[p as int].len() > 0
                && self.piles[p as int].last() == m.card && self.fits_stack(m.card)
                && m.card.spec_suit() == s,
            (Pos::Pile(p), Pos::Pile(q)) => p < N_PILES && q < N_PILES && p != q
                && self.piles[p as int].contains(m.card) && self.accepts(q as int, m.card),
            _ => false,
        }
    }

    /// The position after the step.
    pub open spec fn moved(self, m: StandardMove) -> StandardView {
        match (m.from, m.to) {
            (Pos::Deck, Pos::Deck) => StandardView {
                deck: self.deck.at(self.deck.next_offset()),
                ..self
            },
            (Pos::Deck, Pos::Stack(s)) => (StandardView { deck: self.drawn_deck(), ..self }).stacked(
                s as int,
                m.card.spec_rank() + 1,
            ),
            (Pos::Deck, Pos::Pile(p)) => (StandardView { deck: self.drawn_deck(), ..self }).laid(
                p as int,
                seq![m.card],
            ),
            (Pos::Stack(s), Pos::Pile(p)) => self.stacked(s as int, m.card.spec_rank() as int).laid(
                p as int,
                seq![m.card],
            ),
            (Pos::Pile(p), Pos::Stack(s)) => self.taken(
                p as int,
                self.piles[p as int].len() - 1,
            ).stacked(s as int, m.card.spec_rank() + 1),
            (Pos::Pile(p), Pos::Pile(q)) => {
                let j = self.index_in(p as int, m.card);
                let run = self.piles[p as int].subrange(j, self.piles[p as int].len() as int);
                self.taken(p as int, j).laid(q as int, run)
            },
            _ => self,
        }
    }

    pub open spec fn is_win(self) -> bool {
        self.stack[0] == N_RANKS && self.stack[1] == N_RANKS && self.stack[2] == N_RANKS
            && self.stack[3] == N_RANKS
    }

    /// The state right after the deal `cards` with draw step `step`.
    pub open spec fn is_initial(self, cards: Seq<Card>, step: int) -> bool {
        &&& self.deck.cards == cards.subrange(N_HIDDEN_CARDS as int, N_CARDS as int)
        &&& self.deck.cursor == step
        &&& self.deck.step == step
        &&& self.deck.consumed == 0
        &&& forall|p: int|
            0 <= p < N_PILES ==> #[trigger] self.hidden[p] == cards.subrange(
                pile_start(p),
                pile_start(p) + p,
            )
        &&& forall|p: int|
            0 <= p < N_PILES ==> #[trigger] self.piles[p] == seq![cards[pile_start(p) + p]]
        &&& forall|s: int| 0 <= s < N_SUITS ==> self.stack[s] == 0
    }
}

/// The first index at which `c` stands in `s`.
#[verifier::opaque]
pub open spec fn first_index(s: Seq<Card>, c: Card) -> int {
    choose|i: int| 0 <= i < s.len() && s[i] == c && forall|j: int| 0 <= j < i ==> s[j] != c
}

/// The cards can be dealt: all are real, and the 24 of the deck are distinct.
pub open spec fn can_deal(cards: Seq<Card>) -> bool {
    &&& cards.len() == N_CARDS
    &&& forall|i: int| 0 <= i < cards.len() ==> (#[trigger] cards[i]).0 < N_CARDS
    &&& valid_deal(cards.subrange(N_HIDDEN_CARDS as int, N_CARDS as int))
}

impl View for StandardSolitaire {
    type V = StandardView;

    closed spec fn view(&self) -> StandardView {
        StandardView {
            hidden: Seq::new(self.hidden_piles@.len(), |i: int| self.hidden_piles@[i]@),
            piles: Seq::new(self.piles@.len(), |i: int| self.piles@[i]@),
            stack: self.final_stack@,
            deck: self.deck@,
        }
    }
}

impl StandardSolitaire {
    pub closed spec fn wf(&self) -> bool {
        &&& self.deck.wf()
        &&& self@.wf()
    }

    pub proof fn lemma_wf(&self)
        requires
            self.wf(),
        ensures
            self@.wf(),
    {
    }

    /// Deals: column `p` takes `p` cards face down and one face up, and the
    /// other 24 cards are the deck.
    pub fn new(cards: &[Card; 52], draw_step: u8) -> (r: Result<
        StandardSolitaire,
        InvalidConstruction,
    >)
        ensures
            r.is_ok() <==> can_deal(cards@) && 1 <= draw_step <= N_FULL_DECK,
            match r {
                Ok(g) => g.wf() && g@.is_initial(cards@, draw_step as int),
                Err(_) => true,
            },
    {
        if draw_step == 0 || draw_step > N_FULL_DECK as u8 {
            return Err(InvalidConstruction {  });
        }
        let mut i: usize = 0;
        while i < 52
            invariant
                i <= 52,
                forall|j: int| 0 <= j < i ==> (#[trigger] cards@[j]).0 < N_CARDS,
            decreases 52 - i,
        {
            if cards[i].value() >= N_CARDS {
                return Err(InvalidConstruction {  });
            }
            i += 1;
        }
        let ghost dc = cards@.subrange(28, 52);
        let mut dk = [Card::fake();N_FULL_DECK];
        let mut seen = [false;52];
        let mut k: usize = 0;
        while k < 24
            invariant
                k <= 24,
                dc == cards@.subrange(28, 52),
                forall|j: int| 0 <= j < 52 ==> (#[trigger] cards@[j]).0 < N_CARDS,
                forall|l: int| 0 <= l < k ==> #[trigger] dk@[l] == cards@[l + 28],
                forall|j: int, l: int| 0 <= j < l < k ==> (#[trigger] dc[j]).0 != (#[trigger] dc[l]).0,
                forall|v: int|
                    0 <= v < 52 ==> (#[trigger] seen@[v] <==> exists|j: int|
                        0 <= j < k && (#[trigger] dc[j]).0 == v),
            decreases 24 - k,
        {
            let c = cards[k + 28];
            assert(dc[k as int] == c);
            if seen[c.value() as usize] {
                proof {
                    let j = choose|j: int| 0 <= j < k && (#[trigger] dc[j]).0 == c.0;
                    assert(dc[j].0 == dc[k as int].0);
                }
                return Err(InvalidConstruction {  });
            }
            let ghost before = seen@;
            seen[c.value() as usize] = true;
            dk[k] = c;
            proof {
                assert forall|w: int| 0 <= w < 52 implies (#[trigger] seen@[w] <==> exists|j: int|
                    0 <= j < k + 1 && (#[trigger] dc[j]).0 == w) by {
                    if w == c.0 {
                        assert(dc[k as int].0 == w);
                    } else {
                        if before[w] {
                            let j = choose|j: int| 0 <= j < k && (#[trigger] dc[j]).0 == w;
                            assert(0 <= j < k + 1 && dc[j].0 == w);
                        }
                        if exists|j: int| 0 <= j < k + 1 && (#[trigger] dc[j]).0 == w {
                            let j = choose|j: int| 0 <= j < k + 1 && (#[trigger] dc[j]).0 == w;
                            assert(j < k);
                        }
                    }
                }
            }
            k += 1;
        }
        proof {
            assert(dk@ =~= dc);
            assert forall|j: int| 0 <= j < dc.len() implies (#[trigger] dc[j]).0 < N_CARDS by {
                assert(dc[j] == cards@[j + 28]);
            }
            assert(valid_deal(dc));
        }
        let deck = Deck::new(&dk, draw_step);
        let mut hidden_piles: Vec<Vec<Card>> = Vec::new();
        let mut piles: Vec<Vec<Card>> = Vec::new();
        let mut p: usize = 0;
        let mut start: usize = 0;
        while p < 7
            invariant
                p <= 7,
                start == pile_start(p as int),
                hidden_piles@.len() == p,
                piles@.len() == p,
                forall|j: int| 0 <= j < 52 ==> (#[trigger] cards@[j]).0 < N_CARDS,
                forall|q: int|
                    0 <= q < p ==> (#[trigger] hidden_piles@[q])@ == cards@.subrange(
                        pile_start(q),
                        pile_start(q) + q,
                    ),
                forall|q: int|
                    0 <= q < p ==> (#[trigger] piles@[q])@ == seq![cards@[pile_start(q) + q]],
            decreases 7 - p,
        {
            let mut down: Vec<Card> = Vec::new();
            let mut j: usize = 0;
            while j < p
                invariant
                    j <= p,
                    p < 7,
                    start == pile_start(p as int),
                    down@ == cards@.subrange(start as int, start + j),
                decreases p - j,
            {
                down.push(cards[start + j]);
                proof {
                    assert(down@ =~= cards@.subrange(start as int, start + j + 1));
                }
                j += 1;
            }
            let mut up: Vec<Card> = Vec::new();
            up.push(cards[start + p]);
            proof {
                assert(up@ =~= seq![cards@[start + p]]);
            }
            hidden_piles.push(down);
            piles.push(up);
            start = start + p + 1;
            p += 1;
        }
        let g = StandardSolitaire { hidden_piles, final_stack: [0, 0, 0, 0], deck, piles };
        proof {
            deck.lemma_wf();
            let v = g@;
            assert forall|q: int, j: int|
                0 <= q < N_PILES && 0 <= j < v.piles[q].len() implies (#[trigger] v.piles[q][j]).0
                < N_CARDS by {
                assert(g.piles@[q]@ == seq![cards@[pile_start(q) + q]]);
            }
            assert forall|q: int, j: int|
                0 <= q < N_PILES && 0 <= j < v.hidden[q].len() implies (#[trigger] v.hidden[q][j]).0
                < N_CARDS by {
                assert(g.hidden_piles@[q]@ == cards@.subrange(pile_start(q), pile_start(q) + q));
            }
            assert forall|q: int|
                0 <= q < N_PILES && (#[trigger] v.piles[q]).len() == 0 implies v.hidden[q].len()
                == 0 by {
                assert(g.piles@[q]@ == seq![cards@[pile_start(q) + q]]);
            }
            assert forall|q: int| 0 <= q < N_PILES implies #[trigger] v.hidden[q] == cards@.subrange(
                pile_start(q),
                pile_start(q) + q,
            ) by {
                assert(g.hidden_piles@[q]@ == cards@.subrange(pile_start(q), pile_start(q) + q));
            }
            assert forall|q: int| 0 <= q < N_PILES implies #[trigger] v.piles[q]
                == seq![cards@[pile_start(q) + q]] by {
                assert(g.piles@[q]@ == seq![cards@[pile_start(q) + q]]);
            }
        }
        Ok(g)
    }

    /// The table with the given face-down cards, face-up cards, foundations
    /// and deck.
    #[must_use]
    pub(crate) fn from_parts(hidden: Vec<Vec<Card>>, piles: Vec<Vec<Card>>, stack: [u8; 4], deck: Deck) -> (r:
        StandardSolitaire)
        requires
            deck.wf(),
            hidden@.len() == N_PILES,
            piles@.len() == N_PILES,
            forall|s: int| 0 <= s < N_SUITS ==> (#[trigger] stack@[s]) <= N_RANKS,
            forall|p: int, j: int|
                0 <= p < N_PILES && 0 <= j < piles@[p]@.len() ==> (#[trigger] piles@[p]@[j]).0 < N_CARDS,
            forall|p: int, j: int|
                0 <= p < N_PILES && 0 <= j < hidden@[p]@.len() ==> (#[trigger] hidden@[p]@[j]).0
                    < N_CARDS,
            forall|p: int|
                0 <= p < N_PILES && (#[trigger] piles@[p])@.len() == 0 ==> hidden@[p]@.len() == 0,
        ensures
            r.wf(),
            r@.deck == deck@,
            r@.stack == stack@,
            r@.hidden.len() == N_PILES,
            r@.piles.len() == N_PILES,
            forall|p: int| 0 <= p < N_PILES ==> #[trigger] r@.hidden[p] == hidden@[p]@,
            forall|p: int| 0 <= p < N_PILES ==> #[trigger] r@.piles[p] == piles@[p]@,
    {
        proof {
            deck.lemma_wf();
        }
        StandardSolitaire { hidden_piles: hidden, final_stack: stack, deck, piles }
    }

    #[must_use]
    pub fn get_deck(&self) -> (d: &Deck)
        ensures
            d@ == self@.deck,
            self.wf() ==> d.wf(),
    {
        &self.deck
    }

    /// For each suit, the rank of the next card for its foundation.
    #[must_use]
    pub fn get_stack(&self) -> (s: &[u8; 4])
        ensures
            s@ == self@.stack,
    {
        &self.final_stack
    }

    /// The face-up cards of column `p`.
    #[must_use]
    pub fn get_pile(&self, p: u8) -> (v: &Vec<Card>)
        requires
            self.wf(),
            p < N_PILES,
        ensures
            v@ == self@.piles[p as int],
    {
        &self.piles[p as usize]
    }

    /// The face-down cards of column `p`.
    #[must_use]
    pub fn get_hidden_pile(&self, p: u8) -> (v: &Vec<Card>)
        requires
            self.wf(),
            p < N_PILES,
        ensures
            v@ == self@.hidden[p as int],
    {
        &self.hidden_piles[p as usize]
    }

    /// The face-up cards of the seven columns.
    #[must_use]
    pub fn get_piles(&self) -> (v: &Vec<Vec<Card>>)
        ensures
            v@.len() == self@.piles.len(),
            forall|p: int| 0 <= p < v@.len() ==> (#[trigger] v@[p])@ == self@.piles[p],
    {
        &self.piles
    }

    /// The face-down cards of the seven columns.
    #[must_use]
    pub fn get_hidden(&self) -> (v: &Vec<Vec<Card>>)
        ensures
            v@.len() == self@.hidden.len(),
            forall|p: int| 0 <= p < v@.len() ==> (#[trigger] v@[p])@ == self@.hidden[p],
    {
        &self.hidden_piles
    }

    #[must_use]
    pub fn is_win(&self) -> (b: bool)
        ensures
            b == self@.is_win(),
    {
        self.final_stack[0] == N_RANKS && self.final_stack[1] == N_RANKS && self.final_stack[2]
            == N_RANKS && self.final_stack[3] == N_RANKS
    }

    /// Whether `c` can be laid on column `p`.
    #[must_use]
    pub fn pile_accepts(&self, p: u8, c: &Card) -> (b: bool)
        requires
            self.wf(),
            p < N_PILES,
        ensures
            b == self@.accepts(p as int, *c),
    {
        let pile = &self.piles[p as usize];
        if pile.len() > 0 {
            pile[pile.len() - 1].go_before(c)
        } else {
            c.rank() == KING_RANK
        }
    }

    /// The first column that `card` can be laid on.
    #[must_use]
    pub fn find_free_pile(&self, card: Card) -> (r: Option<u8>)
        requires
            self.wf(),
        ensures
            match r {
                Some(p) => p < N_PILES && self@.accepts(p as int, card) && forall|q: int|
                    0 <= q < p ==> !self@.accepts(q, card),
                None => forall|q: int| 0 <= q < N_PILES ==> !self@.accepts(q, card),
            },
            r.is_some() == self@.has_free_pile(card),
            r.is_some() ==> r.unwrap() == self@.free_pile(card),
    {
        let mut p: u8 = 0;
        while p < N_PILES
            invariant
                p <= N_PILES,
                self.wf(),
                forall|q: int| 0 <= q < p ==> !self@.accepts(q, card),
            decreases N_PILES - p,
        {
            if self.pile_accepts(p, &card) {
                proof {
                    reveal(StandardView::has_free_pile);
                    reveal(StandardView::free_pile);
                    let f = self@.free_pile(card);
                    assert(self@.accepts(p as int, card));
                    if f < p {
                        assert(!self@.accepts(f, card));
                    }
                    if p < f {
                        assert(!self@.accepts(p as int, card));
                    }
                }
                return Some(p);
            }
            p += 1;
        }
        proof {
            reveal(StandardView::has_free_pile);
            reveal(StandardView::free_pile);
        }
        None
    }

    /// The first column whose face-up cards begin with `card`.
    #[must_use]
    pub fn find_top_card(&self, card: Card) -> (r: Option<u8>)
        requires
            self.wf(),
        ensures
            match r {
                Some(p) => p < N_PILES && self@.piles[p as int].len() > 0 && self@.piles[p as int][0]
                    == card && forall|q: int|
                    0 <= q < p ==> !(self@.piles[q].len() > 0 && self@.piles[q][0] == card),
                None => forall|q: int|
                    0 <= q < N_PILES ==> !(self@.piles[q].len() > 0 && self@.piles[q][0] == card),
            },
            r.is_some() == self@.has_top_pile(card),
            r.is_some() ==> r.unwrap() == self@.top_pile(card),
    {
        let mut p: u8 = 0;
        while p < N_PILES
            invariant
                p <= N_PILES,
                self.wf(),
                forall|q: int|
                    0 <= q < p ==> !(self@.piles[q].len() > 0 && self@.piles[q][0] == card),
            decreases N_PILES - p,
        {
            let pile = &self.piles[p as usize];
            if pile.len() > 0 && pile[0].value() == card.value() {
                proof {
                    reveal(StandardView::has_top_pile);
                    reveal(StandardView::top_pile);
                    let f = self@.top_pile(card);
                    assert(self@.tops(p as int, card));
                    if f < p {
                        assert(!self@.tops(f, card));
                    }
                    if p < f {
                        assert(!self@.tops(p as int, card));
                    }
                }
                return Some(p);
            }
            p += 1;
        }
        proof {
            assert forall|q: int| 0 <= q < N_PILES implies !#[trigger] self@.tops(q, card) by {}
        }
        proof {
            reveal(StandardView::has_top_pile);
            reveal(StandardView::top_pile);
        }
        None
    }

    /// Where `card` first lies in column `p`.
    fn find_in_pile(&self, p: u8, card: Card) -> (r: Option<usize>)
        requires
            self.wf(),
            p < N_PILES,
        ensures
            match r {
                Some(j) => self@.piles[p as int].contains(card) && j == self@.index_in(
                    p as int,
                    card,
                ) && j < self@.piles[p as int].len() && self@.piles[p as int][j as int] == card,
                None => !self@.piles[p as int].contains(card),
            },
    {
        let pile = &self.piles[p as usize];
        let mut j: usize = 0;
        while j < pile.len()
            invariant
                j <= pile.len(),
                p < N_PILES,
                self@.piles.len() == N_PILES,
                pile@ == self@.piles[p as int],
                forall|l: int| 0 <= l < j ==> pile@[l] != card,
            decreases pile.len() - j,
        {
            if pile[j].value() == card.value() {
                proof {
                    reveal(first_index);
                    assert(pile@[j as int] == card);
                    assert(pile@.contains(card));
                    let f = first_index(pile@, card);
                    if f < j {
                        assert(pile@[f] != card);
                    }
                }
                return Some(j);
            }
            j += 1;
        }
        proof {
            reveal(first_index);
        }
        None
    }

    /// The first column in which `card` lies face up, and the cards of that
    /// column from `card` on.
    #[must_use]
    pub fn find_card(&self, card: Card) -> (r: Option<(u8, &[Card])>)
        requires
            self.wf(),
        ensures
            match r {
                Some((p, run)) => p < N_PILES && self@.piles[p as int].contains(card) && run@
                    == self@.piles[p as int].subrange(
                    self@.index_in(p as int, card),
                    self@.piles[p as int].len() as int,
                ) && run@.len() > 0 && run@[0] == card && 0 <= self@.index_in(p as int, card)
                    < self@.piles[p as int].len() && forall|q: int|
                    0 <= q < p ==> !self@.piles[q].contains(card),
                None => forall|q: int| 0 <= q < N_PILES ==> !self@.piles[q].contains(card),
            },
            r.is_some() == self@.has_holder(card),
            r.is_some() ==> r.unwrap().0 == self@.holder(card),
    {
        let mut p: u8 = 0;
        while p < N_PILES
            invariant
                p <= N_PILES,
                self.wf(),
                forall|q: int| 0 <= q < p ==> !self@.piles[q].contains(card),
            decreases N_PILES - p,
        {
            match self.find_in_pile(p, card) {
                Some(j) => {
                    let pile = &self.piles[p as usize];
                    let run = vstd::slice::slice_subrange(pile.as_slice(), j, pile.len());
                    proof {
                        reveal(StandardView::has_holder);
                        reveal(StandardView::holder);
                        let f = self@.holder(card);
                        assert(self@.holds(p as int, card));
                        if f < p {
                            assert(!self@.holds(f, card));
                        }
                        if p < f {
                            assert(!self@.holds(p as int, card));
                        }
                    }
                    return Some((p, run));
                },
                None => {},
            }
            p += 1;
        }
        proof {
            reveal(StandardView::has_holder);
            reveal(StandardView::holder);
        }
        None
    }

    /// The least number of deals after which `card` lies on top of the waste.
    #[must_use]
    pub fn find_deck_card(&self, card: Card) -> (r: Option<u8>)
        requires
            self.wf(),
        ensures
            match r {
                Some(n) => n <= N_FULL_DECK && self@.top_after(n as int, card) && forall|i: int|
                    0 <= i < n ==> !#[trigger] self@.top_after(i, card),
                None => forall|i: int| 0 <= i <= N_FULL_DECK ==> !#[trigger] self@.top_after(i, card),
            },
            r.is_some() == self@.in_reach(card),
            r.is_some() ==> r.unwrap() == self@.deals_to(card),
    {
        let mut n: u8 = 0;
        while n <= N_FULL_DECK as u8
            invariant
                n <= N_FULL_DECK + 1,
                self.wf(),
                forall|i: int| 0 <= i < n ==> !#[trigger] self@.top_after(i, card),
            decreases N_FULL_DECK + 1 - n,
        {
            let offset = self.deck.offset(n);
            if offset > 0 && self.deck.peek(offset - 1).value() == card.value() {
                proof {
                    reveal(StandardView::in_reach);
                    reveal(StandardView::deals_to);
                    let f = self@.deals_to(card);
                    assert(self@.top_after(n as int, card));
                    if f < n {
                        assert(!self@.top_after(f, card));
                    }
                    if n < f {
                        assert(!self@.top_after(n as int, card));
                    }
                }
                return Some(n);
            }
            n += 1;
        }
        proof {
            reveal(StandardView::in_reach);
            reveal(StandardView::deals_to);
        }
        None
    }

    /// Turns up the last face-down card of column `p` if the column has no
    /// face-up card left.
    fn turn_up(&mut self, p: u8)
        requires
            p < N_PILES,
            old(self).deck.wf(),
            old(self)@.hidden.len() == N_PILES,
            old(self)@.piles.len() == N_PILES,
        ensures
            final(self).deck == old(self).deck,
            final(self)@.stack == old(self)@.stack,
            final(self)@.deck == old(self)@.deck,
            final(self)@.hidden.len() == N_PILES,
            final(self)@.piles.len() == N_PILES,
            old(self)@.piles[p as int].len() == 0 && old(self)@.hidden[p as int].len() > 0
                ==> final(self)@.piles == old(self)@.piles.update(
                p as int,
                seq![old(self)@.hidden[p as int].last()],
            ) && final(self)@.hidden == old(self)@.hidden.update(
                p as int,
                old(self)@.hidden[p as int].drop_last(),
            ),
            !(old(self)@.piles[p as int].len() == 0 && old(self)@.hidden[p as int].len() > 0)
                ==> final(self)@.piles == old(self)@.piles && final(self)@.hidden == old(self)@.hidden,
    {
        if self.piles[p as usize].len() == 0 {
            match self.hidden_piles[p as usize].pop() {
                Some(c) => {
                    self.piles[p as usize].push(c);
                    proof {
                        assert(self@.piles =~~= old(self)@.piles.update(
                            p as int,
                            seq![old(self)@.hidden[p as int].last()],
                        ));
                        assert(self@.hidden =~~= old(self)@.hidden.update(
                            p as int,
                            old(self)@.hidden[p as int].drop_last(),
                        ));
                    }
                },
                None => {
                    proof {
                        assert(self@.piles =~~= old(self)@.piles);
                        assert(self@.hidden =~~= old(self)@.hidden);
                    }
                },
            }
        }
    }

    fn deck_to_stack(&mut self, s: u8, card: Card) -> (r: MoveResult<()>)
        requires
            old(self).wf(),
        ensures
            final(self).wf(),
            r.is_ok() <==> old(self)@.valid(StandardMove::spec_new(Pos::Deck, Pos::Stack(s), card)),
            r.is_ok() ==> final(self)@ == old(self)@.moved(
                StandardMove::spec_new(Pos::Deck, Pos::Stack(s), card),
            ),
            r.is_err() ==> final(self)@ == old(self)@,
    {
        let ghost m = &(StandardMove::spec_new(Pos::Deck, Pos::Stack(s), card));
        proof {
            self.deck.lemma_wf();
        }
        let top = match self.deck.peek_current() {
            Some(c) => *c,
            None => {
                return Err(InvalidMove {  });
            },
        };
        if top.value() != card.value() || card.suit() != s
            || self.final_stack[s as usize] != card.rank() {
            return Err(InvalidMove {  });
        }
        let _ = self.deck.draw_current();
        self.final_stack[s as usize] += 1;
        proof {
            self.deck.lemma_wf();
            assert(self@.stack =~= old(self)@.moved(*m).stack);
        }
        Ok(())
    }

    fn deck_to_pile(&mut self, p: u8, card: Card) -> (r: MoveResult<()>)
        requires
            old(self).wf(),
        ensures
            final(self).wf(),
            r.is_ok() <==> old(self)@.valid(StandardMove::spec_new(Pos::Deck, Pos::Pile(p), card)),
            r.is_ok() ==> final(self)@ == old(self)@.moved(
                StandardMove::spec_new(Pos::Deck, Pos::Pile(p), card),
            ),
            r.is_err() ==> final(self)@ == old(self)@,
    {
        let ghost m = &(StandardMove::spec_new(Pos::Deck, Pos::Pile(p), card));
        proof {
            self.deck.lemma_wf();
        }
        if p >= N_PILES {
            return Err(InvalidMove {  });
        }
        let top = match self.deck.peek_current() {
            Some(c) => *c,
            None => {
                return Err(InvalidMove {  });
            },
        };
        if top.value() != card.value() || !self.pile_accepts(p, &card) {
            return Err(InvalidMove {  });
        }
        let _ = self.deck.draw_current();
        self.piles[p as usize].push(card);
        proof {
            self.deck.lemma_wf();
            assert(self@.piles =~~= old(self)@.moved(*m).piles);
            assert(self@.hidden =~~= old(self)@.hidden);
            lemma_laid_wf(old(self)@, self@, p as int, seq![card]);
        }
        Ok(())
    }

    fn stack_to_pile(&mut self, s: u8, p: u8, card: Card) -> (r: MoveResult<()>)
        requires
            old(self).wf(),
        ensures
            final(self).wf(),
            r.is_ok() <==> old(self)@.valid(StandardMove::spec_new(Pos::Stack(s), Pos::Pile(p), card)),
            r.is_ok() ==> final(self)@ == old(self)@.moved(
                StandardMove::spec_new(Pos::Stack(s), Pos::Pile(p), card),
            ),
            r.is_err() ==> final(self)@ == old(self)@,
    {
        let ghost m = &(StandardMove::spec_new(Pos::Stack(s), Pos::Pile(p), card));
        proof {
            self.deck.lemma_wf();
        }
        if p >= N_PILES || s >= N_SUITS || card.value() >= N_CARDS || card.suit() != s
            || self.final_stack[s as usize] != card.rank() + 1 || !self.pile_accepts(
            p,
            &card,
        ) {
            return Err(InvalidMove {  });
        }
        self.final_stack[s as usize] -= 1;
        self.piles[p as usize].push(card);
        proof {
            assert(self@.stack =~= old(self)@.moved(*m).stack);
            assert(self@.piles =~~= old(self)@.moved(*m).piles);
            assert(self@.hidden =~~= old(self)@.hidden);
            lemma_laid_wf(old(self)@, self@, p as int, seq![card]);
        }
        Ok(())
    }

    fn pile_to_stack(&mut self, p: u8, s: u8, card: Card) -> (r: MoveResult<()>)
        requires
            old(self).wf(),
        ensures
            final(self).wf(),
            r.is_ok() <==> old(self)@.valid(StandardMove::spec_new(Pos::Pile(p), Pos::Stack(s), card)),
            r.is_ok() ==> final(self)@ == old(self)@.moved(
                StandardMove::spec_new(Pos::Pile(p), Pos::Stack(s), card),
            ),
            r.is_err() ==> final(self)@ == old(self)@,
    {
        let ghost m = &(StandardMove::spec_new(Pos::Pile(p), Pos::Stack(s), card));
        proof {
            self.deck.lemma_wf();
        }
        if p >= N_PILES || s >= N_SUITS {
            return Err(InvalidMove {  });
        }
        let n = self.piles[p as usize].len();
        if n == 0 || self.piles[p as usize][n - 1].value() != card.value() || card.suit()
            != s || self.final_stack[s as usize] != card.rank() {
            return Err(InvalidMove {  });
        }
        assert(self@.piles[p as int][n - 1].0 < N_CARDS);
        let _ = self.piles[p as usize].pop();
        self.final_stack[s as usize] += 1;
        let ghost mid = self@;
        proof {
            assert(mid.piles =~~= old(self)@.piles.update(
                p as int,
                old(self)@.piles[p as int].subrange(0, n - 1),
            ));
            assert(mid.hidden =~~= old(self)@.hidden);
        }
        self.turn_up(p);
        proof {
            assert(self@.stack =~= old(self)@.moved(*m).stack);
            assert(self@.piles =~~= old(self)@.moved(*m).piles);
            assert(self@.hidden =~~= old(self)@.moved(*m).hidden);
            lemma_taken_wf(old(self)@, p as int, n - 1);
        }
        Ok(())
    }

    fn pile_to_pile(&mut self, p: u8, q: u8, card: Card) -> (r: MoveResult<()>)
        requires
            old(self).wf(),
        ensures
            final(self).wf(),
            r.is_ok() <==> old(self)@.valid(StandardMove::spec_new(Pos::Pile(p), Pos::Pile(q), card)),
            r.is_ok() ==> final(self)@ == old(self)@.moved(
                StandardMove::spec_new(Pos::Pile(p), Pos::Pile(q), card),
            ),
            r.is_err() ==> final(self)@ == old(self)@,
    {
        let ghost m = &(StandardMove::spec_new(Pos::Pile(p), Pos::Pile(q), card));
        proof {
            self.deck.lemma_wf();
        }
        if p >= N_PILES || q >= N_PILES || p == q {
            return Err(InvalidMove {  });
        }
        let j = match self.find_in_pile(p, card) {
            Some(j) => j,
            None => {
                return Err(InvalidMove {  });
            },
        };
        if !self.pile_accepts(q, &card) {
            return Err(InvalidMove {  });
        }
        let mut run = self.piles[p as usize].split_off(j);
        let ghost moved_run = run@;
        self.piles[q as usize].append(&mut run);
        let ghost mid = self@;
        proof {
            let o = old(self)@;
            assert(moved_run =~= o.piles[p as int].subrange(j as int, o.piles[p as int].len() as int));
            assert(mid.piles =~~= o.piles.update(p as int, o.piles[p as int].subrange(0, j as int)).update(
                q as int,
                o.piles[q as int] + moved_run,
            ));
            assert(mid.hidden =~~= o.hidden);
        }
        self.turn_up(p);
        proof {
            let o = old(self)@;
            assert(self@.piles =~~= o.moved(*m).piles);
            assert(self@.hidden =~~= o.moved(*m).hidden);
            lemma_taken_wf(o, p as int, j as int);
            assert forall|l: int| 0 <= l < moved_run.len() implies (#[trigger] moved_run[l]).0
                < N_CARDS by {
                assert(moved_run[l] == o.piles[p as int][j + l]);
            }
            lemma_laid_wf(o.taken(p as int, j as int), self@, q as int, moved_run);
        }
        Ok(())
    }

    /// Makes the step if it can be made, and else changes nothing.
    pub fn do_move(&mut self, m: &StandardMove) -> (r: MoveResult<()>)
        requires
            old(self).wf(),
        ensures
            final(self).wf(),
            r.is_ok() <==> old(self)@.valid(*m),
            r.is_ok() ==> final(self)@ == old(self)@.moved(*m),
            r.is_err() ==> final(self)@ == old(self)@,
    {
        let card = m.card;
        match (m.from, m.to) {
            (Pos::Deck, Pos::Deck) => {
                proof {
                    self.deck.lemma_wf();
                }
                self.deck.deal_once();
                proof {
                    self.deck.lemma_wf();
                }
                Ok(())
            },
            (Pos::Deck, Pos::Stack(s)) => self.deck_to_stack(s, card),
            (Pos::Deck, Pos::Pile(p)) => self.deck_to_pile(p, card),
            (Pos::Stack(s), Pos::Pile(p)) => self.stack_to_pile(s, p, card),
            (Pos::Pile(p), Pos::Stack(s)) => self.pile_to_stack(p, s, card),
            (Pos::Pile(p), Pos::Pile(q)) => self.pile_to_pile(p, q, card),
            _ => Err(InvalidMove {  }),
        }
    }
}

/// Cards laid on a column leave a well-formed position.
proof fn lemma_laid_wf(o: StandardView, n: StandardView, p: int, run: Seq<Card>)
    requires
        o.hidden.len() == N_PILES,
        o.piles.len() == N_PILES,
        forall|q: int, j: int|
            0 <= q < N_PILES && 0 <= j < o.piles[q].len() ==> (#[trigger] o.piles[q][j]).0 < N_CARDS,
        forall|q: int, j: int|
            0 <= q < N_PILES && 0 <= j < o.hidden[q].len() ==> (#[trigger] o.hidden[q][j]).0
                < N_CARDS,
        forall|q: int| 0 <= q < N_PILES && (#[trigger] o.piles[q]).len() == 0 ==> o.hidden[q].len() == 0,
        0 <= p < N_PILES,
        run.len() > 0,
        forall|l: int| 0 <= l < run.len() ==> (#[trigger] run[l]).0 < N_CARDS,
        n.piles == o.piles.update(p, o.piles[p] + run),
        n.hidden == o.hidden,
    ensures
        forall|q: int, j: int|
            0 <= q < N_PILES && 0 <= j < n.piles[q].len() ==> (#[trigger] n.piles[q][j]).0 < N_CARDS,
        forall|q: int, j: int|
            0 <= q < N_PILES && 0 <= j < n.hidden[q].len() ==> (#[trigger] n.hidden[q][j]).0
                < N_CARDS,
        forall|q: int| 0 <= q < N_PILES && (#[trigger] n.piles[q]).len() == 0 ==> n.hidden[q].len() == 0,
{
    assert forall|q: int, j: int| 0 <= q < N_PILES && 0 <= j < n.piles[q].len() implies (
    #[trigger] n.piles[q][j]).0 < N_CARDS by {
        if q == p {
            if j < o.piles[p].len() {
                assert(o.piles[p][j].0 < N_CARDS);
            } else {
                assert(run[j - o.piles[p].len()].0 < N_CARDS);
            }
        } else {
            assert(o.piles[q][j].0 < N_CARDS);
        }
    }
    assert forall|q: int| 0 <= q < N_PILES && (#[trigger] n.piles[q]).len() == 0 implies n.hidden[q].len()
        == 0 by {
        if q != p {
            assert(o.piles[q].len() == 0);
        }
    }
}

/// Cards taken off a column leave a well-formed position.
proof fn lemma_taken_wf(o: StandardView, p: int, j: int)
    requires
        o.wf(),
        0 <= p < N_PILES,
        0 <= j < o.piles[p].len(),
    ensures
        o.taken(p, j).hidden.len() == N_PILES,
        o.taken(p, j).piles.len() == N_PILES,
        forall|q: int, l: int|
            0 <= q < N_PILES && 0 <= l < o.taken(p, j).piles[q].len() ==> (#[trigger] o.taken(
                p,
                j,
            ).piles[q][l]).0 < N_CARDS,
        forall|q: int, l: int|
            0 <= q < N_PILES && 0 <= l < o.taken(p, j).hidden[q].len() ==> (#[trigger] o.taken(
                p,
                j,
            ).hidden[q][l]).0 < N_CARDS,
        forall|q: int|
            0 <= q < N_PILES && (#[trigger] o.taken(p, j).piles[q]).len() == 0 ==> o.taken(
                p,
                j,
            ).hidden[q].len() == 0,
{
    let n = o.taken(p, j);
    assert forall|q: int, l: int| 0 <= q < N_PILES && 0 <= l < n.piles[q].len() implies (
    #[trigger] n.piles[q][l]).0 < N_CARDS by {
        if q == p {
            if j == 0 && o.hidden[p].len() > 0 {
                assert(o.hidden[p][o.hidden[p].len() - 1].0 < N_CARDS);
            } else {
                assert(o.piles[p][l].0 < N_CARDS);
            }
        } else {
            assert(o.piles[q][l].0 < N_CARDS);
        }
    }
    assert forall|q: int, l: int| 0 <= q < N_PILES && 0 <= l < n.hidden[q].len() implies (
    #[trigger] n.hidden[q][l]).0 < N_CARDS by {
        assert(o.hidden[q][l].0 < N_CARDS);
    }
    assert forall|q: int| 0 <= q < N_PILES && (#[trigger] n.piles[q]).len() == 0 implies n.hidden[q].len()
        == 0 by {
        if q != p {
            assert(o.piles[q].len() == 0);
        }
    }
}

} // verus!
