//! The stock and waste as one array with a gap, a draw cursor, and the
//! canonical encoding of what is left of the deal.

use crate::bits::{below32, bit32, lemma_bit32_flip, lemma_bit32_zero};
use crate::card::{Card, N_CARDS};
use core::ops::ControlFlow;
use vstd::prelude::*;

verus! {

pub const N_PILES: u8 = 7;

pub const N_HIDDEN_CARDS: u8 = 28;

pub const N_FULL_DECK: usize = 24;

/// Slot recorded for a card that the deal did not put in the deck.
pub const NO_SLOT: u8 = 255;

/// The waste and the stock in one array of 24 places, the waste at its start
/// and the stock at its end, with the gap of the cards that have left between
/// them.
#[derive(Debug, Clone)]
pub struct Deck {
    deck: [Card; N_FULL_DECK],
    draw_step: u8,
    draw_next: u8,
    draw_cur: u8,
    mask: u32,
    map: [u8; 52],
}

/// Whether a card can be played: now, after some deals, or not while the
/// cards before it stay.
#[derive(Debug, Clone, Copy, PartialEq, Eq, Structural)]
pub enum Drawable {
    Blocked,
    Current,
    Next,
}

/// What a deck is, apart from where its gap lies in memory.
pub struct DeckView {
    /// Waste, bottom first, followed by the stock, next card first.
    pub cards: Seq<Card>,
    /// Size of the waste.
    pub cursor: int,
    /// Cards turned per deal.
    pub step: int,
    /// Bit `s` is set once the card dealt into slot `s` has left the deck.
    pub consumed: u32,
    /// For each card value, the slot it was dealt into, or [`NO_SLOT`].
    pub slots: Seq<u8>,
}

pub open spec fn ceil_div(a: int, b: int) -> int {
    (a + b - 1) / b
}

pub open spec fn min(a: int, b: int) -> int {
    if a <= b {
        a
    } else {
        b
    }
}

/// How far `a` lies below `b`.
pub open spec fn dist(a: int, b: int) -> nat {
    if a < b {
        (b - a) as nat
    } else {
        0
    }
}

/// The positions `start`, `start + step`, ... whose successor lies below `end`.
pub open spec fn stride(start: int, step: int, end: int) -> Seq<int>
    decreases dist(start, end),
    when step >= 1
{
    if start + 1 < end {
        seq![start] + stride(start + step, step, end)
    } else {
        Seq::empty()
    }
}

/// Twenty-four distinct real cards.
pub open spec fn valid_deal(cards: Seq<Card>) -> bool {
    &&& cards.len() == N_FULL_DECK
    &&& forall|i: int| 0 <= i < cards.len() ==> (#[trigger] cards[i]).0 < N_CARDS
    &&& forall|i: int, j: int|
        0 <= i < j < cards.len() ==> (#[trigger] cards[i]).0 != (#[trigger] cards[j]).0
}

impl DeckView {
    pub open spec fn len(self) -> int {
        self.cards.len() as int
    }

    pub open spec fn slot_of(self, c: Card) -> u8 {
        self.slots[c.0 as int]
    }

    /// The card was dealt into the deck and has not left it.
    pub open spec fn holds(self, c: Card) -> bool {
        c.0 < N_CARDS && self.slot_of(c) < N_FULL_DECK && !bit32(
            self.consumed,
            self.slot_of(c) as u32,
        )
    }

    /// The cards that are left stand in the order of the deal, and `consumed`
    /// marks exactly the slots of those that are gone.
    pub open spec fn wf(self) -> bool {
        &&& 1 <= self.step <= N_FULL_DECK
        &&& 0 <= self.cursor <= self.cards.len() <= N_FULL_DECK
        &&& self.slots.len() == N_CARDS
        &&& below32(self.consumed, 24)
        &&& forall|i: int|
            0 <= i < self.cards.len() ==> (#[trigger] self.cards[i]).0 < N_CARDS && self.slot_of(
                self.cards[i],
            ) < N_FULL_DECK
        &&& forall|i: int, j: int|
            0 <= i < j < self.cards.len() ==> self.slot_of(#[trigger] self.cards[i]) < self.slot_of(
                #[trigger] self.cards[j],
            )
        &&& forall|c: Card| #[trigger] self.holds(c) <==> self.cards.contains(c)
        &&& forall|v: int, w: int|
            0 <= v < w < N_CARDS && (#[trigger] self.slots[v]) < N_FULL_DECK ==> self.slots[v]
                != #[trigger] self.slots[w]
    }

    /// The cursor after one deal.
    pub open spec fn next_offset(self) -> int {
        if self.cursor >= self.len() {
            0
        } else if self.cursor + self.step < self.len() {
            self.cursor + self.step
        } else {
            self.len()
        }
    }

    /// The cursor after `n` deals, in closed form: straight on to the end of
    /// the deck, one deal to wrap, then round the cycle of full deals from the
    /// start.
    pub open spec fn offset_after(self, n: int) -> int {
        let to_end = ceil_div(self.len() - self.cursor, self.step);
        if n <= to_end {
            min(self.cursor + self.step * n, self.len())
        } else {
            let total = ceil_div(self.len(), self.step) + 1;
            min(self.step * ((n - to_end - 1) % total), self.len())
        }
    }

    /// Dealing on and on comes back to this cursor.
    pub open spec fn is_pure(self) -> bool {
        self.cursor % self.step == 0 || self.cursor == self.len()
    }

    /// One cursor for all that full deals from the start pass through, which
    /// reach the same cards: the end of the deck.
    pub open spec fn normalized_offset(self) -> int {
        if self.cursor % self.step == 0 {
            self.len()
        } else {
            self.cursor
        }
    }

    /// The slots that are gone in the low 24 bits, the normalized cursor above.
    pub open spec fn encoded(self) -> u32 {
        self.consumed | ((self.normalized_offset() as u32) << 24)
    }

    /// The deck with its cursor normalized.
    pub open spec fn normalized(self) -> DeckView {
        self.at(self.normalized_offset())
    }

    /// `e` encodes some deck of the same deal and draw step.
    pub open spec fn admits(self, e: u32) -> bool {
        exists|d: DeckView| #[trigger]
            d.wf() && d.slots == self.slots && d.step == self.step && d.encoded() == e
    }

    /// How the card at `pos` can be reached. In the waste: the top card now, and
    /// every card that ends a full deal from the start after a redeal. In the
    /// stock: every card that ends a deal from the cursor, and the last card;
    /// and those that end a full deal from the start, after a redeal.
    pub open spec fn drawable(self, pos: int) -> Drawable {
        if pos < self.cursor {
            if pos + 1 == self.cursor {
                Drawable::Current
            } else if (pos + 1) % self.step == 0 {
                Drawable::Next
            } else {
                Drawable::Blocked
            }
        } else {
            if pos + 1 == self.len() || (pos - self.cursor + 1) % self.step == 0 {
                Drawable::Current
            } else if (pos + 1) % self.step == 0 {
                Drawable::Next
            } else {
                Drawable::Blocked
            }
        }
    }

    pub open spec fn entry(self, pos: int) -> (u8, Card, Drawable) {
        (pos as u8, self.cards[pos], self.drawable(pos))
    }

    /// The entries of the positions from `from` up to `to`.
    pub open spec fn entries(self, from: int, to: int) -> Seq<(u8, Card, Drawable)> {
        Seq::new((to - from) as nat, |i: int| self.entry(from + i))
    }

    /// What a callback is shown of the `j`-th position that a move may draw
    /// from: the position and its card.
    pub open spec fn shown_to(&self, filter: bool, j: int) -> (u8, &Card) {
        (self.drawables(filter)[j] as u8, &self.cards[self.drawables(filter)[j]])
    }

    pub open spec fn visit(self, pos: int) -> (u8, Card) {
        (pos as u8, self.cards[pos])
    }

    /// The positions that a move may draw from, in the order in which they are
    /// visited: the ends of full deals in the waste, the top of the waste, the
    /// last card, the ends of deals from the cursor, and the ends of full deals
    /// in the stock. With `filter`, those that only a redeal reaches are left
    /// out.
    pub open spec fn drawables(self, filter: bool) -> Seq<int> {
        (if filter {
            Seq::empty()
        } else {
            stride(self.step - 1, self.step, self.cursor)
        }) + (if self.cursor > 0 {
            seq![self.cursor - 1]
        } else {
            Seq::empty()
        }) + (if self.cursor < self.len() {
            seq![self.len() - 1]
        } else {
            Seq::empty()
        }) + stride(self.cursor + self.step - 1, self.step, self.len()) + (if !filter && self.cursor
            % self.step != 0 {
            stride(self.cursor - self.cursor % self.step + self.step - 1, self.step, self.len())
        } else {
            Seq::empty()
        })
    }

    /// A move may draw `c`: it stands at one of the positions of
    /// [`DeckView::drawables`].
    pub open spec fn offers(self, filter: bool, c: Card) -> bool {
        exists|k: int|
            0 <= k < self.drawables(filter).len() && 0 <= #[trigger] self.drawables(filter)[k]
                < self.len() && self.cards[self.drawables(filter)[k]] == c
    }

    /// The same cards in the same order, and the same cards out of reach.
    pub open spec fn equivalent(self, other: DeckView) -> bool {
        &&& self.cards == other.cards
        &&& forall|i: int|
            0 <= i < self.len() ==> ((#[trigger] self.drawable(i)) == Drawable::Blocked
                <==> other.drawable(i) == Drawable::Blocked)
    }

    /// Where `c` stands among the cards that are left.
    pub open spec fn position(self, c: Card) -> int {
        choose|i: int| 0 <= i < self.len() && self.cards[i] == c
    }

    /// The deck after `c` has been drawn from it.
    pub open spec fn drawn(self, c: Card) -> DeckView {
        self.at(self.position(c)).popped()
    }

    /// The same deck with the cursor moved.
    pub open spec fn at(self, cursor: int) -> DeckView {
        DeckView { cursor, ..self }
    }

    /// The deck after the card at the cursor has left it.
    pub open spec fn popped(self) -> DeckView {
        DeckView {
            cards: self.cards.remove(self.cursor),
            consumed: self.consumed ^ (1u32 << (self.slot_of(self.cards[self.cursor]) as u32)),
            ..self
        }
    }

    /// The deck after `c` has come back on top of the waste.
    pub open spec fn pushed(self, c: Card) -> DeckView {
        DeckView {
            cards: self.cards.insert(self.cursor, c),
            cursor: self.cursor + 1,
            consumed: self.consumed ^ (1u32 << (self.slot_of(c) as u32)),
            ..self
        }
    }

    /// `c` may come back at the cursor: it is gone, and its slot lies between
    /// those of its neighbours.
    pub open spec fn accepts(self, c: Card) -> bool {
        &&& c.0 < N_CARDS
        &&& self.slot_of(c) < N_FULL_DECK
        &&& bit32(self.consumed, self.slot_of(c) as u32)
        &&& 0 <= self.cursor <= self.len()
        &&& self.cursor > 0 ==> self.slot_of(self.cards[self.cursor - 1]) < self.slot_of(c)
        &&& self.cursor < self.len() ==> self.slot_of(c) < self.slot_of(self.cards[self.cursor])
    }
}

impl View for Deck {
    type V = DeckView;

    closed spec fn view(&self) -> DeckView {
        DeckView {
            cards: self.deck@.subrange(0, self.draw_cur as int) + self.deck@.subrange(
                self.draw_next as int,
                N_FULL_DECK as int,
            ),
            cursor: self.draw_cur as int,
            step: self.draw_step as int,
            consumed: self.mask,
            slots: self.map@,
        }
    }
}

impl Deck {
    /// The gap lies inside the array and the view is well formed.
    pub closed spec fn wf(&self) -> bool {
        &&& self.draw_cur <= self.draw_next <= N_FULL_DECK
        &&& self@.wf()
    }

    pub proof fn lemma_wf(&self)
        requires
            self.wf(),
        ensures
            self@.wf(),
    {
    }

    /// A deck of the cards `deck`, with the first deal of `draw_step` cards
    /// already turned.
    #[must_use]
    pub fn new(deck: &[Card; N_FULL_DECK], draw_step: u8) -> (d: Deck)
        requires
            1 <= draw_step <= N_FULL_DECK,
            valid_deal(deck@),
        ensures
            d.wf(),
            d@.cards == deck@,
            d@.cursor == draw_step,
            d@.step == draw_step,
            d@.consumed == 0,
            forall|i: int| 0 <= i < N_FULL_DECK ==> d@.slots[(#[trigger] deck@[i]).0 as int] == i,
            forall|c: Card| c.0 < N_CARDS && !deck@.contains(c) ==> #[trigger] d@.slot_of(c) == NO_SLOT,
    {
        let mut map = [NO_SLOT;52];
        let mut i: usize = 0;
        while i < N_FULL_DECK
            invariant
                i <= N_FULL_DECK,
                valid_deal(deck@),
                forall|j: int| 0 <= j < i ==> map@[(#[trigger] deck@[j]).0 as int] == j,
                forall|v: int|
                    0 <= v < N_CARDS && (forall|j: int| 0 <= j < i ==> (#[trigger] deck@[j]).0 != v)
                        ==> #[trigger] map@[v] == NO_SLOT,
            decreases N_FULL_DECK - i,
        {
            map[deck[i].value() as usize] = i as u8;
            i += 1;
        }
        let d = Deck {
            deck: *deck,
            draw_step,
            draw_next: draw_step,
            draw_cur: draw_step,
            mask: 0,
            map,
        };
        proof {
            assert(d@.cards =~= deck@);
            assert forall|c: Card| #[trigger] d@.holds(c) <==> d@.cards.contains(c) by {
                if c.0 < N_CARDS {
                    lemma_bit32_zero(d@.slot_of(c) as u32);
                    if d@.slot_of(c) < N_FULL_DECK {
                        if forall|j: int| 0 <= j < 24 ==> (#[trigger] deck@[j]).0 != c.0 {
                            assert(map@[c.0 as int] == NO_SLOT);
                        } else {
                            let j = choose|j: int| 0 <= j < 24 && (#[trigger] deck@[j]).0 == c.0;
                            assert(deck@[j] == c);
                        }
                    }
                    if d@.cards.contains(c) {
                        let j = choose|j: int| 0 <= j < 24 && deck@[j] == c;
                        assert(map@[deck@[j].0 as int] == j);
                    }
                } else {
                    if d@.cards.contains(c) {
                        let j = choose|j: int| 0 <= j < 24 && deck@[j] == c;
                        assert(deck@[j].0 < N_CARDS);
                    }
                }
            }
            lemma_bit32_zero(0);
            assert forall|v: int, w: int|
                0 <= v < w < N_CARDS && (#[trigger] d@.slots[v]) < N_FULL_DECK implies d@.slots[v]
                != #[trigger] d@.slots[w] by {
                if forall|j: int| 0 <= j < 24 ==> (#[trigger] deck@[j]).0 != v {
                    assert(map@[v] == NO_SLOT);
                } else if forall|j: int| 0 <= j < 24 ==> (#[trigger] deck@[j]).0 != w {
                    assert(map@[w] == NO_SLOT);
                } else {
                    let j = choose|j: int| 0 <= j < 24 && (#[trigger] deck@[j]).0 == v;
                    let k = choose|k: int| 0 <= k < 24 && (#[trigger] deck@[k]).0 == w;
                    assert(map@[deck@[j].0 as int] == j);
                    assert(map@[deck@[k].0 as int] == k);
                }
            }
            assert forall|c: Card| c.0 < N_CARDS && !deck@.contains(c) implies #[trigger] d@.slot_of(
                c,
            ) == NO_SLOT by {
                assert forall|j: int| 0 <= j < 24 implies (#[trigger] deck@[j]).0 != c.0 by {
                    if deck@[j].0 == c.0 {
                        assert(deck@[j] == c);
                    }
                }
            }
        }
        d
    }

    /// The place that `card` had in the deck of the deal; 24 or more if it was
    /// not in it.
    #[must_use]
    pub fn slot(&self, card: &Card) -> (s: u8)
        requires
            card.0 < N_CARDS,
        ensures
            s == self@.slot_of(*card),
    {
        self.map[card.0 as usize]
    }

    /// The same deck once more.
    #[must_use]
    pub fn duplicate(&self) -> (r: Deck)
        ensures
            r == *self,
    {
        Deck {
            deck: self.deck,
            draw_step: self.draw_step,
            draw_next: self.draw_next,
            draw_cur: self.draw_cur,
            mask: self.mask,
            map: self.map,
        }
    }

    #[must_use]
    pub fn draw_step(&self) -> (k: u8)
        ensures
            k == self@.step,
    {
        self.draw_step
    }

    /// Number of cards left, waste and stock together.
    #[must_use]
    pub fn len(&self) -> (n: u8)
        requires
            self.wf(),
        ensures
            n == self@.len(),
    {
        N_FULL_DECK as u8 - self.draw_next + self.draw_cur
    }

    #[must_use]
    pub fn is_empty(&self) -> (b: bool)
        requires
            self.wf(),
        ensures
            b == (self@.len() == 0),
    {
        self.draw_cur == 0 && self.draw_next == N_FULL_DECK as u8
    }

    /// Size of the waste.
    #[must_use]
    pub fn get_offset(&self) -> (n: u8)
        ensures
            n == self@.cursor,
    {
        self.draw_cur
    }

    /// The card at logical position `pos`, counting through the waste and on
    /// into the stock.
    #[must_use]
    pub fn peek(&self, pos: u8) -> (c: &Card)
        requires
            self.wf(),
            pos < self@.len(),
        ensures
            *c == self@.cards[pos as int],
    {
        if pos < self.draw_cur {
            &self.deck[pos as usize]
        } else {
            &self.deck[(pos - self.draw_cur + self.draw_next) as usize]
        }
    }

    /// Slides the gap so that the waste holds `id` cards. No card enters or
    /// leaves, and their order stays.
    pub fn set_offset(&mut self, id: u8)
        requires
            old(self).wf(),
            id <= old(self)@.len(),
        ensures
            final(self).wf(),
            final(self)@ == old(self)@.at(id as int),
    {
        while self.draw_cur > id
            invariant
                self.draw_cur <= self.draw_next <= N_FULL_DECK,
                old(self)@.wf(),
                self@ == old(self)@.at(self.draw_cur as int),
            decreases self.draw_cur,
        {
            let ghost before = *self;
            self.draw_cur -= 1;
            self.draw_next -= 1;
            self.deck[self.draw_next as usize] = self.deck[self.draw_cur as usize];
            proof {
                assert(self@.cards =~= before@.cards);
            }
        }
        while self.draw_cur < id
            invariant
                self.draw_cur <= self.draw_next <= N_FULL_DECK,
                old(self)@.wf(),
                self.draw_cur <= id <= old(self)@.len(),
                self@ == old(self)@.at(self.draw_cur as int),
            decreases id - self.draw_cur,
        {
            let ghost before = *self;
            self.deck[self.draw_cur as usize] = self.deck[self.draw_next as usize];
            self.draw_cur += 1;
            self.draw_next += 1;
            proof {
                assert(self@.cards =~= before@.cards);
            }
        }
        proof {
            lemma_at_wf(old(self)@, id as int);
        }
    }

    /// Takes the first card of the stock out of the deck.
    pub fn pop_next(&mut self) -> (card: Card)
        requires
            old(self).wf(),
            old(self)@.cursor < old(self)@.len(),
        ensures
            final(self).wf(),
            card == old(self)@.cards[old(self)@.cursor],
            final(self)@ == old(self)@.popped(),
    {
        let card = self.deck[self.draw_next as usize];
        proof {
            assert(card == self@.cards[self@.cursor]);
            lemma_popped_wf(self@);
        }
        self.mask ^= 1u32 << self.map[card.value() as usize];
        self.draw_next += 1;
        proof {
            assert(self@.cards =~= old(self)@.popped().cards);
        }
        card
    }

    /// Puts a drawn card back on top of the waste.
    pub fn push(&mut self, card: Card)
        requires
            old(self).wf(),
            old(self)@.accepts(card),
        ensures
            final(self).wf(),
            final(self)@ == old(self)@.pushed(card),
    {
        proof {
            lemma_pushed_wf(self@, card);
        }
        self.mask ^= 1u32 << self.map[card.value() as usize];
        self.deck[self.draw_cur as usize] = card;
        self.draw_cur += 1;
        proof {
            assert(self@.cards =~= old(self)@.pushed(card).cards);
        }
    }

    /// Slides the gap to `id` and takes the card there out of the deck.
    pub fn draw(&mut self, id: u8) -> (card: Card)
        requires
            old(self).wf(),
            id < old(self)@.len(),
        ensures
            final(self).wf(),
            card == old(self)@.cards[id as int],
            final(self)@ == old(self)@.at(id as int).popped(),
    {
        self.set_offset(id);
        self.pop_next()
    }

    /// Takes the top card of the waste, if there is one.
    pub fn draw_current(&mut self) -> (r: Option<Card>)
        requires
            old(self).wf(),
        ensures
            final(self).wf(),
            old(self)@.cursor == 0 ==> r.is_none() && final(self)@ == old(self)@,
            old(self)@.cursor > 0 ==> r == Some(old(self)@.cards[old(self)@.cursor - 1])
                && final(self)@ == old(self)@.at(old(self)@.cursor - 1).popped(),
    {
        let offset = self.get_offset();
        if offset == 0 {
            None
        } else {
            Some(self.draw(offset - 1))
        }
    }

    /// The cursor after one deal: `step` cards further, at most at the end; from
    /// the end, back to the start.
    #[must_use]
    pub fn offset_once(&self) -> (n: u8)
        requires
            self.wf(),
        ensures
            n == self@.next_offset(),
            n <= self@.len(),
    {
        let next = self.get_offset();
        let len = self.len();
        if next >= len {
            0
        } else if next + self.draw_step() < len {
            next + self.draw_step()
        } else {
            len
        }
    }

    /// Deals once.
    pub fn deal_once(&mut self)
        requires
            old(self).wf(),
        ensures
            final(self).wf(),
            final(self)@ == old(self)@.at(old(self)@.next_offset()),
    {
        let id = self.offset_once();
        self.set_offset(id);
    }

    /// The cursor after `n_step` deals.
    #[must_use]
    pub fn offset(&self, n_step: u8) -> (r: u8)
        requires
            self.wf(),
        ensures
            r == self@.offset_after(n_step as int),
            r <= self@.len(),
    {
        let next = self.get_offset() as u32;
        let len = self.len() as u32;
        let step = self.draw_step() as u32;
        let n = n_step as u32;
        let to_end = (len - next + step - 1) / step;
        let raw = if n <= to_end {
            assert(step * n <= 24 * 255) by (nonlinear_arith)
                requires
                    step <= 24,
                    n <= 255,
            ;
            next + step * n
        } else {
            let total = (len + step - 1) / step + 1;
            let m = (n - to_end - 1) % total;
            assert(step * m <= 24 * 255) by (nonlinear_arith)
                requires
                    step <= 24,
                    m <= 255,
            ;
            step * m
        };
        if raw < len {
            raw as u8
        } else {
            len as u8
        }
    }

    /// Dealing on and on comes back to the present cursor.
    #[must_use]
    pub fn is_pure(&self) -> (b: bool)
        requires
            self.wf(),
        ensures
            b == self@.is_pure(),
    {
        self.draw_cur % self.draw_step == 0 || self.draw_next == N_FULL_DECK as u8
    }

    /// The cursor that the encoding records.
    #[must_use]
    pub fn normalized_offset(&self) -> (n: u8)
        requires
            self.wf(),
        ensures
            n == self@.normalized_offset(),
            n <= self@.len(),
    {
        if self.draw_cur % self.draw_step == 0 {
            self.len()
        } else {
            self.draw_cur
        }
    }

    /// The canonical key of the deck: 29 bits.
    #[must_use]
    pub fn encode(&self) -> (e: u32)
        requires
            self.wf(),
        ensures
            e == self@.encoded(),
            e & 0xFF_FFFF == self@.consumed,
            e >> 24 == self@.normalized_offset(),
            e >> 29 == 0,
    {
        let o = self.normalized_offset() as u32;
        proof {
            lemma_encode_parts(self.mask, o);
        }
        self.mask | (o << 24)
    }

    /// Rebuilds, from a key made by [`Deck::encode`] on a deck of the same deal,
    /// that deck with its cursor normalized.
    pub fn decode(&mut self, encode: u32)
        requires
            old(self).wf(),
            old(self)@.admits(encode),
        ensures
            final(self).wf(),
            final(self)@.slots == old(self)@.slots,
            final(self)@.step == old(self)@.step,
            final(self)@.consumed == encode & 0xFF_FFFF,
            final(self)@.cursor == encode >> 24,
            forall|d: DeckView|
                #[trigger] d.wf() && d.slots == old(self)@.slots && d.step == old(self)@.step
                    && d.encoded() == encode ==> final(self)@ == d.normalized(),
    {
        let mask = encode & 0xFF_FFFF;
        let wide = encode >> 24;
        let ghost src = choose|d: DeckView| #[trigger]
            d.wf() && d.slots == self@.slots && d.step == self@.step && d.encoded() == encode;
        proof {
            lemma_encode_parts(src.consumed, src.normalized_offset() as u32);
            assert(mask == src.consumed);
            assert(wide == src.normalized_offset());
        }
        let offset = wide as u8;
        let mut rev_map = [Card::fake();N_FULL_DECK];
        let mut i: u8 = 0;
        while i < N_CARDS
            invariant
                i <= N_CARDS,
                self.wf(),
                self@ == old(self)@,
                mask == src.consumed,
                src.wf(),
                src.slots == self@.slots,
                forall|s: int|
                    0 <= s < N_FULL_DECK ==> ((#[trigger] rev_map@[s]) == Card::fake() || (
                    rev_map@[s].0 < i && src.holds(rev_map@[s]) && src.slot_of(rev_map@[s]) == s)),
                forall|c: Card|
                    c.0 < i && #[trigger] src.holds(c) ==> rev_map@[src.slot_of(c) as int] == c,
            decreases N_CARDS - i,
        {
            let val = self.map[i as usize];
            proof {
                let w = val as u32;
                assert((mask >> w) & 1 == 0 || (mask >> w) & 1 == 1) by (bit_vector);
            }
            if val < N_FULL_DECK as u8 && (mask >> (val as u32)) & 1 == 0 {
                proof {
                    let c = Card(i);
                    assert(src.holds(c));
                    assert forall|d: Card| d.0 < i && #[trigger] src.holds(d) implies src.slot_of(d)
                        != val by {
                        assert(src.slots[d.0 as int] != src.slots[c.0 as int]);
                    }
                }
                rev_map[val as usize] = Card::from_value(i);
            }
            i += 1;
        }
        let mut pos: usize = 0;
        let mut s: usize = 0;
        let ghost got: Seq<Card> = Seq::empty();
        while s < N_FULL_DECK
            invariant
                s <= N_FULL_DECK,
                pos <= s,
                self.draw_cur <= self.draw_next <= N_FULL_DECK,
                self@.slots == old(self)@.slots,
                self@.step == old(self)@.step,
                src.wf(),
                src.slots == self@.slots,
                forall|t: int|
                    0 <= t < N_FULL_DECK ==> ((#[trigger] rev_map@[t]) == Card::fake() || (
                    src.holds(rev_map@[t]) && src.slot_of(rev_map@[t]) == t)),
                forall|c: Card| #[trigger] src.holds(c) ==> rev_map@[src.slot_of(c) as int] == c,
                forall|j: int|
                    0 <= j < pos ==> src.holds(#[trigger] self.deck@[j]) && src.slot_of(self.deck@[j])
                        < s,
                forall|j: int, k: int|
                    0 <= j < k < pos ==> src.slot_of(#[trigger] self.deck@[j]) < src.slot_of(
                        #[trigger] self.deck@[k],
                    ),
                forall|c: Card|
                    #[trigger] src.holds(c) && src.slot_of(c) < s ==> exists|j: int|
                        0 <= j < pos && self.deck@[j] == c,
            decreases N_FULL_DECK - s,
        {
            let c = rev_map[s];
            if c.value() != N_CARDS {
                let ghost before = self.deck@;
                self.deck[pos] = c;
                proof {
                    assert forall|d: Card| #[trigger] src.holds(d) && src.slot_of(d) < s + 1 implies exists|
                        j: int,
                    |
                        0 <= j < pos + 1 && self.deck@[j] == d by {
                        if src.slot_of(d) < s {
                            let j = choose|j: int| 0 <= j < pos && before[j] == d;
                            assert(self.deck@[j] == d);
                        } else {
                            assert(self.deck@[pos as int] == d);
                        }
                    }
                    assert forall|j: int| 0 <= j < pos + 1 implies src.holds(
                        #[trigger] self.deck@[j],
                    ) && src.slot_of(self.deck@[j]) < s + 1 by {
                        if j < pos {
                            assert(self.deck@[j] == before[j]);
                        }
                    }
                    assert forall|j: int, k: int| 0 <= j < k < pos + 1 implies src.slot_of(
                        #[trigger] self.deck@[j],
                    ) < src.slot_of(#[trigger] self.deck@[k]) by {
                        assert(self.deck@[j] == before[j]);
                        if k < pos {
                            assert(self.deck@[k] == before[k]);
                        }
                    }
                }
                pos += 1;
            } else {
                proof {
                    assert forall|d: Card| #[trigger] src.holds(d) && src.slot_of(d) < s + 1 implies exists|
                        j: int,
                    |
                        0 <= j < pos && self.deck@[j] == d by {
                        if src.slot_of(d) == s {
                            assert(rev_map@[s as int] == d);
                        }
                    }
                }
            }
            s += 1;
        }
        self.draw_cur = pos as u8;
        self.draw_next = N_FULL_DECK as u8;
        self.mask = mask;
        proof {
            let v = self@;
            assert(v.cards =~= self.deck@.subrange(0, pos as int));
            assert forall|c: Card| #[trigger] v.holds(c) <==> v.cards.contains(c) by {
                if v.holds(c) {
                    assert(src.holds(c));
                    let j = choose|j: int| 0 <= j < pos && self.deck@[j] == c;
                    assert(v.cards[j] == c);
                }
                if v.cards.contains(c) {
                    let j = choose|j: int| 0 <= j < v.cards.len() && v.cards[j] == c;
                    assert(src.holds(self.deck@[j]));
                }
            }
            assert forall|j: int| 0 <= j < v.cards.len() implies (#[trigger] v.cards[j]).0 < N_CARDS
                && v.slot_of(v.cards[j]) < N_FULL_DECK by {
                assert(src.holds(self.deck@[j]));
            }
            assert forall|j: int, k: int| 0 <= j < k < v.cards.len() implies v.slot_of(
                #[trigger] v.cards[j],
            ) < v.slot_of(#[trigger] v.cards[k]) by {
                assert(src.slot_of(self.deck@[j]) < src.slot_of(self.deck@[k]));
            }
            assert(v.wf());
            lemma_cards_determined(v, src);
        }
        self.set_offset(offset);
        proof {
            assert forall|d: DeckView|
                #[trigger] d.wf() && d.slots == old(self)@.slots && d.step == old(self)@.step
                    && d.encoded() == encode implies self@ == d.normalized() by {
                lemma_encode_parts(d.consumed, d.normalized_offset() as u32);
                lemma_cards_determined(self@, d);
            }
        }
    }

    /// Position of `card` among the cards that are left.
    #[must_use]
    pub fn find_card(&self, card: Card) -> (r: Option<u8>)
        requires
            self.wf(),
        ensures
            match r {
                Some(i) => i < self@.len() && self@.cards[i as int] == card && forall|j: int|
                    0 <= j < i ==> self@.cards[j] != card,
                None => !self@.cards.contains(card),
            },
    {
        let len = self.len();
        let mut i: u8 = 0;
        while i < len
            invariant
                self.wf(),
                len == self@.len(),
                i <= len,
                forall|j: int| 0 <= j < i ==> self@.cards[j] != card,
            decreases len - i,
        {
            if self.peek(i).value() == card.value() {
                return Some(i);
            }
            i += 1;
        }
        None
    }

    /// The waste, bottom first.
    #[must_use]
    pub fn get_waste(&self) -> (w: &[Card])
        requires
            self.wf(),
        ensures
            w@ == self@.cards.subrange(0, self@.cursor),
    {
        let w = vstd::slice::slice_subrange(self.deck.as_slice(), 0, self.draw_cur as usize);
        proof {
            assert(w@ =~= self@.cards.subrange(0, self@.cursor));
        }
        w
    }

    /// The stock, next card first.
    #[must_use]
    pub fn get_deck(&self) -> (w: &[Card])
        requires
            self.wf(),
        ensures
            w@ == self@.cards.subrange(self@.cursor, self@.len()),
    {
        let w = vstd::slice::slice_subrange(
            self.deck.as_slice(),
            self.draw_next as usize,
            N_FULL_DECK,
        );
        proof {
            assert(w@ =~= self@.cards.subrange(self@.cursor, self@.len()));
        }
        w
    }

    /// All cards that are left: the waste, then the stock.
    #[must_use]
    pub fn iter(&self) -> (v: Vec<Card>)
        requires
            self.wf(),
        ensures
            v@ == self@.cards,
    {
        let len = self.len();
        let mut v: Vec<Card> = Vec::new();
        let mut i: u8 = 0;
        while i < len
            invariant
                self.wf(),
                len == self@.len(),
                i <= len,
                v@ == self@.cards.subrange(0, i as int),
            decreases len - i,
        {
            v.push(*self.peek(i));
            proof {
                assert(v@ =~= self@.cards.subrange(0, i + 1));
            }
            i += 1;
        }
        proof {
            assert(v@ =~= self@.cards);
        }
        v
    }

    /// How the card at `pos` can be reached.
    #[must_use]
    pub fn drawable(&self, pos: u8) -> (d: Drawable)
        requires
            self.wf(),
            pos < self@.len(),
        ensures
            d == self@.drawable(pos as int),
    {
        if pos < self.draw_cur {
            if pos + 1 == self.draw_cur {
                Drawable::Current
            } else if (pos + 1) % self.draw_step == 0 {
                Drawable::Next
            } else {
                Drawable::Blocked
            }
        } else {
            if pos + 1 == self.len() || (pos - self.draw_cur + 1) % self.draw_step == 0 {
                Drawable::Current
            } else if (pos + 1) % self.draw_step == 0 {
                Drawable::Next
            } else {
                Drawable::Blocked
            }
        }
    }

    fn entries(&self, from: u8, to: u8) -> (v: Vec<(u8, Card, Drawable)>)
        requires
            self.wf(),
            from <= to <= self@.len(),
        ensures
            v@ == self@.entries(from as int, to as int),
    {
        let mut v: Vec<(u8, Card, Drawable)> = Vec::new();
        let mut i: u8 = from;
        while i < to
            invariant
                self.wf(),
                from <= i <= to <= self@.len(),
                v@ == self@.entries(from as int, i as int),
            decreases to - i,
        {
            v.push((i, *self.peek(i), self.drawable(i)));
            proof {
                assert(v@ =~= self@.entries(from as int, i + 1));
            }
            i += 1;
        }
        v
    }

    /// The waste, with each card's position and how it can be reached.
    #[must_use]
    pub fn iter_waste(&self) -> (v: Vec<(u8, Card, Drawable)>)
        requires
            self.wf(),
        ensures
            v@ == self@.entries(0, self@.cursor),
    {
        self.entries(0, self.draw_cur)
    }

    /// The stock, with each card's position and how it can be reached.
    #[must_use]
    pub fn iter_deck(&self) -> (v: Vec<(u8, Card, Drawable)>)
        requires
            self.wf(),
        ensures
            v@ == self@.entries(self@.cursor, self@.len()),
    {
        self.entries(self.draw_cur, self.len())
    }

    /// Waste and stock, with each card's position and how it can be reached.
    #[must_use]
    pub fn iter_all(&self) -> (v: Vec<(u8, Card, Drawable)>)
        requires
            self.wf(),
        ensures
            v@ == self@.entries(0, self@.len()),
    {
        self.entries(0, self.len())
    }

    fn push_stride(&self, out: &mut Vec<(u8, Card)>, start: u8, end: u8)
        requires
            self.wf(),
            end <= self@.len(),
            start < 255,
        ensures
            final(out)@ == old(out)@ + stride(start as int, self@.step, end as int).map_values(
                |p: int| self@.visit(p),
            ),
            forall|j: int|
                old(out)@.len() <= j < final(out)@.len() ==> (#[trigger] final(out)@[j]).0
                    < self@.len() && final(out)@[j].1 == self@.cards[final(out)@[j].0 as int],
    {
        let ghost f = |p: int| self@.visit(p);
        let mut i: u8 = start;
        proof {
            assert(out@ =~= old(out)@ + Seq::<(u8, Card)>::empty());
            assert(Seq::<int>::empty().map_values(f) =~= Seq::<(u8, Card)>::empty());
        }
        let ghost mut done: Seq<int> = Seq::empty();
        while i + 1 < end
            invariant
                self.wf(),
                end <= self@.len(),
                f == |p: int| self@.visit(p),
                out@ == old(out)@ + done.map_values(f),
                forall|j: int|
                    old(out)@.len() <= j < out@.len() ==> (#[trigger] out@[j]).0 < self@.len()
                        && out@[j].1 == self@.cards[out@[j].0 as int],
                done + stride(i as int, self@.step, end as int) == stride(
                    start as int,
                    self@.step,
                    end as int,
                ),
                i < 255,
            decreases dist(i as int, end as int),
        {
            let ghost rest = stride(i + self@.step, self@.step, end as int);
            proof {
                assert(stride(i as int, self@.step, end as int) == seq![i as int] + rest);
                assert(done.push(i as int) + rest =~= done + (seq![i as int] + rest));
                assert(done.push(i as int).map_values(f) =~= done.map_values(f).push(f(i as int)));
            }
            out.push((i, *self.peek(i)));
            proof {
                done = done.push(i as int);
                assert(out@ =~= old(out)@ + done.map_values(f));
            }
            i += self.draw_step;
        }
        proof {
            assert(done =~= stride(start as int, self@.step, end as int));
        }
    }

    /// Shows `func` the positions that a move may draw from, each with its
    /// card, in the order of [`DeckView::drawables`], until it breaks off; and
    /// returns what it broke off with, if it did.
    pub fn iter_callback<T, F: Fn(u8, &Card) -> ControlFlow<T>>(&self, filter: bool, func: F) -> (r:
        ControlFlow<T>)
        requires
            self.wf(),
            forall|j: int|
                0 <= j < self@.drawables(filter).len() ==> call_requires(
                    func,
                    #[trigger] self@.shown_to(filter, j),
                ),
        ensures
            match r {
                ControlFlow::Break(t) => exists|k: int|
                    0 <= k < self@.drawables(filter).len() && call_ensures(
                        func,
                        #[trigger] self@.shown_to(filter, k),
                        ControlFlow::Break(t),
                    ) && forall|j: int|
                        0 <= j < k ==> call_ensures(
                            func,
                            #[trigger] self@.shown_to(filter, j),
                            ControlFlow::Continue(()),
                        ),
                ControlFlow::Continue(_) => forall|j: int|
                    0 <= j < self@.drawables(filter).len() ==> call_ensures(
                        func,
                        #[trigger] self@.shown_to(filter, j),
                        ControlFlow::Continue(()),
                    ),
            },
    {
        let v = self.iter_drawable(filter);
        let mut i: usize = 0;
        while i < v.len()
            invariant
                i <= v@.len(),
                v@ == self@.drawables(filter).map_values(|p: int| self@.visit(p)),
                forall|j: int|
                    0 <= j < self@.drawables(filter).len() ==> call_requires(
                        func,
                        #[trigger] self@.shown_to(filter, j),
                    ),
                forall|j: int|
                    0 <= j < i ==> call_ensures(
                        func,
                        #[trigger] self@.shown_to(filter, j),
                        ControlFlow::Continue(()),
                    ),
            decreases v@.len() - i,
        {
            assert(self@.shown_to(filter, i as int) == (v@[i as int].0, &v@[i as int].1));
            let res = func(v[i].0, &v[i].1);
            assert(call_ensures(func, self@.shown_to(filter, i as int), res));
            match res {
                ControlFlow::Break(t) => {
                    return ControlFlow::Break(t);
                },
                ControlFlow::Continue(u) => {
                    assert(u == ());
                    assert(res == ControlFlow::<T, ()>::Continue(()));
                },
            }
            i += 1;
        }
        ControlFlow::Continue(())
    }

    /// The positions that a move may draw from, each with its card, in the
    /// order of [`DeckView::drawables`].
    #[must_use]
    pub fn iter_drawable(&self, filter: bool) -> (v: Vec<(u8, Card)>)
        requires
            self.wf(),
        ensures
            v@ == self@.drawables(filter).map_values(|p: int| self@.visit(p)),
            forall|j: int|
                0 <= j < v@.len() ==> (#[trigger] v@[j]).0 < self@.len() && v@[j].1
                    == self@.cards[v@[j].0 as int],
    {
        let ghost f = |p: int| self@.visit(p);
        let ghost view = self@;
        let len = self.len();
        let mut v: Vec<(u8, Card)> = Vec::new();
        let ghost first: Seq<int> = if filter {
            Seq::empty()
        } else {
            stride(view.step - 1, view.step, view.cursor)
        };
        if !filter {
            self.push_stride(&mut v, self.draw_step - 1, self.draw_cur);
        }
        proof {
            assert(v@ =~= first.map_values(f));
        }
        let ghost second: Seq<int> = first + (if view.cursor > 0 {
            seq![view.cursor - 1]
        } else {
            Seq::empty()
        });
        if self.draw_cur > 0 {
            v.push((self.draw_cur - 1, *self.peek(self.draw_cur - 1)));
        }
        proof {
            assert(v@ =~= second.map_values(f));
        }
        let ghost third: Seq<int> = second + (if view.cursor < view.len() {
            seq![view.len() - 1]
        } else {
            Seq::empty()
        });
        if self.draw_cur < len {
            v.push((len - 1, *self.peek(len - 1)));
        }
        proof {
            assert(v@ =~= third.map_values(f));
        }
        let ghost fourth: Seq<int> = third + stride(view.cursor + view.step - 1, view.step, view.len());
        self.push_stride(&mut v, self.draw_cur + self.draw_step - 1, len);
        proof {
            assert(v@ =~= fourth.map_values(f));
        }
        let offset = self.draw_cur % self.draw_step;
        let ghost fifth: Seq<int> = fourth + (if !filter && view.cursor % view.step != 0 {
            stride(view.cursor - view.cursor % view.step + view.step - 1, view.step, view.len())
        } else {
            Seq::empty()
        });
        proof {
            assert(offset <= self.draw_cur) by (nonlinear_arith)
                requires
                    offset == self.draw_cur % self.draw_step,
                    self.draw_step >= 1,
            ;
        }
        if !filter && offset != 0 {
            self.push_stride(&mut v, self.draw_cur - offset + self.draw_step - 1, len);
        }
        proof {
            assert(v@ =~= fifth.map_values(f));
            assert(fifth =~= view.drawables(filter));
        }
        v
    }

    /// Whether `card` was dealt into the deck and has not left it.
    #[must_use]
    pub fn holds_card(&self, card: &Card) -> (b: bool)
        requires
            self.wf(),
            card.0 < N_CARDS,
        ensures
            b == self@.holds(*card),
            b == self@.cards.contains(*card),
    {
        let slot = self.map[card.value() as usize];
        proof {
            let w = slot as u32;
            let m = self.mask;
            assert((m >> w) & 1 == 0 || (m >> w) & 1 == 1) by (bit_vector);
            assert(self@.holds(*card) <==> self@.cards.contains(*card));
        }
        slot < N_FULL_DECK as u8 && (self.mask >> (slot as u32)) & 1 == 0
    }

    /// The last card of the deck.
    #[must_use]
    pub fn peek_last(&self) -> (r: Option<&Card>)
        requires
            self.wf(),
        ensures
            match r {
                Some(c) => self@.len() > 0 && *c == self@.cards.last(),
                None => self@.len() == 0,
            },
    {
        if self.draw_next < N_FULL_DECK as u8 {
            Some(&self.deck[N_FULL_DECK - 1])
        } else if self.draw_cur > 0 {
            Some(&self.deck[self.draw_cur as usize - 1])
        } else {
            None
        }
    }

    /// The top card of the waste.
    #[must_use]
    pub fn peek_current(&self) -> (r: Option<&Card>)
        requires
            self.wf(),
        ensures
            match r {
                Some(c) => self@.cursor > 0 && *c == self@.cards[self@.cursor - 1],
                None => self@.cursor == 0,
            },
    {
        if self.draw_cur == 0 {
            None
        } else {
            Some(&self.deck[self.draw_cur as usize - 1])
        }
    }

    /// The top `n` cards of the waste, or all of it if it has fewer; bottom
    /// first.
    #[must_use]
    pub fn peek_waste(&self, n: u8) -> (v: Vec<Card>)
        requires
            self.wf(),
        ensures
            v@ == self@.cards.subrange(
                if self@.cursor >= n {
                    self@.cursor - n
                } else {
                    0
                },
                self@.cursor,
            ),
    {
        let from = self.draw_cur.saturating_sub(n);
        let mut v: Vec<Card> = Vec::new();
        let mut i: u8 = from;
        while i < self.draw_cur
            invariant
                self.wf(),
                from <= i <= self.draw_cur,
                self.draw_cur == self@.cursor,
                v@ == self@.cards.subrange(from as int, i as int),
            decreases self.draw_cur - i,
        {
            v.push(*self.peek(i));
            proof {
                assert(v@ =~= self@.cards.subrange(from as int, i + 1));
            }
            i += 1;
        }
        v
    }

    /// The two decks hold the same cards in the same order, and the same cards
    /// are out of reach in both.
    #[must_use]
    pub fn equivalent_to(&self, other: &Deck) -> (b: bool)
        requires
            self.wf(),
            other.wf(),
        ensures
            b == self@.equivalent(other@),
    {
        let len = self.len();
        if len != other.len() {
            return false;
        }
        let mut i: u8 = 0;
        while i < len
            invariant
                self.wf(),
                other.wf(),
                len == self@.len(),
                len == other@.len(),
                i <= len,
                forall|j: int| 0 <= j < i ==> self@.cards[j] == other@.cards[j],
                forall|j: int|
                    0 <= j < i ==> ((#[trigger] self@.drawable(j)) == Drawable::Blocked
                        <==> other@.drawable(j) == Drawable::Blocked),
            decreases len - i,
        {
            let a = self.drawable(i);
            let b = other.drawable(i);
            if self.peek(i).value() != other.peek(i).value() || (a == Drawable::Blocked) != (b
                == Drawable::Blocked) {
                return false;
            }
            i += 1;
        }
        proof {
            assert(self@.cards =~= other@.cards);
        }
        true
    }
}

/// Moving the cursor keeps a deck well formed.
pub proof fn lemma_at_wf(v: DeckView, id: int)
    requires
        v.wf(),
        0 <= id <= v.len(),
    ensures
        v.at(id).wf(),
        forall|c: Card| #[trigger] v.at(id).holds(c) <==> v.holds(c),
{
    assert forall|c: Card| #[trigger] v.at(id).holds(c) <==> v.at(id).cards.contains(c) by {
        assert(v.holds(c) <==> v.cards.contains(c));
    }
}

/// Taking the card at the cursor leaves a well-formed deck, into which that
/// card may come back.
pub proof fn lemma_popped_wf(v: DeckView)
    requires
        v.wf(),
        v.cursor < v.len(),
    ensures
        v.popped().wf(),
        v.popped().accepts(v.cards[v.cursor]),
        v.popped().pushed(v.cards[v.cursor]) == v.at(v.cursor + 1),
        !v.popped().holds(v.cards[v.cursor]),
        forall|c: Card| c != v.cards[v.cursor] ==> (#[trigger] v.popped().holds(c) <==> v.holds(c)),
{
    let card = v.cards[v.cursor];
    let s = v.slot_of(card) as u32;
    let p = v.popped();
    assert(v.holds(card)) by {
        assert(v.cards.contains(card));
    }
    assert forall|c: Card| c.0 < N_CARDS && v.slot_of(c) < N_FULL_DECK implies (bit32(
        p.consumed,
        v.slot_of(c) as u32,
    ) == (bit32(v.consumed, v.slot_of(c) as u32) != (c == card))) by {
        lemma_bit32_flip(v.consumed, s, v.slot_of(c) as u32);
        if c != card && v.slot_of(c) == v.slot_of(card) {
            if c.0 < card.0 {
                assert(v.slots[c.0 as int] != v.slots[card.0 as int]);
            } else {
                assert(v.slots[card.0 as int] != v.slots[c.0 as int]);
            }
        }
    }
    lemma_bit32_flip(v.consumed, s, s);
    assert forall|c: Card| #[trigger] p.holds(c) <==> p.cards.contains(c) by {
        assert(v.holds(c) <==> v.cards.contains(c));
        if p.cards.contains(c) {
            let i = choose|i: int| 0 <= i < p.cards.len() && p.cards[i] == c;
            if i < v.cursor {
                assert(v.cards[i] == c);
                assert(v.slot_of(v.cards[i]) < v.slot_of(v.cards[v.cursor]));
            } else {
                assert(v.cards[i + 1] == c);
                assert(v.slot_of(v.cards[v.cursor]) < v.slot_of(v.cards[i + 1]));
            }
            assert(c != card);
        }
        if p.holds(c) {
            assert(c != card);
            assert(v.holds(c));
            let i = choose|i: int| 0 <= i < v.cards.len() && v.cards[i] == c;
            if i < v.cursor {
                assert(p.cards[i] == c);
            } else {
                assert(p.cards[i - 1] == c);
            }
        }
    }
    assert forall|i: int, j: int| 0 <= i < j < p.cards.len() implies p.slot_of(
        #[trigger] p.cards[i],
    ) < p.slot_of(#[trigger] p.cards[j]) by {
        let ii = if i < v.cursor {
            i
        } else {
            i + 1
        };
        let jj = if j < v.cursor {
            j
        } else {
            j + 1
        };
        assert(v.slot_of(v.cards[ii]) < v.slot_of(v.cards[jj]));
    }
    assert forall|i: int| 0 <= i < p.cards.len() implies (#[trigger] p.cards[i]).0 < N_CARDS
        && p.slot_of(p.cards[i]) < N_FULL_DECK by {
        let ii = if i < v.cursor {
            i
        } else {
            i + 1
        };
        assert(v.cards[ii].0 < N_CARDS);
    }
    if v.cursor > 0 {
        assert(v.slot_of(v.cards[v.cursor - 1]) < v.slot_of(v.cards[v.cursor]));
    }
    if v.cursor + 1 < v.len() {
        assert(v.slot_of(v.cards[v.cursor]) < v.slot_of(v.cards[v.cursor + 1]));
    }
    assert(p.pushed(card).cards =~= v.cards);
    assert forall|c: Card| c != card implies (#[trigger] p.holds(c) <==> v.holds(c)) by {}
}

/// A card that comes back where it was taken leaves a well-formed deck.
pub proof fn lemma_pushed_wf(v: DeckView, card: Card)
    requires
        v.wf(),
        v.accepts(card),
    ensures
        v.len() < N_FULL_DECK,
        v.pushed(card).wf(),
        v.pushed(card).holds(card),
        v.pushed(card).at(v.cursor).popped() == v,
        forall|c: Card| c != card ==> (#[trigger] v.pushed(card).holds(c) <==> v.holds(c)),
{
    let s = v.slot_of(card) as u32;
    let p = v.pushed(card);
    lemma_full_deck_holds_all(v, card);
    assert forall|c: Card| c.0 < N_CARDS && v.slot_of(c) < N_FULL_DECK implies (bit32(
        p.consumed,
        v.slot_of(c) as u32,
    ) == (bit32(v.consumed, v.slot_of(c) as u32) != (c == card))) by {
        lemma_bit32_flip(v.consumed, s, v.slot_of(c) as u32);
        if c != card && v.slot_of(c) == v.slot_of(card) {
            if c.0 < card.0 {
                assert(v.slots[c.0 as int] != v.slots[card.0 as int]);
            } else {
                assert(v.slots[card.0 as int] != v.slots[c.0 as int]);
            }
        }
    }
    lemma_bit32_flip(v.consumed, s, s);
    assert(!v.cards.contains(card)) by {
        assert(!v.holds(card));
    }
    assert forall|c: Card| #[trigger] p.holds(c) <==> p.cards.contains(c) by {
        assert(v.holds(c) <==> v.cards.contains(c));
        if p.cards.contains(c) && c != card {
            let i = choose|i: int| 0 <= i < p.cards.len() && p.cards[i] == c;
            if i < v.cursor {
                assert(v.cards[i] == c);
            } else {
                assert(v.cards[i - 1] == c);
            }
        }
        if p.holds(c) && c != card {
            let i = choose|i: int| 0 <= i < v.cards.len() && v.cards[i] == c;
            if i < v.cursor {
                assert(p.cards[i] == c);
            } else {
                assert(p.cards[i + 1] == c);
            }
        }
        if c == card {
            assert(p.cards[v.cursor] == c);
        }
    }
    assert forall|i: int, j: int| 0 <= i < j < p.cards.len() implies p.slot_of(
        #[trigger] p.cards[i],
    ) < p.slot_of(#[trigger] p.cards[j]) by {
        if i < v.cursor && j > v.cursor {
            assert(v.slot_of(v.cards[i]) <= v.slot_of(v.cards[v.cursor - 1]));
            assert(v.slot_of(v.cards[v.cursor]) <= v.slot_of(v.cards[j - 1]));
        } else if i < v.cursor && j == v.cursor {
            assert(v.slot_of(v.cards[i]) <= v.slot_of(v.cards[v.cursor - 1]));
        } else if i == v.cursor {
            assert(v.slot_of(v.cards[v.cursor]) <= v.slot_of(v.cards[j - 1]));
        } else if j < v.cursor {
            assert(v.slot_of(v.cards[i]) < v.slot_of(v.cards[j]));
        } else {
            assert(v.slot_of(v.cards[i - 1]) < v.slot_of(v.cards[j - 1]));
        }
    }
    assert forall|i: int| 0 <= i < p.cards.len() implies (#[trigger] p.cards[i]).0 < N_CARDS
        && p.slot_of(p.cards[i]) < N_FULL_DECK by {
        if i < v.cursor {
            assert(v.cards[i].0 < N_CARDS);
        } else if i > v.cursor {
            assert(v.cards[i - 1].0 < N_CARDS);
        }
    }
    assert(p.at(v.cursor).popped().cards =~= v.cards);
    assert forall|c: Card| c != card implies (#[trigger] p.holds(c) <==> v.holds(c)) by {}
}

/// Cards in deal order have slots no smaller than their positions.
proof fn lemma_slot_at_least(v: DeckView, i: int)
    requires
        v.wf(),
        0 <= i < v.len(),
    ensures
        v.slot_of(v.cards[i]) >= i,
    decreases i,
{
    if i > 0 {
        lemma_slot_at_least(v, i - 1);
        assert(v.slot_of(v.cards[i - 1]) < v.slot_of(v.cards[i]));
    }
}

/// Cards in deal order have slots that leave room for those behind them.
proof fn lemma_slot_at_most(v: DeckView, i: int)
    requires
        v.wf(),
        0 <= i < v.len(),
    ensures
        v.slot_of(v.cards[i]) <= N_FULL_DECK - v.len() + i,
    decreases v.len() - i,
{
    if i + 1 < v.len() {
        lemma_slot_at_most(v, i + 1);
        assert(v.slot_of(v.cards[i]) < v.slot_of(v.cards[i + 1]));
    } else {
        assert(v.slot_of(v.cards[i]) < N_FULL_DECK);
    }
}

/// A deck that still has all its cards lacks none that was dealt into it.
proof fn lemma_full_deck_holds_all(v: DeckView, c: Card)
    requires
        v.wf(),
        c.0 < N_CARDS,
        v.slot_of(c) < N_FULL_DECK,
        bit32(v.consumed, v.slot_of(c) as u32),
    ensures
        v.len() < N_FULL_DECK,
{
    if v.len() == N_FULL_DECK {
        let i = v.slot_of(c) as int;
        lemma_slot_at_least(v, i);
        lemma_slot_at_most(v, i);
        let d = v.cards[i];
        assert(v.cards.contains(d));
        assert(v.holds(d));
        if d.0 < c.0 {
            assert(v.slots[d.0 as int] != v.slots[c.0 as int]);
        } else if c.0 < d.0 {
            assert(v.slots[c.0 as int] != v.slots[d.0 as int]);
        }
        assert(false);
    }
}

/// The two parts of a deck's key can be read back from it.
pub proof fn lemma_encode_parts(m: u32, o: u32)
    requires
        below32(m, 24),
        o <= 24,
    ensures
        (m | (o << 24)) & 0xFF_FFFF == m,
        (m | (o << 24)) >> 24 == o,
        (m | (o << 24)) >> 29 == 0,
{
    assert((m >> 24) == 0 && o <= 24 ==> (m | (o << 24)) & 0xFF_FFFF == m && (m | (o << 24)) >> 24
        == o && (m | (o << 24)) >> 29 == 0) by (bit_vector);
}

/// Strictly ascending sequences of cards with the same members are equal.
proof fn lemma_ascending_equal(slots: Seq<u8>, a: Seq<Card>, b: Seq<Card>)
    requires
        forall|i: int, j: int|
            0 <= i < j < a.len() ==> slots[(#[trigger] a[i]).0 as int] < slots[(#[trigger] a[j]).0 as int],
        forall|i: int, j: int|
            0 <= i < j < b.len() ==> slots[(#[trigger] b[i]).0 as int] < slots[(#[trigger] b[j]).0 as int],
        forall|c: Card| a.contains(c) <==> b.contains(c),
    ensures
        a == b,
    decreases a.len(),
{
    if a.len() == 0 {
        if b.len() > 0 {
            assert(b.contains(b[0]));
        }
        assert(a =~= b);
    } else {
        let x = a.last();
        assert(a.contains(x));
        let j = choose|j: int| 0 <= j < b.len() && b[j] == x;
        let y = b.last();
        assert(b.contains(y));
        let i = choose|i: int| 0 <= i < a.len() && a[i] == y;
        if i < a.len() - 1 {
            assert(slots[a[i].0 as int] < slots[a[a.len() - 1].0 as int]);
        }
        if j < b.len() - 1 {
            assert(slots[b[j].0 as int] < slots[b[b.len() - 1].0 as int]);
        }
        assert(x == y);
        let a0 = a.drop_last();
        let b0 = b.drop_last();
        assert forall|c: Card| a0.contains(c) <==> b0.contains(c) by {
            if a0.contains(c) {
                let k = choose|k: int| 0 <= k < a0.len() && a0[k] == c;
                assert(a[k] == c);
                assert(slots[a[k].0 as int] < slots[a[a.len() - 1].0 as int]);
                assert(a.contains(c));
                let m = choose|m: int| 0 <= m < b.len() && b[m] == c;
                assert(b0[m] == c);
            }
            if b0.contains(c) {
                let k = choose|k: int| 0 <= k < b0.len() && b0[k] == c;
                assert(b[k] == c);
                assert(slots[b[k].0 as int] < slots[b[b.len() - 1].0 as int]);
                assert(b.contains(c));
                let m = choose|m: int| 0 <= m < a.len() && a[m] == c;
                assert(a0[m] == c);
            }
        }
        assert forall|i: int, j: int| 0 <= i < j < a0.len() implies slots[(#[trigger] a0[i]).0 as int]
            < slots[(#[trigger] a0[j]).0 as int] by {
            assert(slots[a[i].0 as int] < slots[a[j].0 as int]);
        }
        assert forall|i: int, j: int| 0 <= i < j < b0.len() implies slots[(#[trigger] b0[i]).0 as int]
            < slots[(#[trigger] b0[j]).0 as int] by {
            assert(slots[b[i].0 as int] < slots[b[j].0 as int]);
        }
        lemma_ascending_equal(slots, a0, b0);
        assert(a =~= a0.push(x));
        assert(b =~= b0.push(y));
    }
}

/// The deal and the slots that are gone determine the cards of a well-formed
/// deck, and their order.
pub proof fn lemma_cards_determined(a: DeckView, b: DeckView)
    requires
        a.wf(),
        b.wf(),
        a.slots == b.slots,
        a.consumed == b.consumed,
    ensures
        a.cards == b.cards,
{
    assert forall|c: Card| a.cards.contains(c) <==> b.cards.contains(c) by {
        assert(a.holds(c) <==> b.holds(c));
    }
    lemma_ascending_equal(a.slots, a.cards, b.cards);
}

/// For a positive divisor, `n` lies below the rounded-up quotient exactly when
/// `n` times the divisor lies below the dividend.
pub proof fn lemma_ceil_div(x: int, k: int, n: int)
    requires
        x >= 0,
        k >= 1,
    ensures
        ceil_div(x, k) >= 0,
        n < ceil_div(x, k) <==> n * k < x,
{
    let q = (x + k - 1) / k;
    let r = (x + k - 1) % k;
    assert(x + k - 1 == k * q + r && 0 <= r < k) by (nonlinear_arith)
        requires
            k >= 1,
            q == (x + k - 1) / k,
            r == (x + k - 1) % k,
    ;
    assert(q >= 0) by (nonlinear_arith)
        requires
            k >= 1,
            x >= 0,
            x + k - 1 == k * q + r,
            0 <= r < k,
    ;
    assert(n < q <==> n * k < x) by (nonlinear_arith)
        requires
            k >= 1,
            x + k - 1 == k * q + r,
            0 <= r < k,
    ;
}

/// A remainder steps up by one, or falls back to zero from the top.
proof fn lemma_mod_succ(x: int, t: int)
    requires
        x >= 0,
        t >= 1,
    ensures
        0 <= x % t < t,
        (x + 1) % t == if x % t + 1 < t {
            x % t + 1
        } else {
            0
        },
{
    assert(0 <= x % t < t && ((x + 1) % t == if x % t + 1 < t {
        x % t + 1
    } else {
        0
    })) by (nonlinear_arith)
        requires
            x >= 0,
            t >= 1,
    ;
}

impl DeckView {
    /// After any number of deals the cursor lies within the deck.
    pub proof fn lemma_offset_in_range(self, n: int)
        requires
            self.wf(),
            n >= 0,
        ensures
            0 <= self.offset_after(n) <= self.len(),
    {
        let to_end = ceil_div(self.len() - self.cursor, self.step);
        let total = ceil_div(self.len(), self.step) + 1;
        lemma_ceil_div(self.len(), self.step, 0);
        if n <= to_end {
            assert(self.step * n >= 0) by (nonlinear_arith)
                requires
                    self.step >= 1,
                    n >= 0,
            ;
        } else {
            let m = (n - to_end - 1) % total;
            lemma_mod_succ(n - to_end - 1, total);
            assert(self.step * m >= 0) by (nonlinear_arith)
                requires
                    self.step >= 1,
                    m >= 0,
            ;
        }
    }

    /// One more deal moves the cursor as [`DeckView::next_offset`] says, from
    /// wherever the deals before have brought it.
    pub proof fn lemma_offset_step(self, n: int)
        requires
            self.wf(),
            n >= 0,
        ensures
            self.offset_after(0) == self.cursor,
            self.offset_after(n + 1) == self.at(self.offset_after(n)).next_offset(),
    {
        let c = self.cursor;
        let l = self.len();
        let k = self.step;
        let to_end = ceil_div(l - c, k);
        let total = ceil_div(l, k) + 1;
        lemma_ceil_div(l - c, k, n);
        lemma_ceil_div(l - c, k, 0);
        lemma_ceil_div(l - c, k, to_end);
        lemma_ceil_div(l - c, k, to_end - 1);
        lemma_ceil_div(l, k, 0);
        assert(k * 0 == 0);
        assert(k * (n + 1) == k * n + k) by (nonlinear_arith);
        assert(k * n == n * k) by (nonlinear_arith);
        assert(k * to_end == to_end * k) by (nonlinear_arith);
        if n + 1 <= to_end {
        } else if n == to_end {
            lemma_mod_succ(0, total);
            assert(0int % total == 0);
        } else {
            let x = n - to_end - 1;
            let m = x % total;
            lemma_mod_succ(x, total);
            lemma_ceil_div(l, k, m);
            assert(k * m == m * k) by (nonlinear_arith);
            assert(k * (m + 1) == k * m + k) by (nonlinear_arith);
        }
    }

    /// From a cursor that full deals from the start pass through, or from the
    /// end of the deck, one round of the cycle comes back to the same cursor.
    pub proof fn lemma_offset_cycle(self)
        requires
            self.wf(),
            self.is_pure(),
        ensures
            self.offset_after(ceil_div(self.len(), self.step) + 1) == self.offset_after(0),
            self.offset_after(0) == self.cursor,
    {
        let c = self.cursor;
        let l = self.len();
        let k = self.step;
        let to_end = ceil_div(l - c, k);
        let full = ceil_div(l, k);
        let total = full + 1;
        lemma_ceil_div(l - c, k, 0);
        lemma_ceil_div(l, k, 0);
        lemma_ceil_div(l, k, full);
        lemma_ceil_div(l, k, full - 1);
        lemma_ceil_div(l - c, k, to_end);
        lemma_ceil_div(l - c, k, to_end - 1);
        lemma_ceil_div(l, k, to_end - 1);
        assert(k * 0 == 0);
        assert(to_end <= full);
        let x = total - to_end - 1;
        assert(x % total == x) by (nonlinear_arith)
            requires
                0 <= x < total,
        ;
        if c == l {
            assert(to_end == 0);
            assert(k * full == full * k) by (nonlinear_arith);
        } else {
            let j = c / k;
            assert(c == k * j && j >= 0) by (nonlinear_arith)
                requires
                    c % k == 0,
                    j == c / k,
                    k >= 1,
                    c >= 0,
            ;
            assert((l - c + k - 1) / k == (l + k - 1) / k - j) by (nonlinear_arith)
                requires
                    c == k * j,
                    k >= 1,
            ;
            assert(x == j);
        }
    }
}

impl DeckView {
    /// Normalizing the cursor keeps the cards, the set of cards in reach and
    /// the key, and is done once and for all.
    pub proof fn lemma_normalized_equivalent(self)
        requires
            self.wf(),
        ensures
            self.normalized().wf(),
            self.equivalent(self.normalized()),
            self.normalized().encoded() == self.encoded(),
            self.normalized().normalized() == self.normalized(),
    {
        let n = self.normalized();
        lemma_at_wf(self, self.normalized_offset());
        let k = self.step;
        let c = self.cursor;
        let l = self.len();
        if c % k == 0 {
            assert forall|i: int| 0 <= i < self.len() implies ((#[trigger] self.drawable(i))
                == Drawable::Blocked <==> n.drawable(i) == Drawable::Blocked) by {
                let j = c / k;
                vstd::arithmetic::div_mod::lemma_fundamental_div_mod(c, k);
                vstd::arithmetic::div_mod::lemma_mod_multiples_vanish(-j, i + 1, k);
                assert(k * (-j) + (i + 1) == i - c + 1) by (nonlinear_arith)
                    requires
                        c == k * j,
                ;
            }
        }
    }
}

impl DeckView {
    /// A card stands at one position only.
    pub proof fn lemma_position(self, c: Card, i: int)
        requires
            self.wf(),
            0 <= i < self.len(),
            self.cards[i] == c,
        ensures
            self.position(c) == i,
    {
        let p = self.position(c);
        if p < i {
            assert(self.slot_of(self.cards[p]) < self.slot_of(self.cards[i]));
        } else if i < p {
            assert(self.slot_of(self.cards[i]) < self.slot_of(self.cards[p]));
        }
    }

    /// Drawing a card takes that card out and no other, and the card can be
    /// put back to give the deck as it was.
    pub proof fn lemma_drawn(self, c: Card)
        requires
            self.wf(),
            self.cards.contains(c),
        ensures
            self.holds(c),
            self.drawn(c).wf(),
            self.drawn(c).slots == self.slots,
            self.drawn(c).step == self.step,
            !self.drawn(c).holds(c),
            forall|x: Card| x != c ==> (#[trigger] self.drawn(c).holds(x) <==> self.holds(x)),
            self.drawn(c).accepts(c),
            self.drawn(c).pushed(c).at(self.cursor) == self,
            0 <= self.position(c) < self.len(),
            self.cards[self.position(c)] == c,
    {
        let p = self.position(c);
        lemma_at_wf(self, p);
        lemma_popped_wf(self.at(p));
        assert(self.at(p).at(p + 1).at(self.cursor) == self);
        assert forall|x: Card| x != c implies (#[trigger] self.drawn(c).holds(x) <==> self.holds(
            x,
        )) by {
            assert(self.at(p).holds(x) <==> self.holds(x));
        }
    }
}

/// Every position of a stride lies from its start on, and its successor
/// below its end.
pub proof fn lemma_stride_range(start: int, step: int, end: int, j: int)
    requires
        step >= 1,
        0 <= j < stride(start, step, end).len(),
    ensures
        start <= stride(start, step, end)[j],
        stride(start, step, end)[j] + 1 < end,
    decreases dist(start, end),
{
    if start + 1 < end {
        let rest = stride(start + step, step, end);
        assert(stride(start, step, end) == seq![start] + rest);
        if j > 0 {
            lemma_stride_range(start + step, step, end, j - 1);
            assert(stride(start, step, end)[j] == rest[j - 1]);
        }
    }
}

impl DeckView {
    /// Every position that a move may draw from holds a card.
    pub proof fn lemma_drawables_range(self, filter: bool, k: int)
        requires
            self.wf(),
            0 <= k < self.drawables(filter).len(),
        ensures
            0 <= self.drawables(filter)[k] < self.len(),
    {
        let a: Seq<int> = if filter {
            Seq::empty()
        } else {
            stride(self.step - 1, self.step, self.cursor)
        };
        let b: Seq<int> = if self.cursor > 0 {
            seq![self.cursor - 1]
        } else {
            Seq::empty()
        };
        let c: Seq<int> = if self.cursor < self.len() {
            seq![self.len() - 1]
        } else {
            Seq::empty()
        };
        let d = stride(self.cursor + self.step - 1, self.step, self.len());
        let e: Seq<int> = if !filter && self.cursor % self.step != 0 {
            stride(self.cursor - self.cursor % self.step + self.step - 1, self.step, self.len())
        } else {
            Seq::empty()
        };
        let all = self.drawables(filter);
        assert(all == a + b + c + d + e);
        assert(self.cursor % self.step <= self.cursor) by (nonlinear_arith)
            requires
                self.cursor >= 0,
                self.step >= 1,
        ;
        if k < a.len() {
            lemma_stride_range(self.step - 1, self.step, self.cursor, k);
            assert(all[k] == a[k]);
        } else if k < a.len() + b.len() {
            assert(all[k] == b[k - a.len()]);
        } else if k < a.len() + b.len() + c.len() {
            assert(all[k] == c[k - a.len() - b.len()]);
        } else if k < a.len() + b.len() + c.len() + d.len() {
            let j = k - a.len() - b.len() - c.len();
            lemma_stride_range(self.cursor + self.step - 1, self.step, self.len(), j);
            assert(all[k] == d[j]);
        } else {
            let j = k - a.len() - b.len() - c.len() - d.len();
            lemma_stride_range(
                self.cursor - self.cursor % self.step + self.step - 1,
                self.step,
                self.len(),
                j,
            );
            assert(all[k] == e[j]);
        }
    }
}

impl DeckView {
    /// The cursor after `k` deals from the deck as it is after one deal is the
    /// cursor after `k + 1` deals.
    pub proof fn lemma_offset_shift(self, k: int)
        requires
            self.wf(),
            k >= 0,
        ensures
            self.at(self.next_offset()).wf(),
            self.at(self.next_offset()).offset_after(k) == self.offset_after(k + 1),
        decreases k,
    {
        let one = self.at(self.next_offset());
        lemma_at_wf(self, self.next_offset());
        self.lemma_offset_step(0);
        one.lemma_offset_step(0);
        if k > 0 {
            self.lemma_offset_shift(k - 1);
            one.lemma_offset_step(k - 1);
            self.lemma_offset_step(k);
            assert(one.at(one.offset_after(k - 1)) == self.at(self.offset_after(k)));
        }
    }
}

} // verus!
