//! The seven piles of cards dealt face down, the top card of each turned up.

use crate::card::{
    card_mask, from_mask, in_mask, lemma_in_mask_ops, lemma_in_mask_single, lemma_mask_index,
    mask_index, Card, KING_RANK, N_CARDS,
};
use crate::deck::{N_HIDDEN_CARDS, N_PILES};
use crate::random::shuffle_cards;
use rand::rngs::SmallRng;
use vstd::prelude::*;
use vstd::seq_lib::{to_multiset_build, to_multiset_contains, to_multiset_len, to_multiset_update};
use vstd::std_specs::bits::{axiom_u64_trailing_zeros, u64_trailing_zeros};

verus! {

/// The cards that were dealt into the seven piles, flat in one array, with
/// the count of the cards that are left of each pile.
#[derive(Debug, Clone)]
pub struct Hidden {
    hidden_piles: [Card; 28],
    n_hidden: [u8; 7],
    pile_map: [u8; 52],
    first_layer_mask: u64,
}

/// Index of the first card of pile `i` in the flat deal: `i * (i + 1) / 2`.
pub open spec fn pile_start(i: int) -> int {
    if i <= 0 {
        0
    } else if i == 1 {
        1
    } else if i == 2 {
        3
    } else if i == 3 {
        6
    } else if i == 4 {
        10
    } else if i == 5 {
        15
    } else if i == 6 {
        21
    } else {
        28
    }
}

/// The pile that holds flat index `k` of the deal.
pub open spec fn pile_index(k: int) -> int {
    if k < 1 {
        0
    } else if k < 3 {
        1
    } else if k < 6 {
        2
    } else if k < 10 {
        3
    } else if k < 15 {
        4
    } else if k < 21 {
        5
    } else {
        6
    }
}

/// Twenty-eight distinct real cards.
pub open spec fn valid_hidden_deal(cards: Seq<Card>) -> bool {
    &&& cards.len() == N_HIDDEN_CARDS
    &&& forall|k: int| 0 <= k < cards.len() ==> (#[trigger] cards[k]).0 < N_CARDS
    &&& forall|k: int, l: int|
        0 <= k < l < cards.len() ==> (#[trigger] cards[k]).0 != (#[trigger] cards[l]).0
}

/// The deal cut into its seven piles: pile `i` has `i + 1` cards, deepest first.
pub open spec fn split_piles(cards: Seq<Card>) -> Seq<Seq<Card>> {
    Seq::new(7, |i: int| cards.subrange(pile_start(i), pile_start(i) + i + 1))
}

/// What the piles are to the contracts.
pub struct HiddenView {
    /// Each pile as it was dealt, deepest card first.
    pub piles: Seq<Seq<Card>>,
    /// How many cards of each pile are still there; the last of them lies face
    /// up.
    pub counts: Seq<u8>,
    /// For each card value, the pile it was dealt into.
    pub pile_of: Seq<u8>,
    /// The bits of the deepest card of every pile.
    pub first_layer: u64,
}

impl HiddenView {
    /// Seven piles with room for `i + 1` cards in pile `i`.
    pub open spec fn wf(self) -> bool {
        &&& self.piles.len() == N_PILES
        &&& self.counts.len() == N_PILES
        &&& self.pile_of.len() == N_CARDS
        &&& forall|i: int| 0 <= i < N_PILES ==> (#[trigger] self.piles[i]).len() == i + 1
        &&& forall|i: int| 0 <= i < N_PILES ==> (#[trigger] self.counts[i]) <= i + 1
    }

    /// The piles hold distinct real cards, the reverse index knows the pile of
    /// each, and the first-layer mask is that of the deepest cards.
    pub open spec fn sound(self) -> bool {
        &&& self.wf()
        &&& forall|i: int, j: int|
            0 <= i < N_PILES && 0 <= j <= i ==> (#[trigger] self.piles[i][j]).0 < N_CARDS
                && self.pile_of[self.piles[i][j].0 as int] == i
        &&& forall|i: int, j: int, k: int|
            0 <= i < N_PILES && 0 <= j < k <= i ==> self.piles[i][j] != self.piles[i][k]
        &&& forall|c: Card|
            c.0 < 64 ==> (#[trigger] in_mask(self.first_layer, c) <==> self.in_first_layer(c))
    }

    /// `c` is the deepest card of some pile.
    pub open spec fn in_first_layer(self, c: Card) -> bool {
        exists|i: int| 0 <= i < N_PILES && (#[trigger] self.piles[i])[0] == c
    }

    /// The cards of pile `i` that are still there.
    pub open spec fn pile(self, i: int) -> Seq<Card> {
        self.piles[i].subrange(0, self.counts[i] as int)
    }

    /// The card that lies face up on pile `i`.
    pub open spec fn top(self, i: int) -> Card {
        self.piles[i][self.counts[i] - 1]
    }

    /// `c` lies face down in pile `i` at depth `j`.
    pub open spec fn down_at(self, c: Card, i: int, j: int) -> bool {
        0 <= i < N_PILES && 0 <= j < self.counts[i] - 1 && self.piles[i][j] == c
    }

    /// `c` lies face down in some pile.
    pub open spec fn is_down(self, c: Card) -> bool {
        exists|i: int, j: int| #[trigger] self.down_at(c, i, j)
    }

    /// `c` was dealt into pile `i` at depth `j`.
    pub open spec fn dealt_at(self, c: Card, i: int, j: int) -> bool {
        0 <= i < N_PILES && 0 <= j <= i && self.piles[i][j] == c
    }

    /// `c` was dealt into some pile.
    pub open spec fn dealt(self, c: Card) -> bool {
        exists|i: int, j: int| #[trigger] self.dealt_at(c, i, j)
    }

    /// `c` lies face up on pile `i`, with cards under it or below a king: a
    /// card worth moving to turn up the next one or to clear the column.
    pub open spec fn heads_at(self, c: Card, i: int) -> bool {
        0 <= i < N_PILES && self.counts[i] >= 1 && self.top(i) == c && (self.counts[i] > 1
            || c.spec_rank() < KING_RANK)
    }

    /// `c` heads some pile.
    pub open spec fn heads(self, c: Card) -> bool {
        exists|i: int| #[trigger] self.heads_at(c, i)
    }

    /// The cards that are left in the piles are real.
    pub open spec fn active_real(self) -> bool {
        forall|i: int, j: int|
            0 <= i < N_PILES && 0 <= j < self.counts[i] ==> (#[trigger] self.piles[i][j]).0
                < N_CARDS
    }

    /// The reverse index knows the pile of every card that is left.
    pub open spec fn indexed(self) -> bool {
        forall|i: int, j: int|
            0 <= i < N_PILES && 0 <= j < self.counts[i] ==> self.pile_of[(
            #[trigger] self.piles[i][j]).0 as int] == i
    }

    /// What is left of pile `i` as far as play goes: the count of its cards; but
    /// a king alone counts as an empty pile.
    pub open spec fn normal_count(self, i: int) -> u8 {
        if self.counts[i] >= 2 {
            self.counts[i]
        } else if self.counts[i] == 1 && self.piles[i][0].spec_rank() < KING_RANK {
            1
        } else {
            0
        }
    }

    /// The face-down cards of pile `i`, deepest first.
    pub open spec fn down_cards(self, i: int) -> Seq<Card> {
        if self.counts[i] >= 1 {
            self.piles[i].subrange(0, self.counts[i] - 1)
        } else {
            Seq::empty()
        }
    }

    /// `c` lies in pile `i`, face down or as its top card.
    pub open spec fn present_at(self, c: Card, i: int, j: int) -> bool {
        0 <= i < N_PILES && 0 <= j < self.counts[i] && self.piles[i][j] == c
    }

    /// Pile `i` after its top card has gone.
    pub open spec fn popped(self, i: int) -> HiddenView {
        HiddenView { counts: self.counts.update(i, (self.counts[i] - 1) as u8), ..self }
    }

    /// Pile `i` with the card back that last left it.
    pub open spec fn unpopped(self, i: int) -> HiddenView {
        HiddenView { counts: self.counts.update(i, (self.counts[i] + 1) as u8), ..self }
    }

    /// The key of the counts from pile `i` on, in mixed radix: pile `i` is a
    /// digit of radix `i + 2`.
    pub open spec fn encoded_from(self, i: int) -> int
        decreases N_PILES - i,
    {
        if i >= N_PILES || i < 0 {
            0
        } else {
            self.counts[i] + (i + 2) * self.encoded_from(i + 1)
        }
    }

    /// Number of cards that lie face down in the piles from `i` on.
    pub open spec fn down_from(self, i: int) -> int
        decreases N_PILES - i,
    {
        if i >= N_PILES || i < 0 {
            0
        } else {
            (if self.counts[i] > 0 {
                self.counts[i] - 1
            } else {
                0
            }) + self.down_from(i + 1)
        }
    }
}

/// Product of the radices of the piles from `i` on.
pub open spec fn radix_from(i: int) -> int
    decreases N_PILES - i,
{
    if i >= N_PILES || i < 0 {
        1
    } else {
        (i + 2) * radix_from(i + 1)
    }
}

/// What is left of the key `e` when the digits of the piles below `i` are
/// taken off.
pub open spec fn key_rest(e: int, i: int) -> int
    decreases i,
{
    if i <= 0 {
        e
    } else {
        key_rest(e, i - 1) / (i + 1)
    }
}

impl View for Hidden {
    type V = HiddenView;

    closed spec fn view(&self) -> HiddenView {
        HiddenView {
            piles: split_piles(self.hidden_piles@),
            counts: self.n_hidden@,
            pile_of: self.pile_map@,
            first_layer: self.first_layer_mask,
        }
    }
}

/// The piles lie one after the other in the flat deal.
pub proof fn lemma_pile_start(i: int)
    requires
        0 <= i < N_PILES,
    ensures
        i * (i + 1) == 2 * pile_start(i),
        pile_start(i + 1) == pile_start(i) + i + 1,
{
    assert(i * (i + 1) == 2 * pile_start(i)) by (nonlinear_arith)
        requires
            0 <= i < 7,
            pile_start(i) == (if i == 0 {
                0int
            } else if i == 1 {
                1
            } else if i == 2 {
                3
            } else if i == 3 {
                6
            } else if i == 4 {
                10
            } else if i == 5 {
                15
            } else {
                21
            }),
    ;
}

pub proof fn lemma_radix()
    ensures
        radix_from(7) == 1,
        radix_from(6) == 8,
        radix_from(5) == 56,
        radix_from(4) == 336,
        radix_from(3) == 1680,
        radix_from(2) == 6720,
        radix_from(1) == 20160,
        radix_from(0) == 40320,
{
    assert(radix_from(7) == 1);
    assert(radix_from(6) == 8 * radix_from(7));
    assert(radix_from(5) == 7 * radix_from(6));
    assert(radix_from(4) == 6 * radix_from(5));
    assert(radix_from(3) == 5 * radix_from(4));
    assert(radix_from(2) == 4 * radix_from(3));
    assert(radix_from(1) == 3 * radix_from(2));
    assert(radix_from(0) == 2 * radix_from(1));
}

impl Hidden {
    pub closed spec fn wf(&self) -> bool {
        self@.wf()
    }

    pub proof fn lemma_wf(&self)
        requires
            self.wf(),
        ensures
            self@.wf(),
    {
    }

    /// The piles of a fresh deal: pile `i` holds `i + 1` cards.
    #[must_use]
    pub fn new(hidden_piles: [Card; 28]) -> (h: Hidden)
        requires
            valid_hidden_deal(hidden_piles@),
        ensures
            h.wf(),
            h@.sound(),
            h@.piles == split_piles(hidden_piles@),
            forall|i: int| 0 <= i < N_PILES ==> h@.counts[i] == i + 1,
    {
        Self::build(hidden_piles)
    }

    fn build(hidden_piles: [Card; 28]) -> (h: Hidden)
        requires
            valid_hidden_deal(hidden_piles@),
        ensures
            h.wf(),
            h@.sound(),
            h@.piles == split_piles(hidden_piles@),
            h.hidden_piles@ == hidden_piles@,
            forall|i: int| 0 <= i < N_PILES ==> h@.counts[i] == i + 1,
    {
        let mut pile_map = [0u8;52];
        let mut first_layer_mask: u64 = 0;
        let mut i: u8 = 0;
        let ghost cards = hidden_piles@;
        proof {
            assert forall|c: Card| c.0 < 64 implies !in_mask(0, c) by {
                lemma_in_mask_ops(0, 0, c);
            }
        }
        while i < N_PILES
            invariant
                i <= N_PILES,
                cards == hidden_piles@,
                valid_hidden_deal(cards),
                forall|k: int|
                    0 <= k < pile_start(i as int) ==> pile_map@[(#[trigger] cards[k]).0 as int]
                        == pile_index(k),
                forall|c: Card|
                    c.0 < 64 ==> (#[trigger] in_mask(first_layer_mask, c) <==> exists|t: int|
                        0 <= t < i && cards[pile_start(t)] == c),
            decreases N_PILES - i,
        {
            proof {
                lemma_pile_start(i as int);
            }
            let start = i * (i + 1) / 2;
            let end = start + i + 1;
            let first = hidden_piles[start as usize];
            let m = card_mask(&first);
            proof {
                assert forall|c: Card| c.0 < 64 implies (#[trigger] in_mask(first_layer_mask | m, c)
                    <==> exists|t: int| 0 <= t < i + 1 && cards[pile_start(t)] == c) by {
                    lemma_in_mask_ops(first_layer_mask, m, c);
                    lemma_in_mask_single(first, c);
                    if in_mask(first_layer_mask, c) {
                        let t = choose|t: int| 0 <= t < i && cards[pile_start(t)] == c;
                        assert(0 <= t < i + 1 && cards[pile_start(t)] == c);
                    }
                    if first == c {
                        assert(cards[pile_start(i as int)] == c);
                    }
                    if exists|t: int| 0 <= t < i + 1 && cards[pile_start(t)] == c {
                        let t = choose|t: int| 0 <= t < i + 1 && cards[pile_start(t)] == c;
                        if t < i {
                            assert(in_mask(first_layer_mask, c));
                        }
                    }
                }
            }
            first_layer_mask |= m;
            let mut k: u8 = start;
            while k < end
                invariant
                    start <= k <= end,
                    i < N_PILES,
                    start == pile_start(i as int),
                    end == pile_start(i + 1),
                    cards == hidden_piles@,
                    valid_hidden_deal(cards),
                    forall|l: int|
                        0 <= l < k ==> pile_map@[(#[trigger] cards[l]).0 as int] == pile_index(l),
                decreases end - k,
            {
                let ghost before = pile_map@;
                pile_map[hidden_piles[k as usize].value() as usize] = i;
                proof {
                    assert forall|l: int| 0 <= l < k + 1 implies pile_map@[(
                    #[trigger] cards[l]).0 as int] == pile_index(l) by {
                        if l < k {
                            assert(cards[l].0 != cards[k as int].0);
                            assert(before[cards[l].0 as int] == pile_index(l));
                        }
                    }
                }
                k += 1;
            }
            i += 1;
        }
        let h = Hidden {
            hidden_piles,
            n_hidden: [1, 2, 3, 4, 5, 6, 7],
            pile_map,
            first_layer_mask,
        };
        proof {
            let v = h@;
            assert forall|i: int, j: int| 0 <= i < N_PILES && 0 <= j <= i implies (
            #[trigger] v.piles[i][j]).0 < N_CARDS && v.pile_of[v.piles[i][j].0 as int] == i by {
                let k = pile_start(i) + j;
                assert(v.piles[i][j] == cards[k]);
                assert(pile_index(k) == i);
            }
            assert forall|i: int, j: int, k: int| 0 <= i < N_PILES && 0 <= j < k <= i implies v.piles[i][j]
                != v.piles[i][k] by {
                assert(cards[pile_start(i) + j].0 != cards[pile_start(i) + k].0);
            }
            assert forall|c: Card| c.0 < 64 implies (#[trigger] in_mask(v.first_layer, c)
                <==> v.in_first_layer(c)) by {
                if in_mask(v.first_layer, c) {
                    let t = choose|t: int| 0 <= t < 7 && cards[pile_start(t)] == c;
                    assert(v.piles[t][0] == c);
                }
                if v.in_first_layer(c) {
                    let t = choose|t: int| 0 <= t < N_PILES && (#[trigger] v.piles[t])[0] == c;
                    assert(cards[pile_start(t)] == c);
                }
            }
        }
        h
    }

    /// Number of cards that are left of pile `pos`, its face-up top card
    /// included.
    #[must_use]
    pub fn len(&self, pos: u8) -> (n: u8)
        requires
            self.wf(),
            pos < N_PILES,
        ensures
            n == self@.counts[pos as int],
            n <= pos + 1,
    {
        self.n_hidden[pos as usize]
    }

    fn get_start(pos: u8) -> (start: usize)
        requires
            pos < N_PILES,
        ensures
            start == pile_start(pos as int),
    {
        proof {
            lemma_pile_start(pos as int);
        }
        (pos * (pos + 1) / 2) as usize
    }

    /// The cards that are left of pile `pos`, deepest first.
    #[must_use]
    pub fn get(&self, pos: u8) -> (p: &[Card])
        requires
            self.wf(),
            pos < N_PILES,
        ensures
            p@ == self@.pile(pos as int),
    {
        let start = Self::get_start(pos);
        let end = start + self.n_hidden[pos as usize] as usize;
        let p = vstd::slice::slice_subrange(self.hidden_piles.as_slice(), start, end);
        proof {
            assert(self@.piles[pos as int].len() == pos + 1);
            assert(p@ =~= self@.pile(pos as int));
        }
        p
    }

    /// Writes `card` at depth `j` of pile `pos`, among the cards that are left
    /// of it. Nothing else changes: the reverse index and the first-layer
    /// mask stay as they were.
    pub fn set_card(&mut self, pos: u8, j: u8, card: Card)
        requires
            old(self).wf(),
            pos < N_PILES,
            j < old(self)@.counts[pos as int],
        ensures
            final(self).wf(),
            final(self)@ == (HiddenView {
                piles: old(self)@.piles.update(
                    pos as int,
                    old(self)@.piles[pos as int].update(j as int, card),
                ),
                ..old(self)@
            }),
    {
        let start = Self::get_start(pos);
        let ghost before = self.hidden_piles@;
        proof {
            lemma_pile_start(pos as int);
        }
        self.hidden_piles[start + j as usize] = card;
        proof {
            let k = start + j;
            let after = self.hidden_piles@;
            let want = old(self)@.piles.update(
                pos as int,
                old(self)@.piles[pos as int].update(j as int, card),
            );
            assert forall|i: int| 0 <= i < N_PILES implies #[trigger] split_piles(after)[i]
                == want[i] by {
                lemma_pile_start(i);
                if i == pos {
                    assert(split_piles(after)[i] =~= want[i]);
                } else {
                    assert forall|q: int| 0 <= q < pos implies pile_start(q) + q + 1 <= pile_start(
                        pos as int,
                    ) by {
                        lemma_pile_start(q);
                    }
                    assert forall|q: int| pos < q < N_PILES implies pile_start(pos as int) + pos + 1
                        <= pile_start(q) by {
                        lemma_pile_start(q);
                    }
                    assert(split_piles(after)[i] =~= split_piles(before)[i]);
                }
            }
            assert(split_piles(after) =~= want);
        }
    }

    /// The card that lies face up on pile `pos`.
    #[must_use]
    pub fn peek(&self, pos: u8) -> (r: Option<&Card>)
        requires
            self.wf(),
            pos < N_PILES,
        ensures
            match r {
                Some(c) => self@.counts[pos as int] > 0 && *c == self@.top(pos as int),
                None => self@.counts[pos as int] == 0,
            },
    {
        let n = self.n_hidden[pos as usize];
        if n == 0 {
            None
        } else {
            let start = Self::get_start(pos);
            proof {
                assert(self@.piles[pos as int].len() == pos + 1);
            }
            Some(&self.hidden_piles[start + n as usize - 1])
        }
    }

    /// Takes the top card off pile `pos`, and shows the card under it.
    pub fn pop(&mut self, pos: u8) -> (r: Option<&Card>)
        requires
            old(self).wf(),
            pos < N_PILES,
            old(self)@.counts[pos as int] > 0,
        ensures
            final(self).wf(),
            final(self)@ == old(self)@.popped(pos as int),
            match r {
                Some(c) => old(self)@.counts[pos as int] > 1 && *c == final(self)@.top(pos as int),
                None => old(self)@.counts[pos as int] == 1,
            },
    {
        self.n_hidden[pos as usize] -= 1;
        proof {
            assert(self@.counts =~= old(self)@.popped(pos as int).counts);
        }
        self.peek(pos)
    }

    /// Puts back the card that [`Hidden::pop`] took off pile `pos`.
    pub fn unpop(&mut self, pos: u8)
        requires
            old(self).wf(),
            pos < N_PILES,
            old(self)@.counts[pos as int] <= pos,
        ensures
            final(self).wf(),
            final(self)@ == old(self)@.unpopped(pos as int),
    {
        self.n_hidden[pos as usize] += 1;
        proof {
            assert(self@.counts =~= old(self)@.unpopped(pos as int).counts);
        }
    }

    /// The pile that `c` was dealt into.
    #[must_use]
    pub fn find(&self, c: &Card) -> (pos: u8)
        requires
            self.wf(),
            c.0 < N_CARDS,
        ensures
            pos == self@.pile_of[c.0 as int],
    {
        self.pile_map[c.value() as usize]
    }

    /// No card lies face down any more.
    #[must_use]
    pub fn all_turn_up(&self) -> (b: bool)
        requires
            self.wf(),
        ensures
            b == (forall|i: int| 0 <= i < N_PILES ==> self@.counts[i] <= 1),
    {
        let mut i: usize = 0;
        while i < 7
            invariant
                i <= 7,
                self.wf(),
                forall|j: int| 0 <= j < i ==> self@.counts[j] <= 1,
            decreases 7 - i,
        {
            if self.n_hidden[i] > 1 {
                return false;
            }
            i += 1;
        }
        true
    }

    /// Number of cards that lie face down.
    #[must_use]
    pub fn total_down_cards(&self) -> (n: u8)
        requires
            self.wf(),
        ensures
            n == self@.down_from(0),
            n <= 21,
    {
        let mut i: usize = 7;
        let mut n: u8 = 0;
        while i > 0
            invariant
                i <= 7,
                self.wf(),
                n == self@.down_from(i as int),
                n <= 28 - pile_start(i as int) - (7 - i),
            decreases i,
        {
            i -= 1;
            n += self.n_hidden[i].saturating_sub(1);
        }
        n
    }

    /// The counts as one number in mixed radix, below 40320.
    #[must_use]
    pub fn encode(&self) -> (e: u16)
        requires
            self.wf(),
        ensures
            e == self@.encoded_from(0),
            e < 40320,
    {
        let mut i: usize = 7;
        let mut res: u16 = 0;
        proof {
            lemma_radix();
        }
        while i > 0
            invariant
                i <= 7,
                self.wf(),
                res == self@.encoded_from(i as int),
                res < radix_from(i as int),
                radix_from(0) == 40320,
            decreases i,
        {
            i -= 1;
            proof {
                let r = radix_from(i + 1);
                let x = res as int;
                let d = i + 2;
                let n = self@.counts[i as int] as int;
                assert(x * d + n < d * r && x * d == d * x) by (nonlinear_arith)
                    requires
                        0 <= x < r,
                        0 <= n < d,
                ;
                lemma_radix();
            }
            res = res * (i as u16 + 2) + self.n_hidden[i] as u16;
        }
        res
    }

    /// Sets the counts to those that the key `hidden_encode` records.
    pub fn decode(&mut self, hidden_encode: u16)
        requires
            old(self).wf(),
        ensures
            final(self).wf(),
            final(self)@.piles == old(self)@.piles,
            final(self)@.pile_of == old(self)@.pile_of,
            final(self)@.first_layer == old(self)@.first_layer,
            forall|i: int|
                0 <= i < N_PILES ==> #[trigger] final(self)@.counts[i] == key_rest(
                    hidden_encode as int,
                    i,
                ) % (i + 2),
    {
        let mut e = hidden_encode;
        let mut i: u8 = 0;
        while i < N_PILES
            invariant
                i <= N_PILES,
                self.wf(),
                self@.piles == old(self)@.piles,
                self@.pile_of == old(self)@.pile_of,
                self@.first_layer == old(self)@.first_layer,
                e == key_rest(hidden_encode as int, i as int),
                forall|j: int|
                    0 <= j < i ==> #[trigger] self@.counts[j] == key_rest(hidden_encode as int, j)
                        % (j + 2),
            decreases N_PILES - i,
        {
            let n_options = i as u16 + 2;
            self.n_hidden[i as usize] = (e % n_options) as u8;
            e = e / n_options;
            i += 1;
        }
    }

    /// The cards that lie face down, as a bitboard.
    #[must_use]
    pub fn mask(&self) -> (m: u64)
        requires
            self.wf(),
            self@.sound(),
        ensures
            forall|c: Card| c.0 < 64 ==> (#[trigger] in_mask(m, c) <==> self@.is_down(c)),
    {
        let mut m: u64 = 0;
        let mut pos: u8 = 0;
        proof {
            assert forall|c: Card| c.0 < 64 implies !in_mask(0, c) by {
                lemma_in_mask_ops(0, 0, c);
            }
        }
        while pos < N_PILES
            invariant
                pos <= N_PILES,
                self.wf(),
                self@.sound(),
                forall|c: Card|
                    c.0 < 64 ==> (#[trigger] in_mask(m, c) <==> exists|i: int, j: int|
                        0 <= i < pos && #[trigger] self@.down_at(c, i, j)),
            decreases N_PILES - pos,
        {
            let n = self.n_hidden[pos as usize];
            let start = Self::get_start(pos);
            let mut j: u8 = 0;
            while j + 1 < n
                invariant
                    pos < N_PILES,
                    n == self@.counts[pos as int],
                    n <= pos + 1,
                    j <= n,
                    start == pile_start(pos as int),
                    self.wf(),
                    self@.sound(),
                    forall|c: Card|
                        c.0 < 64 ==> (#[trigger] in_mask(m, c) <==> exists|i: int, k: int|
                            (0 <= i < pos || (i == pos && k < j)) && #[trigger] self@.down_at(
                                c,
                                i,
                                k,
                            )),
                decreases n - j,
            {
                let card = self.hidden_piles[start + j as usize];
                proof {
                    assert(self@.piles[pos as int].len() == pos + 1);
                    assert(card == self@.piles[pos as int][j as int]);
                    assert(self@.piles[pos as int][j as int].0 < N_CARDS);
                }
                let bit = card_mask(&card);
                proof {
                    assert forall|c: Card| c.0 < 64 implies (#[trigger] in_mask(m | bit, c)
                        <==> exists|i: int, k: int|
                        (0 <= i < pos || (i == pos && k < j + 1)) && #[trigger] self@.down_at(
                            c,
                            i,
                            k,
                        )) by {
                        lemma_in_mask_ops(m, bit, c);
                        lemma_in_mask_single(card, c);
                        if in_mask(m, c) {
                            let (i, k) = choose|i: int, k: int|
                                (0 <= i < pos || (i == pos && k < j)) && #[trigger] self@.down_at(
                                    c,
                                    i,
                                    k,
                                );
                            assert((0 <= i < pos || (i == pos && k < j + 1)) && self@.down_at(
                                c,
                                i,
                                k,
                            ));
                        }
                        if card == c {
                            assert(self@.down_at(c, pos as int, j as int));
                        }
                        if exists|i: int, k: int|
                            (0 <= i < pos || (i == pos && k < j + 1)) && #[trigger] self@.down_at(
                                c,
                                i,
                                k,
                            ) {
                            let (i, k) = choose|i: int, k: int|
                                (0 <= i < pos || (i == pos && k < j + 1)) && #[trigger] self@.down_at(
                                    c,
                                    i,
                                    k,
                                );
                            if !(i == pos && k == j) {
                                assert((0 <= i < pos || (i == pos && k < j)) && self@.down_at(
                                    c,
                                    i,
                                    k,
                                ));
                            }
                        }
                    }
                }
                m |= bit;
                j += 1;
            }
            proof {
                assert forall|c: Card| c.0 < 64 implies (#[trigger] in_mask(m, c) <==> exists|
                    i: int,
                    k: int,
                | 0 <= i < pos + 1 && #[trigger] self@.down_at(c, i, k)) by {
                    if in_mask(m, c) {
                        let (i, k) = choose|i: int, k: int|
                            (0 <= i < pos || (i == pos && k < j)) && #[trigger] self@.down_at(
                                c,
                                i,
                                k,
                            );
                        assert(0 <= i < pos + 1 && self@.down_at(c, i, k));
                    }
                    if exists|i: int, k: int| 0 <= i < pos + 1 && #[trigger] self@.down_at(c, i, k) {
                        let (i, k) = choose|i: int, k: int|
                            0 <= i < pos + 1 && #[trigger] self@.down_at(c, i, k);
                        assert((0 <= i < pos || (i == pos && k < j)) && self@.down_at(c, i, k));
                    }
                }
            }
            pos += 1;
        }
        proof {
            assert forall|c: Card| c.0 < 64 implies (#[trigger] in_mask(m, c) <==> self@.is_down(
                c,
            )) by {
                if in_mask(m, c) {
                    let (i, k) = choose|i: int, k: int|
                        0 <= i < pos && #[trigger] self@.down_at(c, i, k);
                    assert(self@.down_at(c, i, k));
                }
                if self@.is_down(c) {
                    let (i, k) = choose|i: int, k: int| #[trigger] self@.down_at(c, i, k);
                    assert(0 <= i < pos && self@.down_at(c, i, k));
                }
            }
        }
        m
    }

    /// Whether the reverse index knows the pile of every card that is left.
    #[must_use]
    pub fn is_valid(&self) -> (b: bool)
        requires
            self.wf(),
            self@.active_real(),
        ensures
            b == self@.indexed(),
    {
        let mut pos: u8 = 0;
        while pos < N_PILES
            invariant
                pos <= N_PILES,
                self.wf(),
                self@.active_real(),
                forall|i: int, j: int|
                    0 <= i < pos && 0 <= j < self@.counts[i] ==> self@.pile_of[(
                    #[trigger] self@.piles[i][j]).0 as int] == i,
            decreases N_PILES - pos,
        {
            let pile = self.get(pos);
            let mut j: usize = 0;
            while j < pile.len()
                invariant
                    pos < N_PILES,
                    j <= pile.len(),
                    self.wf(),
                    self@.active_real(),
                    pile@ == self@.pile(pos as int),
                    forall|k: int|
                        0 <= k < j ==> self@.pile_of[(#[trigger] self@.piles[pos as int][k]).0 as int]
                            == pos,
                decreases pile.len() - j,
            {
                proof {
                    assert(self@.piles[pos as int].len() == pos + 1);
                    assert(pile@[j as int] == self@.piles[pos as int][j as int]);
                    assert(self@.piles[pos as int][j as int].0 < N_CARDS);
                }
                if self.pile_map[pile[j].value() as usize] != pos {
                    return false;
                }
                j += 1;
            }
            proof {
                assert(self@.piles[pos as int].len() == pos + 1);
            }
            pos += 1;
        }
        true
    }

    /// For each pile, what is left of it as far as play goes.
    #[must_use]
    pub fn normalize(&self) -> (r: [u8; 7])
        requires
            self.wf(),
        ensures
            forall|i: int| 0 <= i < N_PILES ==> #[trigger] r@[i] == self@.normal_count(i),
    {
        let mut r = [0u8;7];
        let mut pos: u8 = 0;
        while pos < N_PILES
            invariant
                pos <= N_PILES,
                self.wf(),
                forall|i: int| 0 <= i < pos ==> #[trigger] r@[i] == self@.normal_count(i),
            decreases N_PILES - pos,
        {
            let n = self.n_hidden[pos as usize];
            let v = if n >= 2 {
                n
            } else if n == 1 {
                let start = Self::get_start(pos);
                proof {
                    assert(self@.piles[pos as int].len() == pos + 1);
                }
                if self.hidden_piles[start].rank() < KING_RANK {
                    1
                } else {
                    0
                }
            } else {
                0
            };
            r[pos as usize] = v;
            pos += 1;
        }
        r
    }

    /// The face-down cards of each pile, deepest first.
    #[must_use]
    pub fn to_piles(&self) -> (r: Vec<Vec<Card>>)
        requires
            self.wf(),
        ensures
            r@.len() == N_PILES,
            forall|i: int| 0 <= i < N_PILES ==> (#[trigger] r@[i])@ == self@.down_cards(i),
    {
        let mut r: Vec<Vec<Card>> = Vec::new();
        let mut pos: u8 = 0;
        while pos < N_PILES
            invariant
                pos <= N_PILES,
                self.wf(),
                r@.len() == pos,
                forall|i: int| 0 <= i < pos ==> (#[trigger] r@[i])@ == self@.down_cards(i),
            decreases N_PILES - pos,
        {
            let pile = self.get(pos);
            let mut down: Vec<Card> = Vec::new();
            let mut j: usize = 0;
            proof {
                assert(self@.piles[pos as int].len() == pos + 1);
            }
            while j + 1 < pile.len()
                invariant
                    pos < N_PILES,
                    j <= pile.len(),
                    j + 1 <= pile.len() || pile.len() == 0,
                    pile.len() <= 7,
                    pile@ == self@.pile(pos as int),
                    down@ == pile@.subrange(0, j as int),
                decreases pile.len() - j,
            {
                down.push(pile[j]);
                proof {
                    assert(down@ =~= pile@.subrange(0, j + 1));
                }
                j += 1;
            }
            proof {
                assert(pile@.len() == self@.counts[pos as int]);
                if pile@.len() > 0 {
                    assert(j == pile@.len() - 1);
                    assert(pile@.subrange(0, j as int) =~= self@.piles[pos as int].subrange(
                        0,
                        self@.counts[pos as int] - 1,
                    ));
                }
                assert(down@ =~= self@.down_cards(pos as int));
            }
            r.push(down);
            pos += 1;
        }
        r
    }

    /// Lays the cards of one pile into the flat deal and the reverse index.
    fn lay_pile(
        flat: &mut [Card; 28],
        map: &mut [u8; 52],
        pos: u8,
        pile: &Vec<Card>,
        top: Option<Card>,
    ) -> (n: usize)
        requires
            pos < N_PILES,
            whole_pile(pile@, top).len() <= pos + 1,
            forall|k: int| 0 <= k < pile@.len() ==> (#[trigger] pile@[k]).0 < N_CARDS,
            top.is_some() ==> top.unwrap().0 < N_CARDS,
        ensures
            n == whole_pile(pile@, top).len(),
            final(flat)@.subrange(pile_start(pos as int), pile_start(pos as int) + n) == whole_pile(
                pile@,
                top,
            ),
            forall|k: int|
                0 <= k < pile_start(pos as int) ==> #[trigger] final(flat)@[k] == old(flat)@[k],
            forall|c: Card|
                c.0 < N_CARDS ==> #[trigger] final(map)@[c.0 as int] == (if whole_pile(
                    pile@,
                    top,
                ).contains(c) {
                    pos
                } else {
                    old(map)@[c.0 as int]
                }),
    {
        let start = Self::get_start(pos);
        let ghost map0 = map@;
        let ghost flat0 = flat@;
        let mut j: usize = 0;
        proof {
            lemma_pile_start(pos as int);
        }
        while j < pile.len()
            invariant
                pos < N_PILES,
                j <= pile.len(),
                pile@.len() <= pos + 1,
                start == pile_start(pos as int),
                pile_start(pos + 1) == start + pos + 1,
                forall|k: int| 0 <= k < pile@.len() ==> (#[trigger] pile@[k]).0 < N_CARDS,
                forall|k: int| 0 <= k < start ==> #[trigger] flat@[k] == flat0[k],
                flat@.subrange(start as int, start + j) == pile@.subrange(0, j as int),
                forall|c: Card|
                    c.0 < N_CARDS ==> #[trigger] map@[c.0 as int] == (if pile@.subrange(
                        0,
                        j as int,
                    ).contains(c) {
                        pos
                    } else {
                        map0[c.0 as int]
                    }),
            decreases pile.len() - j,
        {
            let c = pile[j];
            flat[start + j] = c;
            map[c.value() as usize] = pos;
            proof {
                assert(flat@.subrange(start as int, start + j + 1) =~= pile@.subrange(0, j + 1));
                let head = pile@.subrange(0, j as int);
                let next = pile@.subrange(0, j + 1);
                assert(next =~= head.push(c));
                assert forall|x: Card| x.0 < N_CARDS implies #[trigger] map@[x.0 as int] == (
                if next.contains(x) {
                    pos
                } else {
                    map0[x.0 as int]
                }) by {
                    if head.contains(x) {
                        let k = choose|k: int| 0 <= k < head.len() && head[k] == x;
                        assert(next[k] == x);
                    }
                    if next.contains(x) && x != c {
                        let k = choose|k: int| 0 <= k < next.len() && next[k] == x;
                        assert(head[k] == x);
                    }
                    if x == c {
                        assert(next[j as int] == x);
                    }
                }
            }
            j += 1;
        }
        let mut n = pile.len();
        match top {
            Some(c) => {
                flat[start + n] = c;
                map[c.value() as usize] = pos;
                n = n + 1;
            },
            None => {},
        }
        proof {
            let all = whole_pile(pile@, top);
            assert(pile@.subrange(0, pile@.len() as int) =~= pile@);
            assert(flat@.subrange(start as int, start + n) =~= all);
            assert forall|x: Card| x.0 < N_CARDS implies #[trigger] map@[x.0 as int] == (
            if all.contains(x) {
                pos
            } else {
                map0[x.0 as int]
            }) by {
                if pile@.contains(x) {
                    let k = choose|k: int| 0 <= k < pile@.len() && pile@[k] == x;
                    assert(all[k] == x);
                }
                if all.contains(x) {
                    let k = choose|k: int| 0 <= k < all.len() && all[k] == x;
                    if k < pile@.len() {
                        assert(pile@[k] == x);
                    }
                }
                if top == Some(x) {
                    assert(all[pile@.len() as int] == x);
                }
            }
        }
        n
    }

    /// The piles with the given face-down cards, and on each the face-up card
    /// of `top` if there is one. Pile `i` has room for `i + 1` cards.
    #[must_use]
    pub fn from_piles(piles: &Vec<Vec<Card>>, top: &Vec<Option<Card>>) -> (h: Hidden)
        requires
            piles@.len() == N_PILES,
            top@.len() == N_PILES,
            forall|i: int|
                0 <= i < N_PILES ==> (#[trigger] piles@[i])@.len() + (if top@[i].is_some() {
                    1int
                } else {
                    0
                }) <= i + 1,
            forall|i: int, j: int|
                0 <= i < N_PILES && 0 <= j < piles@[i]@.len() ==> (#[trigger] piles@[i]@[j]).0
                    < N_CARDS,
            forall|i: int|
                0 <= i < N_PILES && (#[trigger] top@[i]).is_some() ==> top@[i].unwrap().0 < N_CARDS,
        ensures
            h.wf(),
            h@.active_real(),
            forall|i: int|
                0 <= i < N_PILES ==> #[trigger] h@.pile(i) == piles@[i]@ + (match top@[i] {
                    Some(c) => seq![c],
                    None => Seq::<Card>::empty(),
                }),
            forall|c: Card|
                c.0 < 64 ==> (#[trigger] in_mask(h@.first_layer, c) <==> exists|i: int|
                    0 <= i < N_PILES && h@.counts[i] > 0 && (#[trigger] h@.piles[i])[0] == c),
            forall|c: Card, i: int|
                0 <= i < N_PILES && #[trigger] whole_pile(piles@[i]@, top@[i]).contains(c) && (
                forall|k: int| i < k < N_PILES ==> !whole_pile(piles@[k]@, top@[k]).contains(c))
                    ==> h@.pile_of[c.0 as int] == i,
    {
        let mut hidden_piles = [Card::fake();28];
        let mut n_hidden = [0u8;7];
        let mut pile_map = [0u8;52];
        let mut first_layer_mask: u64 = 0;
        let mut pos: u8 = 0;
        proof {
            assert forall|c: Card| c.0 < 64 implies !in_mask(0, c) by {
                lemma_in_mask_ops(0, 0, c);
            }
        }
        while pos < N_PILES
            invariant
                pos <= N_PILES,
                piles@.len() == N_PILES,
                top@.len() == N_PILES,
                forall|i: int|
                    0 <= i < N_PILES ==> (#[trigger] piles@[i])@.len() + (if top@[i].is_some() {
                        1int
                    } else {
                        0
                    }) <= i + 1,
                forall|i: int, j: int|
                    0 <= i < N_PILES && 0 <= j < piles@[i]@.len() ==> (#[trigger] piles@[i]@[j]).0
                        < N_CARDS,
                forall|i: int|
                    0 <= i < N_PILES && (#[trigger] top@[i]).is_some() ==> top@[i].unwrap().0
                        < N_CARDS,
                forall|i: int| 0 <= i < N_PILES ==> (#[trigger] n_hidden@[i]) <= i + 1,
                forall|c: Card, i: int|
                    0 <= i < pos && #[trigger] whole_pile(piles@[i]@, top@[i]).contains(c) && (
                    forall|k: int| i < k < pos ==> !whole_pile(piles@[k]@, top@[k]).contains(c))
                        ==> pile_map@[c.0 as int] == i,
                forall|i: int|
                    0 <= i < pos ==> hidden_piles@.subrange(
                        pile_start(i),
                        pile_start(i) + (#[trigger] n_hidden@[i]),
                    ) == piles@[i]@ + (match top@[i] {
                        Some(c) => seq![c],
                        None => Seq::<Card>::empty(),
                    }),
                forall|c: Card|
                    c.0 < 64 ==> (#[trigger] in_mask(first_layer_mask, c) <==> exists|i: int|
                        0 <= i < pos && n_hidden@[i] > 0 && #[trigger] hidden_piles@[pile_start(i)]
                            == c),
            decreases N_PILES - pos,
        {
            let start = Self::get_start(pos);
            let pile = &piles[pos as usize];
            let ghost flat = hidden_piles@;
            let ghost counts = n_hidden@;
            let ghost map0 = pile_map@;
            proof {
                lemma_pile_start(pos as int);
            }
            let n = Self::lay_pile(&mut hidden_piles, &mut pile_map, pos, pile, top[pos as usize]);
            proof {
                let all = whole_pile(pile@, top@[pos as int]);
                assert forall|c: Card, i: int|
                    0 <= i < pos + 1 && #[trigger] whole_pile(piles@[i]@, top@[i]).contains(c) && (
                    forall|k: int| i < k < pos + 1 ==> !whole_pile(piles@[k]@, top@[k]).contains(
                        c,
                    )) implies pile_map@[c.0 as int] == i by {
                    let w = whole_pile(piles@[i]@, top@[i]);
                    let k = choose|k: int| 0 <= k < w.len() && w[k] == c;
                    if k < piles@[i]@.len() {
                        assert(w[k] == piles@[i]@[k]);
                        assert(piles@[i]@[k].0 < N_CARDS);
                    } else {
                        assert(top@[i].unwrap().0 < N_CARDS);
                    }
                    if i < pos {
                        assert(!all.contains(c));
                        assert(map0[c.0 as int] == i);
                    }
                }
            }
            n_hidden[pos as usize] = n as u8;
            let ghost whole = piles@[pos as int]@ + (match top@[pos as int] {
                Some(c) => seq![c],
                None => Seq::<Card>::empty(),
            });
            proof {
                assert(pile@.subrange(0, pile@.len() as int) =~= pile@);
                assert(hidden_piles@.subrange(start as int, start + n) =~= whole);
                assert forall|i: int| 0 <= i < pos implies hidden_piles@.subrange(
                    pile_start(i),
                    pile_start(i) + (#[trigger] n_hidden@[i]),
                ) == piles@[i]@ + (match top@[i] {
                    Some(c) => seq![c],
                    None => Seq::<Card>::empty(),
                }) by {
                    lemma_pile_start(i);
                    assert(pile_start(i) + counts[i] <= pile_start(i + 1) <= start);
                    assert(hidden_piles@.subrange(pile_start(i), pile_start(i) + counts[i])
                        =~= flat.subrange(pile_start(i), pile_start(i) + counts[i]));
                }
            }
            let ghost fl = first_layer_mask;
            if n > 0 {
                let first = hidden_piles[start];
                proof {
                    assert(first == whole[0]);
                    if pile@.len() > 0 {
                        assert(whole[0] == pile@[0]);
                    }
                }
                let bit = card_mask(&first);
                proof {
                    assert forall|c: Card| c.0 < 64 implies (#[trigger] in_mask(fl | bit, c)
                        <==> in_mask(fl, c) || c == first) by {
                        lemma_in_mask_ops(fl, bit, c);
                        lemma_in_mask_single(first, c);
                    }
                }
                first_layer_mask |= bit;
            }
            proof {
                assert forall|c: Card| c.0 < 64 implies (#[trigger] in_mask(first_layer_mask, c)
                    <==> exists|i: int|
                    0 <= i < pos + 1 && n_hidden@[i] > 0 && #[trigger] hidden_piles@[pile_start(i)]
                        == c) by {
                    if in_mask(fl, c) {
                        let i = choose|i: int|
                            0 <= i < pos && counts[i] > 0 && #[trigger] flat[pile_start(i)] == c;
                        lemma_pile_start(i);
                        assert(hidden_piles@[pile_start(i)] == flat[pile_start(i)]);
                        assert(0 <= i < pos + 1 && n_hidden@[i] > 0 && hidden_piles@[pile_start(i)]
                            == c);
                    }
                    if n > 0 && c == hidden_piles@[start as int] {
                        assert(0 <= pos < pos + 1 && n_hidden@[pos as int] > 0
                            && hidden_piles@[pile_start(pos as int)] == c);
                    }
                    if exists|i: int|
                        0 <= i < pos + 1 && n_hidden@[i] > 0 && #[trigger] hidden_piles@[pile_start(
                            i,
                        )] == c {
                        let i = choose|i: int|
                            0 <= i < pos + 1 && n_hidden@[i] > 0
                                && #[trigger] hidden_piles@[pile_start(i)] == c;
                        if i < pos {
                            lemma_pile_start(i);
                            assert(flat[pile_start(i)] == c);
                            assert(in_mask(fl, c));
                        }
                    }
                }
            }
            pos += 1;
        }
        let h = Hidden { hidden_piles, n_hidden, pile_map, first_layer_mask };
        proof {
            let v = h@;
            assert forall|i: int| 0 <= i < N_PILES implies #[trigger] v.pile(i) == piles@[i]@ + (
            match top@[i] {
                Some(c) => seq![c],
                None => Seq::<Card>::empty(),
            }) by {
                lemma_pile_start(i);
                assert(v.pile(i) =~= hidden_piles@.subrange(
                    pile_start(i),
                    pile_start(i) + n_hidden@[i],
                ));
            }
            assert forall|i: int, j: int| 0 <= i < N_PILES && 0 <= j < v.counts[i] implies (
            #[trigger] v.piles[i][j]).0 < N_CARDS by {
                let whole = piles@[i]@ + (match top@[i] {
                    Some(c) => seq![c],
                    None => Seq::<Card>::empty(),
                });
                assert(v.pile(i) == whole);
                assert(v.pile(i)[j] == v.piles[i][j]);
                if j < piles@[i]@.len() {
                    assert(whole[j] == piles@[i]@[j]);
                } else {
                    assert(whole[j] == top@[i].unwrap());
                }
            }
            assert forall|c: Card| c.0 < 64 implies (#[trigger] in_mask(v.first_layer, c)
                <==> exists|i: int|
                0 <= i < N_PILES && v.counts[i] > 0 && (#[trigger] v.piles[i])[0] == c) by {
                if in_mask(v.first_layer, c) {
                    let i = choose|i: int|
                        0 <= i < N_PILES && n_hidden@[i] > 0 && #[trigger] hidden_piles@[pile_start(
                            i,
                        )] == c;
                    assert(v.piles[i][0] == c);
                }
                if exists|i: int|
                    0 <= i < N_PILES && v.counts[i] > 0 && (#[trigger] v.piles[i])[0] == c {
                    let i = choose|i: int|
                        0 <= i < N_PILES && v.counts[i] > 0 && (#[trigger] v.piles[i])[0] == c;
                    assert(hidden_piles@[pile_start(i)] == c);
                }
            }
        }
        h
    }

    /// The places in the flat deal of the cards that lie face down, in
    /// ascending order.
    fn down_slots(&self) -> (v: Vec<usize>)
        requires
            self.wf(),
        ensures
            forall|t: int| 0 <= t < v@.len() ==> is_down_slot(self@.counts, #[trigger] v@[t] as int),
            forall|a: int, b: int| 0 <= a < b < v@.len() ==> v@[a] < v@[b],
            forall|k: int|
                #![trigger is_down_slot(self@.counts, k)]
                is_down_slot(self@.counts, k) ==> exists|t: int|
                    0 <= t < v@.len() && #[trigger] v@[t] == k,
    {
        let mut v: Vec<usize> = Vec::new();
        let mut pos: u8 = 0;
        let ghost counts = self@.counts;
        while pos < N_PILES
            invariant
                pos <= N_PILES,
                self.wf(),
                counts == self@.counts,
                forall|t: int| 0 <= t < v@.len() ==> is_down_slot(counts, #[trigger] v@[t] as int),
                forall|t: int| 0 <= t < v@.len() ==> (#[trigger] v@[t]) < pile_start(pos as int),
                forall|a: int, b: int| 0 <= a < b < v@.len() ==> v@[a] < v@[b],
                forall|k: int|
                    #![trigger is_down_slot(counts, k)]
                    is_down_slot(counts, k) && k < pile_start(pos as int) ==> exists|t: int|
                        0 <= t < v@.len() && #[trigger] v@[t] == k,
            decreases N_PILES - pos,
        {
            let start = Self::get_start(pos);
            let n = self.n_hidden[pos as usize] as usize;
            let mut j: usize = 0;
            proof {
                lemma_pile_start(pos as int);
            }
            while j + 1 < n
                invariant
                    pos < N_PILES,
                    j <= n,
                    n == counts[pos as int],
                    n <= pos + 1,
                    start == pile_start(pos as int),
                    pile_start(pos + 1) == start + pos + 1,
                    forall|t: int|
                        0 <= t < v@.len() ==> is_down_slot(counts, #[trigger] v@[t] as int),
                    forall|t: int| 0 <= t < v@.len() ==> (#[trigger] v@[t]) < start + j,
                    forall|a: int, b: int| 0 <= a < b < v@.len() ==> v@[a] < v@[b],
                    forall|k: int|
                        #![trigger is_down_slot(counts, k)]
                        is_down_slot(counts, k) && k < start + j ==> exists|t: int|
                            0 <= t < v@.len() && #[trigger] v@[t] == k,
                decreases n - j,
            {
                let ghost before = v@;
                v.push(start + j);
                proof {
                    assert(pile_index(start + j) == pos);
                    assert forall|k: int|
                        #![trigger is_down_slot(counts, k)]
                        is_down_slot(counts, k) && k < start + j + 1 implies exists|t: int|
                        0 <= t < v@.len() && #[trigger] v@[t] == k by {
                        if k < start + j {
                            let t = choose|t: int| 0 <= t < before.len() && #[trigger] before[t] == k;
                            assert(v@[t] == k);
                        } else {
                            assert(v@[before.len() as int] == k);
                        }
                    }
                }
                j += 1;
            }
            proof {
                assert forall|k: int|
                    #![trigger is_down_slot(counts, k)]
                    is_down_slot(counts, k) && k < pile_start(pos + 1) implies exists|t: int|
                    0 <= t < v@.len() && #[trigger] v@[t] == k by {
                    if k >= start + j {
                        assert(pile_index(k) == pos);
                        assert(false);
                    }
                }
            }
            pos += 1;
        }
        v
    }

    /// Lays the cards `cards` face down in the places `slots`, in turn, and
    /// builds the reverse index and the first-layer mask anew.
    fn refill(&mut self, slots: &Vec<usize>, cards: &Vec<Card>)
        requires
            old(self).wf(),
            old(self)@.sound(),
            slots@.len() == cards@.len(),
            forall|t: int|
                0 <= t < slots@.len() ==> is_down_slot(old(self)@.counts, #[trigger] slots@[t] as int),
            forall|a: int, b: int| 0 <= a < b < slots@.len() ==> slots@[a] < slots@[b],
            cards@.to_multiset() == picked(old(self).hidden_piles@, slots@).to_multiset(),
        ensures
            final(self).wf(),
            final(self)@.sound(),
            final(self)@.counts == old(self)@.counts,
            forall|t: int|
                0 <= t < slots@.len() ==> final(self).hidden_piles@[#[trigger] slots@[t] as int]
                    == cards@[t],
            forall|k: int|
                0 <= k < 28 && !slots@.contains(k as usize) ==> #[trigger] final(self).hidden_piles@[k]
                    == old(self).hidden_piles@[k],
    {
        let ghost old_flat = self.hidden_piles@;
        let ghost taken = picked(old_flat, slots@);
        let mut flat = self.hidden_piles;
        let mut t: usize = 0;
        proof {
            assert(taken.subrange(0, 0) =~= Seq::<Card>::empty());
            assert(cards@.subrange(0, 0) =~= Seq::<Card>::empty());
        }
        while t < slots.len()
            invariant
                t <= slots@.len(),
                slots@.len() == cards@.len(),
                taken.len() == slots@.len(),
                old_flat.len() == 28,
                forall|u: int| 0 <= u < slots@.len() ==> taken[u] == old_flat[#[trigger] slots@[u] as int],
                forall|u: int| 0 <= u < slots@.len() ==> (#[trigger] slots@[u]) < 28,
                forall|a: int, b: int| 0 <= a < b < slots@.len() ==> slots@[a] < slots@[b],
                forall|u: int| 0 <= u < t ==> flat@[#[trigger] slots@[u] as int] == cards@[u],
                forall|k: int|
                    0 <= k < 28 && (forall|u: int| 0 <= u < t ==> #[trigger] slots@[u] != k)
                        ==> #[trigger] flat@[k] == old_flat[k],
                flat@.to_multiset().add(taken.subrange(0, t as int).to_multiset())
                    == old_flat.to_multiset().add(cards@.subrange(0, t as int).to_multiset()),
            decreases slots.len() - t,
        {
            let k = slots[t];
            let ghost before = flat@;
            let ghost x = before[k as int];
            let y = cards[t];
            proof {
                assert(x == old_flat[k as int]) by {
                    assert forall|u: int| 0 <= u < t implies #[trigger] slots@[u] != k by {
                        assert(slots@[u] < slots@[t as int]);
                    }
                }
                assert(taken[t as int] == x);
            }
            flat[k] = y;
            proof {
                to_multiset_update(before, k as int, y);
                to_multiset_build(taken.subrange(0, t as int), x);
                to_multiset_build(cards@.subrange(0, t as int), y);
                to_multiset_contains(before, x);
                assert(before.contains(x));
                assert(taken.subrange(0, t + 1) =~= taken.subrange(0, t as int).push(x));
                assert(cards@.subrange(0, t + 1) =~= cards@.subrange(0, t as int).push(y));
                let m = before.to_multiset();
                let a = taken.subrange(0, t as int).to_multiset();
                assert(m.insert(y).remove(x).add(a.insert(x)) =~= m.add(a).insert(y));
                let o = old_flat.to_multiset();
                let b = cards@.subrange(0, t as int).to_multiset();
                assert(o.add(b.insert(y)) =~= o.add(b).insert(y));
                assert forall|u: int| 0 <= u < t + 1 implies flat@[#[trigger] slots@[u] as int]
                    == cards@[u] by {
                    if u < t {
                        assert(slots@[u] < slots@[t as int]);
                    }
                }
            }
            t += 1;
        }
        proof {
            assert(taken.subrange(0, taken.len() as int) =~= taken);
            assert(cards@.subrange(0, cards@.len() as int) =~= cards@);
            let m = flat@.to_multiset();
            let o = old_flat.to_multiset();
            let a = taken.to_multiset();
            assert(m.add(a) == o.add(a));
            assert(m =~= o) by {
                assert forall|c: Card| m.count(c) == o.count(c) by {
                    assert(m.add(a).count(c) == o.add(a).count(c));
                }
            }
            lemma_sound_flat(self@, old_flat);
            lemma_same_cards_valid(old_flat, flat@);
            assert forall|k: int|
                0 <= k < 28 && !slots@.contains(k as usize) implies #[trigger] flat@[k]
                == old_flat[k] by {
                assert forall|u: int| 0 <= u < slots@.len() implies #[trigger] slots@[u] != k by {
                    if slots@[u] == k {
                        assert(slots@.contains(k as usize));
                    }
                }
            }
        }
        let counts = self.n_hidden;
        let mut h = Self::build(flat);
        let ghost built = h@;
        h.n_hidden = counts;
        proof {
            let v = h@;
            assert(v.piles == built.piles && v.pile_of == built.pile_of && v.first_layer
                == built.first_layer);
            assert(v.counts == old(self)@.counts);
            assert(v.wf());
            assert forall|c: Card| c.0 < 64 implies (#[trigger] in_mask(v.first_layer, c)
                <==> v.in_first_layer(c)) by {
                assert(in_mask(built.first_layer, c) <==> built.in_first_layer(c));
                if built.in_first_layer(c) {
                    let a = choose|a: int| 0 <= a < N_PILES && (#[trigger] built.piles[a])[0] == c;
                    assert(v.piles[a][0] == c);
                }
                if v.in_first_layer(c) {
                    let a = choose|a: int| 0 <= a < N_PILES && (#[trigger] v.piles[a])[0] == c;
                    assert(built.piles[a][0] == c);
                }
            }
            assert(v.sound());
        }
        *self = h;
    }

    /// Puts the cards that lie face down in another order, which `rng` gives:
    /// the same cards lie face down afterwards, and every other card lies where
    /// it lay.
    pub fn shuffle(&mut self, rng: &mut SmallRng)
        requires
            old(self).wf(),
            old(self)@.sound(),
        ensures
            final(self).wf(),
            final(self)@.sound(),
            final(self)@.counts == old(self)@.counts,
            forall|c: Card| #[trigger] final(self)@.is_down(c) <==> old(self)@.is_down(c),
            forall|i: int, j: int|
                0 <= i < N_PILES && 0 <= j <= i && j + 1 >= old(self)@.counts[i]
                    ==> #[trigger] final(self)@.piles[i][j] == old(self)@.piles[i][j],
    {
        let slots = self.down_slots();
        let mut cards = self.gather(&slots);
        shuffle_cards(&mut cards, rng);
        proof {
            to_multiset_len(cards@);
            to_multiset_len(picked(self.hidden_piles@, slots@));
        }
        let ghost taken = picked(self.hidden_piles@, slots@);
        self.refill(&slots, &cards);
        proof {
            lemma_refilled(old(self)@, old(self).hidden_piles@, self@, self.hidden_piles@, slots@, cards@);
        }
    }

    /// Puts the cards that lie face down in the order of the bitboard: the
    /// same cards lie face down afterwards, ascending from the first pile on,
    /// and every other card lies where it lay.
    pub fn clear(&mut self)
        requires
            old(self).wf(),
            old(self)@.sound(),
        ensures
            final(self).wf(),
            final(self)@.sound(),
            final(self)@.counts == old(self)@.counts,
            forall|c: Card| #[trigger] final(self)@.is_down(c) <==> old(self)@.is_down(c),
            forall|i: int, j: int|
                0 <= i < N_PILES && 0 <= j <= i && j + 1 >= old(self)@.counts[i]
                    ==> #[trigger] final(self)@.piles[i][j] == old(self)@.piles[i][j],
            forall|i: int, j: int, k: int, l: int|
                0 <= i < N_PILES && 0 <= k < N_PILES && 0 <= j < final(self)@.counts[i] - 1 && 0 <= l
                    < final(self)@.counts[k] - 1 && (i < k || (i == k && j < l)) ==> mask_index(
                    (#[trigger] final(self)@.piles[i][j]).0,
                ) < mask_index((#[trigger] final(self)@.piles[k][l]).0),
    {
        let slots = self.down_slots();
        let ghost taken = picked(self.hidden_piles@, slots@);
        let down = self.mask();
        proof {
            self.lemma_wf();
            lemma_taken_down(self@, self.hidden_piles@, slots@);
            assert forall|c: Card| c.0 < 64 && #[trigger] in_mask(down, c) implies c.0 < 56 by {
                assert(self@.is_down(c));
                let (i, j) = choose|i: int, j: int| #[trigger] self@.down_at(c, i, j);
                assert(self@.piles[i][j].0 < N_CARDS);
            }
        }
        let cards = mask_cards(down);
        proof {
            lemma_sound_flat(self@, self.hidden_piles@);
            assert(taken.no_duplicates()) by {
                assert forall|a: int, b: int| 0 <= a < taken.len() && 0 <= b < taken.len() && a
                    != b implies taken[a] != taken[b] by {
                    if a < b {
                        assert(slots@[a] < slots@[b]);
                    } else {
                        assert(slots@[b] < slots@[a]);
                    }
                    assert(self.hidden_piles@[slots@[a] as int].0
                        != self.hidden_piles@[slots@[b] as int].0);
                }
            }
            assert forall|c: Card| c.0 < 64 implies (cards@.contains(c) <==> taken.contains(c)) by {
                assert(in_mask(down, c) <==> cards@.contains(c));
                assert(in_mask(down, c) <==> self@.is_down(c));
                assert(self@.is_down(c) <==> picked(self.hidden_piles@, slots@).contains(c));
            }
            assert forall|k: int| 0 <= k < taken.len() implies (#[trigger] taken[k]).0 < 64 by {
                assert(self.hidden_piles@[slots@[k] as int].0 < N_CARDS);
            }
            lemma_same_members(cards@, taken);
            to_multiset_len(cards@);
            to_multiset_len(taken);
        }
        self.refill(&slots, &cards);
        proof {
            lemma_refilled(old(self)@, old(self).hidden_piles@, self@, self.hidden_piles@, slots@, cards@);
            let f = self@;
            assert forall|i: int, j: int, k: int, l: int|
                0 <= i < N_PILES && 0 <= k < N_PILES && 0 <= j < f.counts[i] - 1 && 0 <= l
                    < f.counts[k] - 1 && (i < k || (i == k && j < l)) implies mask_index(
                (#[trigger] f.piles[i][j]).0,
            ) < mask_index((#[trigger] f.piles[k][l]).0) by {
                let a = pile_start(i) + j;
                let b = pile_start(k) + l;
                lemma_pile_start(i);
                lemma_pile_start(k);
                lemma_pile_order(i, k);
                assert(pile_index(a) == i);
                assert(pile_index(b) == k);
                assert(is_down_slot(f.counts, a));
                assert(is_down_slot(f.counts, b));
                let ta = choose|t: int| 0 <= t < slots@.len() && #[trigger] slots@[t] == a;
                let tb = choose|t: int| 0 <= t < slots@.len() && #[trigger] slots@[t] == b;
                if ta >= tb {
                    if ta > tb {
                        assert(slots@[tb] < slots@[ta]);
                    }
                    assert(false);
                }
                assert(self.hidden_piles@[slots@[ta] as int] == cards@[ta]);
                assert(self.hidden_piles@[slots@[tb] as int] == cards@[tb]);
                assert(f.piles[i][j] == self.hidden_piles@[a]);
                assert(f.piles[k][l] == self.hidden_piles@[b]);
            }
        }
    }

    /// The cards that lie in the places `slots`, in turn.
    fn gather(&self, slots: &Vec<usize>) -> (v: Vec<Card>)
        requires
            forall|t: int| 0 <= t < slots@.len() ==> (#[trigger] slots@[t]) < 28,
        ensures
            v@ == picked(self.hidden_piles@, slots@),
    {
        let mut v: Vec<Card> = Vec::new();
        let mut t: usize = 0;
        while t < slots.len()
            invariant
                t <= slots@.len(),
                forall|u: int| 0 <= u < slots@.len() ==> (#[trigger] slots@[u]) < 28,
                v@ == Seq::new(t as nat, |u: int| self.hidden_piles@[slots@[u] as int]),
            decreases slots.len() - t,
        {
            v.push(self.hidden_piles[slots[t]]);
            proof {
                assert(v@ =~= Seq::new((t + 1) as nat, |u: int| self.hidden_piles@[slots@[u] as int]));
            }
            t += 1;
        }
        v
    }

    /// Says of each pile how many of its cards are still there.
    pub(crate) fn set_counts(&mut self, counts: &[u8; 7])
        requires
            old(self).wf(),
            forall|i: int| 0 <= i < N_PILES ==> (#[trigger] counts@[i]) <= i + 1,
        ensures
            final(self).wf(),
            final(self)@ == (HiddenView { counts: counts@, ..old(self)@ }),
    {
        self.n_hidden = *counts;
    }

    /// The same piles once more.
    #[must_use]
    pub fn duplicate(&self) -> (r: Hidden)
        ensures
            r == *self,
    {
        Hidden {
            hidden_piles: self.hidden_piles,
            n_hidden: self.n_hidden,
            pile_map: self.pile_map,
            first_layer_mask: self.first_layer_mask,
        }
    }

    /// The deepest card of every pile, as a bitboard.
    #[must_use]
    pub fn first_layer_mask(&self) -> (m: u64)
        ensures
            m == self@.first_layer,
    {
        self.first_layer_mask
    }
}

impl HiddenView {
    /// Where a card of the piles was dealt is told by the reverse index and by
    /// nothing else.
    pub proof fn lemma_dealt_unique(self, c: Card, i: int, j: int, k: int, l: int)
        requires
            self.sound(),
            self.dealt_at(c, i, j),
            self.dealt_at(c, k, l),
        ensures
            i == k,
            j == l,
            i == self.pile_of[c.0 as int],
            c.0 < N_CARDS,
    {
        assert(self.pile_of[self.piles[i][j].0 as int] == i);
        assert(self.pile_of[self.piles[k][l].0 as int] == k);
        if j < l {
            assert(self.piles[i][j] != self.piles[i][l]);
        } else if l < j {
            assert(self.piles[i][l] != self.piles[i][j]);
        }
    }

    /// Taking the top card off pile `i` turns up the card under it, and leaves
    /// every other card as it lay.
    pub proof fn lemma_popped(self, i: int)
        requires
            self.sound(),
            0 <= i < N_PILES,
            self.counts[i] >= 1,
        ensures
            self.popped(i).sound(),
            forall|c: Card| #[trigger] self.popped(i).dealt(c) <==> self.dealt(c),
            forall|c: Card|
                #[trigger] self.popped(i).is_down(c) <==> (self.is_down(c) && !(self.counts[i] > 1
                    && c == self.piles[i][self.counts[i] - 2])),
            forall|c: Card|
                #[trigger] self.popped(i).heads(c) <==> ((self.heads(c) && c != self.top(i)) || (
                self.counts[i] > 1 && c == self.piles[i][self.counts[i] - 2] && (self.counts[i] > 2
                    || c.spec_rank() < KING_RANK))),
            self.counts[i] > 1 ==> self.is_down(self.piles[i][self.counts[i] - 2]),
            !self.is_down(self.top(i)),
            self.dealt(self.top(i)),
            self.top(i).0 < N_CARDS,
            self.pile_of[self.top(i).0 as int] == i,
    {
        let p = self.popped(i);
        let n = self.counts[i] as int;
        let t = self.top(i);
        assert(p.wf());
        assert forall|c: Card| c.0 < 64 implies (#[trigger] in_mask(p.first_layer, c)
            <==> p.in_first_layer(c)) by {
            assert(in_mask(self.first_layer, c) <==> self.in_first_layer(c));
            if self.in_first_layer(c) {
                let a = choose|a: int| 0 <= a < N_PILES && (#[trigger] self.piles[a])[0] == c;
                assert(p.piles[a][0] == c);
            }
            if p.in_first_layer(c) {
                let a = choose|a: int| 0 <= a < N_PILES && (#[trigger] p.piles[a])[0] == c;
                assert(self.piles[a][0] == c);
            }
        }
        assert(p.sound());
        assert(self.dealt_at(t, i, n - 1));
        assert forall|c: Card| #[trigger] p.dealt(c) <==> self.dealt(c) by {
            if p.dealt(c) {
                let (a, b) = choose|a: int, b: int| #[trigger] p.dealt_at(c, a, b);
                assert(self.dealt_at(c, a, b));
            }
            if self.dealt(c) {
                let (a, b) = choose|a: int, b: int| #[trigger] self.dealt_at(c, a, b);
                assert(p.dealt_at(c, a, b));
            }
        }
        if n > 1 {
            assert(self.down_at(self.piles[i][n - 2], i, n - 2));
        }
        if self.is_down(t) {
            let (a, b) = choose|a: int, b: int| #[trigger] self.down_at(t, a, b);
            assert(self.dealt_at(t, a, b));
            self.lemma_dealt_unique(t, a, b, i, n - 1);
        }
        assert forall|c: Card| #[trigger]
            p.is_down(c) <==> (self.is_down(c) && !(n > 1 && c == self.piles[i][n - 2])) by {
            if p.is_down(c) {
                let (a, b) = choose|a: int, b: int| #[trigger] p.down_at(c, a, b);
                assert(self.down_at(c, a, b));
                if n > 1 && c == self.piles[i][n - 2] {
                    assert(self.dealt_at(c, a, b));
                    assert(self.dealt_at(c, i, n - 2));
                    self.lemma_dealt_unique(c, a, b, i, n - 2);
                }
            }
            if self.is_down(c) && !(n > 1 && c == self.piles[i][n - 2]) {
                let (a, b) = choose|a: int, b: int| #[trigger] self.down_at(c, a, b);
                assert(p.down_at(c, a, b));
            }
        }
        assert forall|c: Card| #[trigger]
            p.heads(c) <==> ((self.heads(c) && c != t) || (n > 1 && c == self.piles[i][n - 2] && (n
                > 2 || c.spec_rank() < KING_RANK))) by {
            if p.heads(c) {
                let a = choose|a: int| #[trigger] p.heads_at(c, a);
                if a != i {
                    assert(self.heads_at(c, a));
                    if c == t {
                        assert(self.dealt_at(c, a, self.counts[a] - 1));
                        self.lemma_dealt_unique(c, a, self.counts[a] - 1, i, n - 1);
                    }
                }
            }
            if self.heads(c) && c != t {
                let a = choose|a: int| #[trigger] self.heads_at(c, a);
                assert(p.heads_at(c, a));
            }
            if n > 1 && c == self.piles[i][n - 2] && (n > 2 || c.spec_rank() < KING_RANK) {
                assert(p.heads_at(c, i));
            }
        }
    }

    /// Putting the top card back is the reverse of taking it off.
    pub proof fn lemma_unpopped(self, i: int)
        requires
            self.wf(),
            0 <= i < N_PILES,
            self.counts[i] >= 1,
        ensures
            self.popped(i).unpopped(i) == self,
    {
        assert(self.popped(i).unpopped(i).counts =~= self.counts);
    }
}

impl HiddenView {
    /// The key of the counts gives the counts back.
    pub proof fn lemma_key_roundtrip(self, i: int)
        requires
            self.wf(),
            0 <= i <= N_PILES,
        ensures
            key_rest(self.encoded_from(0), i) == self.encoded_from(i),
            self.encoded_from(i) >= 0,
            i < N_PILES ==> self.encoded_from(i) % (i + 2) == self.counts[i],
        decreases i,
    {
        self.lemma_key_nonneg(i);
        if i > 0 {
            self.lemma_key_roundtrip(i - 1);
            let d = i + 1;
            let n = self.counts[i - 1] as int;
            let e = self.encoded_from(i);
            assert(self.encoded_from(i - 1) == n + d * e);
            assert((n + d * e) / d == e && (n + d * e) % d == n) by (nonlinear_arith)
                requires
                    0 <= n < d,
                    e >= 0,
            ;
        }
        if i < N_PILES {
            let d = i + 2;
            let n = self.counts[i] as int;
            let e = self.encoded_from(i + 1);
            self.lemma_key_nonneg(i + 1);
            assert((n + d * e) % d == n) by (nonlinear_arith)
                requires
                    0 <= n < d,
                    e >= 0,
            ;
        }
    }

    proof fn lemma_key_nonneg(self, i: int)
        requires
            self.wf(),
            0 <= i <= N_PILES,
        ensures
            self.encoded_from(i) >= 0,
        decreases N_PILES - i,
    {
        if i < N_PILES {
            self.lemma_key_nonneg(i + 1);
            let d = i + 2;
            let e = self.encoded_from(i + 1);
            assert(d * e >= 0) by (nonlinear_arith)
                requires
                    d >= 0,
                    e >= 0,
            ;
        }
    }
}

/// The cards of a pile: those that lie face down, and on them the face-up
/// card if there is one.
pub open spec fn whole_pile(down: Seq<Card>, top: Option<Card>) -> Seq<Card> {
    down + (match top {
        Some(c) => seq![c],
        None => Seq::<Card>::empty(),
    })
}

/// The cards that lie in the places `slots` of the flat deal, in turn.
pub open spec fn picked(flat: Seq<Card>, slots: Seq<usize>) -> Seq<Card> {
    Seq::new(slots.len(), |t: int| flat[slots[t] as int])
}

/// The place `k` of the flat deal holds a card that lies face down.
pub open spec fn is_down_slot(counts: Seq<u8>, k: int) -> bool {
    0 <= k < N_HIDDEN_CARDS && k - pile_start(pile_index(k)) + 1 < counts[pile_index(k)]
}

/// The cards of the bitboard `m`, lowest bit first.
fn mask_cards(m: u64) -> (v: Vec<Card>)
    requires
        forall|c: Card| c.0 < 64 && #[trigger] in_mask(m, c) ==> c.0 < 56,
    ensures
        forall|c: Card| c.0 < 64 ==> (#[trigger] in_mask(m, c) <==> v@.contains(c)),
        forall|a: int, b: int|
            0 <= a < b < v@.len() ==> mask_index((#[trigger] v@[a]).0) < mask_index(
                (#[trigger] v@[b]).0,
            ),
        forall|a: int| 0 <= a < v@.len() ==> (#[trigger] v@[a]).0 < 56,
        v@.no_duplicates(),
{
    let mut v: Vec<Card> = Vec::new();
    let mut rest = m;
    while rest != 0
        invariant
            forall|c: Card| c.0 < 64 && #[trigger] in_mask(rest, c) ==> in_mask(m, c),
            forall|c: Card| c.0 < 64 && #[trigger] in_mask(m, c) ==> c.0 < 56,
            forall|c: Card|
                c.0 < 64 ==> (#[trigger] v@.contains(c) <==> in_mask(m, c) && !in_mask(rest, c)),
            forall|a: int| 0 <= a < v@.len() ==> (#[trigger] v@[a]).0 < 56,
            forall|a: int, b: int|
                0 <= a < b < v@.len() ==> mask_index((#[trigger] v@[a]).0) < mask_index(
                    (#[trigger] v@[b]).0,
                ),
            forall|a: int, c: Card|
                0 <= a < v@.len() && c.0 < 64 && #[trigger] in_mask(rest, c) ==> mask_index(
                    (#[trigger] v@[a]).0,
                ) < mask_index(c.0),
        decreases rest,
    {
        proof {
            axiom_u64_trailing_zeros(rest);
            let t = u64_trailing_zeros(rest) as u8;
            lemma_mask_index(t);
            let lowest = Card(mask_index(t));
            assert(in_mask(rest, lowest));
            assert(in_mask(m, lowest));
        }
        let c = from_mask(&rest);
        let bit = card_mask(&c);
        let ghost before = v@;
        let ghost prev = rest;
        v.push(c);
        rest = rest ^ bit;
        proof {
            let t = u64_trailing_zeros(prev) as u64;
            lemma_mask_index(t as u8);
            lemma_mask_index(c.0);
            crate::bits::lemma_bit64_clear_less(prev, t);
            assert(v@ == before.push(c));
            assert forall|x: Card| x.0 < 64 implies (#[trigger] in_mask(rest, x) <==> in_mask(
                prev,
                x,
            ) && x != c) by {
                lemma_in_mask_ops(prev, bit, x);
                lemma_in_mask_single(c, x);
            }
            assert forall|x: Card| x.0 < 64 implies (#[trigger] v@.contains(x) <==> in_mask(m, x)
                && !in_mask(rest, x)) by {
                assert(in_mask(rest, x) <==> in_mask(prev, x) && x != c);
                if v@.contains(x) {
                    let j = choose|j: int| 0 <= j < v@.len() && v@[j] == x;
                    if j < before.len() {
                        assert(before[j] == x);
                        assert(before.contains(x));
                    }
                }
                if before.contains(x) {
                    let j = choose|j: int| 0 <= j < before.len() && before[j] == x;
                    assert(v@[j] == x);
                }
                if x == c {
                    assert(v@[before.len() as int] == x);
                }
            }
            assert forall|a: int, x: Card|
                0 <= a < v@.len() && x.0 < 64 && #[trigger] in_mask(rest, x) implies mask_index(
                (#[trigger] v@[a]).0,
            ) < mask_index(x.0) by {
                lemma_mask_index(x.0);
                if a < before.len() {
                    assert(before[a] == v@[a]);
                } else {
                    let j = mask_index(x.0) as u64;
                    if j < t {
                        assert((prev >> j) & 1u64 == 0u64);
                    }
                    assert(mask_index(c.0) == t);
                }
            }
            assert forall|a: int, b: int| 0 <= a < b < v@.len() implies mask_index(
                (#[trigger] v@[a]).0,
            ) < mask_index((#[trigger] v@[b]).0) by {
                if b < before.len() {
                    assert(before[a] == v@[a]);
                    assert(before[b] == v@[b]);
                } else {
                    assert(before[a] == v@[a]);
                    assert(in_mask(prev, c));
                }
            }
        }
    }
    proof {
        assert forall|c: Card| c.0 < 64 implies (#[trigger] in_mask(m, c) <==> v@.contains(c)) by {
            lemma_in_mask_ops(0, 0, c);
        }
        assert forall|a: int, b: int| 0 <= a < v@.len() && 0 <= b < v@.len() && a != b implies v@[a]
            != v@[b] by {
            if a < b {
                assert(mask_index(v@[a].0) < mask_index(v@[b].0));
            } else {
                assert(mask_index(v@[b].0) < mask_index(v@[a].0));
            }
        }
    }
    v
}

/// The piles lie in the flat deal in the order of their numbers.
proof fn lemma_pile_order(i: int, k: int)
    requires
        0 <= i < N_PILES,
        0 <= k < N_PILES,
    ensures
        i < k ==> pile_start(i) + i < pile_start(k),
{
}

/// The flat deal of sound piles is a valid deal.
proof fn lemma_sound_flat(v: HiddenView, flat: Seq<Card>)
    requires
        v.sound(),
        v.piles == split_piles(flat),
        flat.len() == N_HIDDEN_CARDS,
    ensures
        valid_hidden_deal(flat),
{
    assert forall|k: int| 0 <= k < flat.len() implies (#[trigger] flat[k]).0 < N_CARDS
        && v.pile_of[flat[k].0 as int] == pile_index(k) by {
        let i = pile_index(k);
        let j = k - pile_start(i);
        assert(v.piles[i] == flat.subrange(pile_start(i), pile_start(i) + i + 1));
        assert(v.piles[i][j] == flat[k]);
        assert(v.piles[i][j].0 < N_CARDS);
    }
    assert forall|k: int, l: int| 0 <= k < l < flat.len() implies (#[trigger] flat[k]).0 != (
    #[trigger] flat[l]).0 by {
        let i = pile_index(k);
        let j = k - pile_start(i);
        let a = pile_index(l);
        let b = l - pile_start(a);
        assert(v.piles[i] == flat.subrange(pile_start(i), pile_start(i) + i + 1));
        assert(v.piles[a] == flat.subrange(pile_start(a), pile_start(a) + a + 1));
        assert(v.piles[i][j] == flat[k]);
        assert(v.piles[a][b] == flat[l]);
        if i == a {
            assert(v.piles[i][j] != v.piles[i][b]);
        } else {
            assert(v.pile_of[v.piles[i][j].0 as int] == i);
            assert(v.pile_of[v.piles[a][b].0 as int] == a);
        }
    }
}

/// A list with the cards of a valid deal, each as often, is a valid deal.
proof fn lemma_same_cards_valid(a: Seq<Card>, b: Seq<Card>)
    requires
        valid_hidden_deal(a),
        b.len() == a.len(),
        a.to_multiset() == b.to_multiset(),
    ensures
        valid_hidden_deal(b),
{
    assert(a.no_duplicates()) by {
        assert forall|k: int, l: int| 0 <= k < a.len() && 0 <= l < a.len() && k != l implies a[k]
            != a[l] by {
            if k < l {
                assert(a[k].0 != a[l].0);
            } else {
                assert(a[l].0 != a[k].0);
            }
        }
    }
    a.lemma_multiset_has_no_duplicates();
    b.lemma_multiset_has_no_duplicates_conv();
    assert forall|k: int| 0 <= k < b.len() implies (#[trigger] b[k]).0 < N_CARDS by {
        to_multiset_contains(b, b[k]);
        to_multiset_contains(a, b[k]);
        assert(b.contains(b[k]));
        let l = choose|l: int| 0 <= l < a.len() && a[l] == b[k];
        assert(a[l].0 < N_CARDS);
    }
    assert forall|k: int, l: int| 0 <= k < l < b.len() implies (#[trigger] b[k]).0 != (
    #[trigger] b[l]).0 by {
        assert(b[k] != b[l]);
    }
}

/// Two lists without doubles that have the same members have each member as
/// often.
proof fn lemma_same_members(a: Seq<Card>, b: Seq<Card>)
    requires
        a.no_duplicates(),
        b.no_duplicates(),
        forall|c: Card| c.0 < 64 ==> (a.contains(c) <==> b.contains(c)),
        forall|k: int| 0 <= k < a.len() ==> (#[trigger] a[k]).0 < 64,
        forall|k: int| 0 <= k < b.len() ==> (#[trigger] b[k]).0 < 64,
    ensures
        a.to_multiset() == b.to_multiset(),
{
    a.lemma_multiset_has_no_duplicates();
    b.lemma_multiset_has_no_duplicates();
    assert(a.to_multiset() =~= b.to_multiset()) by {
        assert forall|c: Card| a.to_multiset().count(c) == b.to_multiset().count(c) by {
            to_multiset_contains(a, c);
            to_multiset_contains(b, c);
            if a.contains(c) {
                let k = choose|k: int| 0 <= k < a.len() && a[k] == c;
                assert(a[k].0 < 64);
            }
            if b.contains(c) {
                let k = choose|k: int| 0 <= k < b.len() && b[k] == c;
                assert(b[k].0 < 64);
            }
        }
    }
}

/// The cards in the places of the face-down cards are the cards that lie face
/// down.
proof fn lemma_taken_down(v: HiddenView, flat: Seq<Card>, slots: Seq<usize>)
    requires
        v.sound(),
        v.piles == split_piles(flat),
        flat.len() == N_HIDDEN_CARDS,
        forall|t: int| 0 <= t < slots.len() ==> is_down_slot(v.counts, #[trigger] slots[t] as int),
        forall|k: int|
            #![trigger is_down_slot(v.counts, k)]
            is_down_slot(v.counts, k) ==> exists|t: int| 0 <= t < slots.len() && #[trigger] slots[t] == k,
    ensures
        forall|c: Card|
            v.is_down(c) <==> #[trigger] picked(flat, slots).contains(
                c,
            ),
        forall|t: int| 0 <= t < slots.len() ==> (#[trigger] flat[slots[t] as int]).0 < N_CARDS,
{
    let taken = picked(flat, slots);
    assert forall|c: Card| v.is_down(c) <==> #[trigger] taken.contains(c) by {
        if v.is_down(c) {
            let (i, j) = choose|i: int, j: int| #[trigger] v.down_at(c, i, j);
            let k = pile_start(i) + j;
            lemma_pile_start(i);
            assert(pile_index(k) == i);
            assert(is_down_slot(v.counts, k));
            let t = choose|t: int| 0 <= t < slots.len() && #[trigger] slots[t] == k;
            assert(v.piles[i] == flat.subrange(pile_start(i), pile_start(i) + i + 1));
            assert(taken[t] == c);
        }
        if taken.contains(c) {
            let t = choose|t: int| 0 <= t < taken.len() && taken[t] == c;
            let k = slots[t] as int;
            assert(is_down_slot(v.counts, k));
            let i = pile_index(k);
            let j = k - pile_start(i);
            assert(v.piles[i] == flat.subrange(pile_start(i), pile_start(i) + i + 1));
            assert(v.down_at(c, i, j));
        }
    }
    assert forall|t: int| 0 <= t < slots.len() implies (#[trigger] flat[slots[t] as int]).0
        < N_CARDS by {
        let k = slots[t] as int;
        assert(is_down_slot(v.counts, k));
        let i = pile_index(k);
        let j = k - pile_start(i);
        assert(v.piles[i] == flat.subrange(pile_start(i), pile_start(i) + i + 1));
        assert(v.piles[i][j].0 < N_CARDS);
    }
}

/// What holds of piles whose face-down cards have been laid anew.
proof fn lemma_refilled(
    o: HiddenView,
    old_flat: Seq<Card>,
    f: HiddenView,
    flat: Seq<Card>,
    slots: Seq<usize>,
    cards: Seq<Card>,
)
    requires
        o.sound(),
        f.sound(),
        o.piles == split_piles(old_flat),
        f.piles == split_piles(flat),
        old_flat.len() == N_HIDDEN_CARDS,
        flat.len() == N_HIDDEN_CARDS,
        f.counts == o.counts,
        slots.len() == cards.len(),
        forall|t: int| 0 <= t < slots.len() ==> is_down_slot(o.counts, #[trigger] slots[t] as int),
        forall|k: int|
            #![trigger is_down_slot(o.counts, k)]
            is_down_slot(o.counts, k) ==> exists|t: int| 0 <= t < slots.len() && #[trigger] slots[t] == k,
        cards.to_multiset() == picked(old_flat, slots).to_multiset(),
        forall|t: int| 0 <= t < slots.len() ==> flat[#[trigger] slots[t] as int] == cards[t],
        forall|k: int|
            0 <= k < 28 && !slots.contains(k as usize) ==> #[trigger] flat[k] == old_flat[k],
    ensures
        forall|c: Card| #[trigger] f.is_down(c) <==> o.is_down(c),
        forall|i: int, j: int|
            0 <= i < N_PILES && 0 <= j <= i && j + 1 >= o.counts[i] ==> #[trigger] f.piles[i][j]
                == o.piles[i][j],
{
    let taken = picked(old_flat, slots);
    let laid = picked(flat, slots);
    lemma_taken_down(o, old_flat, slots);
    lemma_taken_down(f, flat, slots);
    assert(laid =~= cards);
    assert forall|c: Card| #[trigger] f.is_down(c) <==> o.is_down(c) by {
        to_multiset_contains(cards, c);
        to_multiset_contains(taken, c);
        assert(f.is_down(c) <==> laid.contains(c));
        assert(o.is_down(c) <==> taken.contains(c));
    }
    assert forall|i: int, j: int|
        0 <= i < N_PILES && 0 <= j <= i && j + 1 >= o.counts[i] implies #[trigger] f.piles[i][j]
        == o.piles[i][j] by {
        let k = pile_start(i) + j;
        lemma_pile_start(i);
        assert(pile_index(k) == i);
        assert(!is_down_slot(o.counts, k));
        if slots.contains(k as usize) {
            let t = choose|t: int| 0 <= t < slots.len() && slots[t] == k as usize;
            assert(is_down_slot(o.counts, slots[t] as int));
        }
        assert(f.piles[i] == flat.subrange(pile_start(i), pile_start(i) + i + 1));
        assert(o.piles[i] == old_flat.subrange(pile_start(i), pile_start(i) + i + 1));
    }
}

} // verus!
