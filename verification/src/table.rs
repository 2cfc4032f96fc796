//! From the game on the table to the state of the engine, and back.

use crate::bits::{bit64, lemma_bit32_zero};
use crate::card::{
    card_mask, in_mask, lemma_in_mask_ops, lemma_in_mask_single, lemma_mask_ext, lemma_mask_index,
    mask_index, mask_of, Card, N_CARDS,
};
use crate::convert::{deals, step};
use crate::dealing::{arrange, holds_deck, slot_taken};
use crate::deck::{DeckView, N_FULL_DECK, N_PILES};
use crate::engine::{is_deal, Solitaire, SolitaireView};
use crate::hidden::{lemma_pile_start, pile_index, pile_start, split_piles, HiddenView};
use crate::moves::Move;
use crate::standard::{Pos, StandardMove, StandardSolitaire, StandardView};
use vstd::prelude::*;

verus! {

impl SolitaireView {
    /// The generator offers `n` moves with dominance.
    pub open spec fn mobile(self, n: int) -> bool {
        exists|moves: Seq<Move>| #[trigger]
            moves.no_duplicates() && moves.len() == n && forall|m: Move| #[trigger]
                moves.contains(m) <==> self.offered(true, m)
    }
}

/// `c` lies on the foundations `stack`.
pub open spec fn on_stack(stack: Seq<u8>, c: Card) -> bool {
    c.spec_rank() < stack[c.spec_suit() as int]
}

impl StandardView {
    /// The state `s` of the engine is this table: the same deck and
    /// foundations, the same cards face down in each pile, the same cards
    /// face up, and on the face-down cards of a pile the card that lies on
    /// them here.
    pub open spec fn seen_as(self, s: SolitaireView) -> bool {
        &&& s.wf()
        &&& s.deck == self.deck
        &&& s.stack == self.stack
        &&& forall|i: int| 0 <= i < N_PILES ==> #[trigger] s.hidden.down_cards(i) == self.hidden[i]
        &&& forall|i: int|
            0 <= i < N_PILES ==> (if self.headed(i) {
                (#[trigger] s.hidden.counts[i]) >= 1 && s.hidden.top(i) == self.piles[i][0]
            } else {
                s.hidden.counts[i] == 0
            })
        &&& forall|c: Card| c.0 < 64 ==> (#[trigger] in_mask(s.visible, c) <==> self.shows(c))
    }

    /// No card that lies face down in column `p`, nor the first of its
    /// face-up cards, lies on the foundations.
    pub open spec fn column_clear(self, p: int) -> bool {
        &&& forall|j: int|
            0 <= j < self.hidden[p].len() ==> !on_stack(self.stack, #[trigger] self.hidden[p][j])
        &&& self.piles[p].len() > 0 ==> !on_stack(self.stack, self.piles[p][0])
    }

    /// `c` lies face down in a column.
    pub open spec fn down(self, c: Card) -> bool {
        exists|p: int, j: int|
            0 <= p < N_PILES && 0 <= j < self.hidden[p].len() && #[trigger] self.hidden[p][j] == c
    }

    /// No card of the deck, no card that lies face down and no first
    /// face-up card of a column lies on the foundations.
    pub open spec fn apart(self) -> bool {
        &&& forall|j: int|
            0 <= j < self.deck.cards.len() ==> !on_stack(self.stack, #[trigger] self.deck.cards[j])
        &&& forall|p: int| 0 <= p < N_PILES ==> #[trigger] self.column_clear(p)
    }

    /// The cards that lie face up in the columns are the cards that are
    /// nowhere else: not in the deck, not face down and not on the
    /// foundations.
    pub open spec fn complete(self) -> bool {
        forall|c: Card|
            c.0 < 64 ==> (#[trigger] self.shows(c) <==> c.0 < N_CARDS && !self.deck.holds(c)
                && !self.down(c) && !on_stack(self.stack, c))
    }

    /// Every card has its place on the table: the table can have come from a
    /// deal of the 52 cards, and each card lies in the deck, face down, face
    /// up or on the foundations, and nowhere else.
    pub open spec fn orderly(self) -> bool {
        self.fits() && self.apart() && self.complete()
    }

    /// `c` lies face up in a column.
    pub open spec fn shows(self, c: Card) -> bool {
        exists|p: int, j: int|
            0 <= p < N_PILES && 0 <= j < self.piles[p].len() && #[trigger] self.piles[p][j] == c
    }

    /// `c` lies face up in one of the first `n` columns, or among the first
    /// `k` cards of column `n`.
    pub open spec fn shows_before(self, c: Card, n: int, k: int) -> bool {
        exists|p: int, j: int|
            0 <= p <= n && 0 <= j < self.piles[p].len() && (p < n || j < k)
                && #[trigger] self.piles[p][j] == c
    }
}

/// Where the cards of such a deal were dealt: into the deck if they have a
/// place in it, and else into a pile.
proof fn lemma_deal_places(d: DeckView, deal: Seq<Card>, h: HiddenView)
    requires
        is_deal(deal),
        holds_deck(d, deal),
        h.piles == split_piles(deal.subrange(0, 28)),
    ensures
        forall|c: Card|
            #![trigger d.slot_of(c)]
            #![trigger h.dealt(c)]
            c.0 < N_CARDS ==> (d.slot_of(c) < N_FULL_DECK <==> !h.dealt(c)),
{
    assert forall|c: Card|
        #![trigger d.slot_of(c)]
        #![trigger h.dealt(c)]
        c.0 < N_CARDS implies (d.slot_of(c) < N_FULL_DECK <==> !h.dealt(c)) by {
        assert(deal.contains(c));
        let k = choose|k: int| 0 <= k < deal.len() && deal[k] == c;
        if d.slot_of(c) < N_FULL_DECK {
            let t = 28 + d.slot_of(c);
            assert(deal[t] == c);
            if h.dealt(c) {
                let (i, j) = choose|i: int, j: int| #[trigger] h.dealt_at(c, i, j);
                lemma_pile_start(i);
                let f = pile_start(i) + j;
                assert(h.piles[i][j] == deal.subrange(0, 28)[f]);
                assert(deal[f] == c);
                assert(f < t);
                assert(deal[f].0 != deal[t].0);
            }
        } else {
            if k >= 28 {
                assert(deal[k] == Card(52) || d.slot_of(deal[k]) == k - 28);
            }
            let i = pile_index(k);
            lemma_pile_start(i);
            let j = k - pile_start(i);
            assert(h.piles[i][j] == deal.subrange(0, 28)[k]);
            assert(h.dealt_at(c, i, j));
        }
    }
}

/// Whether none of the cards lies on the foundations.
fn clear_of_stack(cards: &Vec<Card>, stack: &[u8; 4]) -> (b: bool)
    ensures
        b == forall|j: int| 0 <= j < cards@.len() ==> !on_stack(stack@, #[trigger] cards@[j]),
{
    let mut j: usize = 0;
    while j < cards.len()
        invariant
            j <= cards@.len(),
            forall|l: int| 0 <= l < j ==> !on_stack(stack@, #[trigger] cards@[l]),
        decreases cards@.len() - j,
    {
        let c = cards[j];
        if c.rank() < stack[c.suit() as usize] {
            return false;
        }
        j += 1;
    }
    true
}

/// The cards that lie face up in the columns, as a bitboard.
fn shown_mask(g: &StandardSolitaire) -> (m: u64)
    requires
        g.wf(),
    ensures
        forall|c: Card| c.0 < 64 ==> (#[trigger] in_mask(m, c) <==> g@.shows(c)),
{
    let mut m: u64 = 0;
    let mut p: u8 = 0;
    proof {
        g.lemma_wf();
        assert forall|c: Card| c.0 < 64 implies !#[trigger] in_mask(m, c) by {
            lemma_mask_index(c.0);
            let i = mask_index(c.0) as u64;
            assert(!bit64(0u64, i)) by (bit_vector)
                requires
                    i < 64,
            ;
        }
    }
    while p < N_PILES
        invariant
            p <= N_PILES,
            g.wf(),
            g@.wf(),
            forall|c: Card| c.0 < 64 ==> (#[trigger] in_mask(m, c) <==> g@.shows_before(c, p as int, 0)),
        decreases N_PILES - p,
    {
        let pile = g.get_pile(p);
        let mut j: usize = 0;
        while j < pile.len()
            invariant
                j <= pile@.len(),
                p < N_PILES,
                g@.wf(),
                pile@ == g@.piles[p as int],
                forall|c: Card|
                    c.0 < 64 ==> (#[trigger] in_mask(m, c) <==> g@.shows_before(c, p as int, j as int)),
            decreases pile@.len() - j,
        {
            let x = pile[j];
            let ghost before = m;
            assert(g@.piles[p as int][j as int].0 < N_CARDS);
            m = m | card_mask(&x);
            proof {
                assert forall|c: Card| c.0 < 64 implies (#[trigger] in_mask(m, c) <==> g@.shows_before(
                    c,
                    p as int,
                    j + 1,
                )) by {
                    lemma_in_mask_ops(before, mask_of(x), c);
                    lemma_in_mask_single(x, c);
                    if g@.shows_before(c, p as int, j + 1) {
                        let (q, l) = choose|q: int, l: int|
                            0 <= q <= p && 0 <= l < g@.piles[q].len() && (q < p || l < j + 1)
                                && #[trigger] g@.piles[q][l] == c;
                        if !(q == p && l == j) {
                            assert(g@.piles[q][l] == c);
                            assert(g@.shows_before(c, p as int, j as int));
                        }
                    }
                    if g@.shows_before(c, p as int, j as int) {
                        let (q, l) = choose|q: int, l: int|
                            0 <= q <= p && 0 <= l < g@.piles[q].len() && (q < p || l < j)
                                && #[trigger] g@.piles[q][l] == c;
                        assert(g@.piles[q][l] == c);
                    }
                    if x == c {
                        assert(g@.piles[p as int][j as int] == c);
                    }
                }
            }
            j += 1;
        }
        proof {
            assert forall|c: Card| c.0 < 64 implies (g@.shows_before(c, p as int, pile@.len() as int)
                <==> g@.shows_before(c, p + 1, 0)) by {
                if g@.shows_before(c, p as int, pile@.len() as int) {
                    let (q, l) = choose|q: int, l: int|
                        0 <= q <= p && 0 <= l < g@.piles[q].len() && (q < p || l < pile@.len())
                            && #[trigger] g@.piles[q][l] == c;
                    assert(g@.piles[q][l] == c);
                }
                if g@.shows_before(c, p + 1, 0) {
                    let (q, l) = choose|q: int, l: int|
                        0 <= q <= p + 1 && 0 <= l < g@.piles[q].len() && (q < p + 1 || l < 0)
                            && #[trigger] g@.piles[q][l] == c;
                    assert(g@.piles[q][l] == c);
                }
            }
        }
        p += 1;
    }
    proof {
        assert forall|c: Card| c.0 < 64 implies (g@.shows_before(c, N_PILES as int, 0) <==> g@.shows(
            c,
        )) by {
            if g@.shows_before(c, N_PILES as int, 0) {
                let (q, l) = choose|q: int, l: int|
                    0 <= q <= N_PILES && 0 <= l < g@.piles[q].len() && (q < N_PILES || l < 0)
                        && #[trigger] g@.piles[q][l] == c;
                assert(g@.piles[q][l] == c);
            }
            if g@.shows(c) {
                let (q, l) = choose|q: int, l: int|
                    0 <= q < N_PILES && 0 <= l < g@.piles[q].len() && #[trigger] g@.piles[q][l] == c;
                assert(g@.piles[q][l] == c);
            }
        }
    }
    m
}

/// Whether no card that lies face down or heads a pile lies on the
/// foundations.
fn piles_clear(g: &StandardSolitaire) -> (b: bool)
    requires
        g.wf(),
    ensures
        b == forall|p: int|
            0 <= p < N_PILES ==> g@.column_clear(p),
{
    let mut p: u8 = 0;
    proof {
        g.lemma_wf();
    }
    while p < N_PILES
        invariant
            p <= N_PILES,
            g.wf(),
            g@.wf(),
            forall|q: int| 0 <= q < p ==> g@.column_clear(q),
        decreases N_PILES - p,
    {
        if !clear_of_stack(g.get_hidden_pile(p), g.get_stack()) {
            assert(!g@.column_clear(p as int));
            return false;
        }
        let pile = g.get_pile(p);
        if pile.len() > 0 {
            let c = pile[0];
            if c.rank() < g.get_stack()[c.suit() as usize] {
                assert(!g@.column_clear(p as int));
                return false;
            }
        }
        p += 1;
    }
    true
}

/// The cards that lie face down in the piles of the engine are those that
/// lie face down on the table.
proof fn lemma_down(g: StandardView, v: SolitaireView, c: Card)
    requires
        g.wf(),
        v.hidden.wf(),
        forall|i: int| 0 <= i < N_PILES ==> #[trigger] v.hidden.down_cards(i) == g.hidden[i],
    ensures
        v.hidden.is_down(c) <==> g.down(c),
{
    if v.hidden.is_down(c) {
        let (i, j) = choose|i: int, j: int| #[trigger] v.hidden.down_at(c, i, j);
        assert(v.hidden.down_cards(i) == g.hidden[i]);
        assert(v.hidden.down_cards(i)[j] == c);
        assert(g.hidden[i][j] == c);
    }
    if g.down(c) {
        let (p, j) = choose|p: int, j: int|
            0 <= p < N_PILES && 0 <= j < g.hidden[p].len() && #[trigger] g.hidden[p][j] == c;
        assert(v.hidden.down_cards(p) == g.hidden[p]);
        assert(v.hidden.down_cards(p)[j] == c);
        assert(v.hidden.down_at(c, p, j));
    }
}

/// The state of the engine that the table `g` is: see
/// [`StandardView::seen_as`]. The engine has one if every card has its
/// place on the table, and only then: see [`StandardView::orderly`].
pub fn engine_of(g: &StandardSolitaire) -> (r: Option<Solitaire>)
    requires
        g.wf(),
    ensures
        r.is_some() <==> g@.orderly(),
        match r {
            Some(s) => s.wf() && g@.seen_as(s@),
            None => true,
        },
{
    proof {
        g.lemma_wf();
    }
    let deck = g.get_deck();
    let (deal, counts) = match arrange(g) {
        Some(x) => x,
        None => {
            return None;
        },
    };
    let cards = deck.iter();
    if !clear_of_stack(&cards, g.get_stack()) || !piles_clear(g) {
        return None;
    }
    let mut s = match Solitaire::new(&deal, deck.draw_step()) {
        Ok(s) => s,
        Err(_) => {
            return None;
        },
    };
    let ghost first = s@;
    proof {
        s.lemma_wf();
        let v = SolitaireView {
            deck: g@.deck,
            hidden: HiddenView { counts: counts@, ..first.hidden },
            stack: g@.stack,
            ..first
        };
        lemma_deal_places(g@.deck, deal@, v.hidden);
        assert forall|c: Card| #[trigger] v.deck.holds(c) implies !v.stacked(c) by {
            assert(g@.deck.cards.contains(c));
            let j = choose|j: int| 0 <= j < cards@.len() && cards@[j] == c;
            assert(!on_stack(g@.stack, cards@[j]));
        }
        assert forall|i: int, j: int| 0 <= i < N_PILES && 0 <= j < v.hidden.counts[i] implies !v.stacked(
            #[trigger] v.hidden.piles[i][j],
        ) by {
            lemma_pile_start(i);
            assert(counts@[i] <= i + 1);
            assert(g@.column_clear(i));
            assert(v.hidden.piles[i][j] == deal@.subrange(0, 28)[pile_start(i) + j]);
            if j < g@.hidden[i].len() {
                assert(deal@[pile_start(i) + j] == g@.hidden[i][j]);
            }
        }
        assert(forall|c: Card|
            #![trigger v.deck.slot_of(c)]
            #![trigger v.hidden.dealt(c)]
            c.0 < N_CARDS ==> (v.deck.slot_of(c) < N_FULL_DECK <==> !v.hidden.dealt(c)));
        assert(forall|c: Card| #[trigger] v.deck.holds(c) ==> !v.stacked(c));
        assert(v.sorted());
    }
    s.reset(deck.duplicate(), &counts, g.get_stack());
    let shown = shown_mask(g);
    proof {
        let v = s@;
        s.lemma_wf();
        assert(v.hidden.piles == split_piles(deal@.subrange(0, 28)));
        assert forall|i: int| 0 <= i < N_PILES implies #[trigger] v.hidden.down_cards(i)
            == g@.hidden[i] by {
            lemma_pile_start(i);
            assert(counts@[i] <= i + 1);
            if g@.headed(i) {
                assert forall|j: int| 0 <= j < g@.hidden[i].len() implies v.hidden.piles[i][j]
                    == g@.hidden[i][j] by {
                    assert(v.hidden.piles[i][j] == deal@.subrange(0, 28)[pile_start(i) + j]);
                    assert(deal@[pile_start(i) + j] == g@.hidden[i][j]);
                }
                assert(v.hidden.down_cards(i) =~= g@.hidden[i]);
            } else {
                assert(v.hidden.down_cards(i) =~= g@.hidden[i]);
            }
        }
        assert forall|i: int| 0 <= i < N_PILES implies (if g@.headed(i) {
            (#[trigger] v.hidden.counts[i]) >= 1 && v.hidden.top(i) == g@.piles[i][0]
        } else {
            v.hidden.counts[i] == 0
        }) by {
            lemma_pile_start(i);
            assert(counts@[i] <= i + 1);
            if g@.headed(i) {
                let j = g@.hidden[i].len() as int;
                assert(v.hidden.piles[i][j] == deal@.subrange(0, 28)[pile_start(i) + j]);
            }
        }
        assert forall|c: Card| c.0 < 64 implies (#[trigger] in_mask(v.visible, c) <==> c.0 < N_CARDS
            && !g@.deck.holds(c) && !g@.down(c) && !on_stack(g@.stack, c)) by {
            lemma_down(g@, v, c);
        }
        if g@.complete() {
            assert forall|c: Card| c.0 < 64 implies #[trigger] in_mask(v.visible, c) == in_mask(
                shown,
                c,
            ) by {
                assert(g@.shows(c) <==> in_mask(shown, c));
            }
            lemma_mask_ext(v.visible, shown);
        }
        if v.visible == shown {
            assert forall|c: Card| c.0 < 64 implies (#[trigger] g@.shows(c) <==> c.0 < N_CARDS
                && !g@.deck.holds(c) && !g@.down(c) && !on_stack(g@.stack, c)) by {
                assert(in_mask(shown, c) <==> g@.shows(c));
            }
        }
    }
    if s.get_visible_mask() != shown {
        return None;
    }
    Some(s)
}

/// The table that the state `s` of the engine is: the same deck and
/// foundations, the same cards face down in each pile, and the face-up cards
/// laid out in columns as [`Solitaire::compute_visible_piles`] lays them.
pub fn table_of(s: &Solitaire) -> (r: StandardSolitaire)
    requires
        s.wf(),
    ensures
        r.wf(),
        r@.deck == s@.deck,
        r@.stack == s@.stack,
        forall|i: int| 0 <= i < N_PILES ==> #[trigger] r@.hidden[i] == s@.hidden.down_cards(i),
        s@.laid_out(r@.piles),
{
    proof {
        s.lemma_wf();
    }
    let piles = s.compute_visible_piles();
    let hidden = s.get_hidden().to_piles();
    let stack = *s.get_stack();
    let ghost columns = Seq::new(piles@.len(), |i: int| piles@[i]@);
    proof {
        let v = s@;
        assert forall|p: int, j: int| 0 <= p < N_PILES && 0 <= j < hidden@[p]@.len() implies (
        #[trigger] hidden@[p]@[j]).0 < N_CARDS by {
            assert(hidden@[p]@ == v.hidden.down_cards(p));
            assert(v.hidden.piles[p][j].0 < N_CARDS);
        }
        assert forall|p: int| 0 <= p < N_PILES && (#[trigger] piles@[p])@.len() == 0 implies hidden@[p]@.len()
            == 0 by {
            assert(hidden@[p]@ == v.hidden.down_cards(p));
            if v.hidden.counts[p] > 1 {
                let c = v.hidden.top(p);
                assert(v.hidden.heads_at(c, p));
                assert(v.hidden.piles[p][v.hidden.counts[p] - 1].0 < N_CARDS);
                assert(v.heading(c));
                assert(columns[p].len() > 0);
            }
        }
    }
    let r = StandardSolitaire::from_parts(hidden, piles, stack, s.get_deck().duplicate());
    proof {
        assert(r@.piles =~= columns);
    }
    r
}

/// Numbers below `n` that grow from each of `n` places to the next are the
/// numbers of their places.
proof fn lemma_grows_from(f: Seq<int>, i: int)
    requires
        0 <= i < f.len(),
        forall|a: int, b: int| 0 <= a < b < f.len() ==> f[a] < f[b],
        forall|a: int| 0 <= a < f.len() ==> 0 <= #[trigger] f[a] < f.len(),
    ensures
        f[i] >= i,
    decreases i,
{
    if i > 0 {
        lemma_grows_from(f, i - 1);
        assert(f[i - 1] < f[i]);
    }
}

proof fn lemma_grows_to(f: Seq<int>, i: int)
    requires
        0 <= i < f.len(),
        forall|a: int, b: int| 0 <= a < b < f.len() ==> f[a] < f[b],
        forall|a: int| 0 <= a < f.len() ==> 0 <= #[trigger] f[a] < f.len(),
    ensures
        f[i] <= i,
    decreases f.len() - i,
{
    if i + 1 < f.len() {
        lemma_grows_to(f, i + 1);
        assert(f[i] < f[i + 1]);
    }
}

/// In a deck from which no card has gone, the cards stand in the places that
/// they had in the deal.
proof fn lemma_full_deck(d: DeckView, i: int)
    requires
        d.wf(),
        d.cards.len() == N_FULL_DECK,
        0 <= i < N_FULL_DECK,
    ensures
        d.slot_of(d.cards[i]) == i,
{
    let f = Seq::new(24, |a: int| d.slot_of(d.cards[a]) as int);
    assert forall|a: int, b: int| 0 <= a < b < f.len() implies f[a] < f[b] by {
        assert(d.slot_of(d.cards[a]) < d.slot_of(d.cards[b]));
    }
    assert forall|a: int| 0 <= a < f.len() implies 0 <= #[trigger] f[a] < f.len() by {
        assert(d.cards[a].0 < N_CARDS);
    }
    lemma_grows_from(f, i);
    lemma_grows_to(f, i);
}

impl StandardView {
    /// On a table that has just been dealt from the 52 cards, every card has
    /// its place: the engine has a state for it.
    pub proof fn lemma_fresh_orderly(self, cards: Seq<Card>, step: int)
        requires
            self.wf(),
            is_deal(cards),
            self.is_initial(cards, step),
        ensures
            self.orderly(),
            forall|p: int| 0 <= p < N_PILES ==> #[trigger] self.headed(p),
    {
        let d = self.deck;
        assert(d.cards.len() == N_FULL_DECK);
        assert forall|c: Card| c.0 < N_CARDS && (#[trigger] d.slot_of(c)) < N_FULL_DECK implies d.cards.contains(
            c,
        ) by {
            lemma_bit32_zero(d.slot_of(c) as u32);
            assert(d.holds(c));
        }
        assert forall|k: int| 0 <= k < 28 implies d.slot_of(#[trigger] cards[k]) >= N_FULL_DECK by {
            let c = cards[k];
            if d.slot_of(c) < N_FULL_DECK {
                let i = choose|i: int| 0 <= i < d.cards.len() && d.cards[i] == c;
                assert(cards[28 + i] == c);
                assert(cards[k].0 != cards[28 + i].0);
            }
        }
        assert forall|p: int| 0 <= p < N_PILES implies #[trigger] self.headed(p) by {
            lemma_pile_start(p);
            assert(self.piles[p] == seq![cards[pile_start(p) + p]]);
            assert(self.hidden[p] == cards.subrange(pile_start(p), pile_start(p) + p));
            assert(self.piles[p][0] == cards[pile_start(p) + p]);
        }
        assert forall|p: int, j: int| 0 <= p < N_PILES && (#[trigger] self.laid_at(p, j)).is_some() implies 0
            <= j <= p && self.laid_at(p, j) == Some(cards[pile_start(p) + j]) by {
            lemma_pile_start(p);
            assert(self.headed(p));
            assert(self.piles[p] == seq![cards[pile_start(p) + p]]);
            assert(self.hidden[p] == cards.subrange(pile_start(p), pile_start(p) + p));
        }
        assert(self.fits()) by {
            assert forall|p: int| 0 <= p < N_PILES implies (#[trigger] self.hidden[p]).len() <= p by {
                lemma_pile_start(p);
                assert(self.hidden[p] == cards.subrange(pile_start(p), pile_start(p) + p));
            }
            assert forall|s: int| 0 <= s < N_FULL_DECK implies #[trigger] slot_taken(d, s) by {
                lemma_full_deck(d, s);
                let c = d.cards[s];
                assert(c.0 < N_CARDS && d.slot_of(c) == s);
            }
            assert forall|p: int, j: int|
                0 <= p < N_PILES && (#[trigger] self.laid_at(p, j)).is_some() implies d.slot_of(
                self.laid_at(p, j).unwrap(),
            ) >= N_FULL_DECK by {
                lemma_pile_start(p);
                assert(d.slot_of(cards[pile_start(p) + j]) >= N_FULL_DECK);
            }
            assert forall|p: int, j: int, q: int, l: int|
                0 <= p < N_PILES && 0 <= q < N_PILES && (p != q || j != l) && (#[trigger] self.laid_at(
                    p,
                    j,
                )).is_some() implies self.laid_at(p, j) != #[trigger] self.laid_at(q, l) by {
                if self.laid_at(q, l).is_some() {
                    lemma_pile_start(p);
                    lemma_pile_start(q);
                    let a = pile_start(p) + j;
                    let b = pile_start(q) + l;
                    assert(a != b);
                    if a < b {
                        assert(cards[a].0 != cards[b].0);
                    } else {
                        assert(cards[b].0 != cards[a].0);
                    }
                }
            }
        }
        assert(self.apart()) by {
            assert forall|p: int| 0 <= p < N_PILES implies #[trigger] self.column_clear(p) by {}
        }
        assert forall|c: Card| c.0 < 64 implies (#[trigger] self.shows(c) <==> c.0 < N_CARDS
            && !d.holds(c) && !self.down(c) && !on_stack(self.stack, c)) by {
            if self.shows(c) {
                let (p, j) = choose|p: int, j: int|
                    0 <= p < N_PILES && 0 <= j < self.piles[p].len() && #[trigger] self.piles[p][j] == c;
                lemma_pile_start(p);
                assert(self.piles[p] == seq![cards[pile_start(p) + p]]);
                let a = pile_start(p) + p;
                assert(cards[a] == c);
                assert(d.slot_of(cards[a]) >= N_FULL_DECK);
                if self.down(c) {
                    let (q, l) = choose|q: int, l: int|
                        0 <= q < N_PILES && 0 <= l < self.hidden[q].len() && #[trigger] self.hidden[q][l]
                            == c;
                    lemma_pile_start(q);
                    assert(self.hidden[q] == cards.subrange(pile_start(q), pile_start(q) + q));
                    let b = pile_start(q) + l;
                    assert(cards[b] == c);
                    assert(a != b);
                    if a < b {
                        assert(cards[a].0 != cards[b].0);
                    } else {
                        assert(cards[b].0 != cards[a].0);
                    }
                }
            }
            if c.0 < N_CARDS && !d.holds(c) && !self.down(c) {
                assert(cards.contains(c));
                let k = choose|k: int| 0 <= k < cards.len() && cards[k] == c;
                if k >= 28 {
                    assert(d.cards[k - 28] == c);
                    assert(d.cards.contains(c));
                } else {
                    let q = pile_index(k);
                    lemma_pile_start(q);
                    let l = k - pile_start(q);
                    assert(self.hidden[q] == cards.subrange(pile_start(q), pile_start(q) + q));
                    assert(self.piles[q] == seq![cards[pile_start(q) + q]]);
                    if l < q {
                        assert(self.hidden[q][l] == c);
                    } else {
                        assert(self.piles[q][0] == c);
                    }
                }
            }
        }
    }
}

impl StandardView {
    /// The state that the engine has for a table that has just been dealt
    /// from the 52 cards plays like the first state of the deal: the same
    /// cards lie in the piles, and the two states are equivalent.
    pub proof fn lemma_fresh_engine(self, cards: Seq<Card>, step: int, s: SolitaireView, d: SolitaireView)
        requires
            self.wf(),
            is_deal(cards),
            self.is_initial(cards, step),
            self.seen_as(s),
            d.wf(),
            d.is_initial(cards, step),
        ensures
            s.equivalent(d),
            s.hidden.counts == d.hidden.counts,
            forall|i: int| 0 <= i < N_PILES ==> #[trigger] s.hidden.pile(i) == d.hidden.pile(i),
    {
        self.lemma_fresh_orderly(cards, step);
        let flat = cards.subrange(0, 28);
        assert forall|i: int| 0 <= i < N_PILES implies (#[trigger] s.hidden.counts[i]) == i + 1
            && s.hidden.pile(i) == d.hidden.pile(i) && s.hidden.top(i) == d.hidden.top(i) by {
            lemma_pile_start(i);
            assert(self.headed(i));
            assert(self.hidden[i] == cards.subrange(pile_start(i), pile_start(i) + i));
            assert(self.piles[i] == seq![cards[pile_start(i) + i]]);
            assert(s.hidden.down_cards(i) == self.hidden[i]);
            assert(s.hidden.counts[i] >= 1);
            assert(s.hidden.down_cards(i).len() == i);
            assert(d.hidden.counts[i] == i + 1);
            assert(d.hidden.piles[i] == flat.subrange(pile_start(i), pile_start(i) + i + 1));
            assert forall|j: int| 0 <= j < i + 1 implies s.hidden.pile(i)[j] == d.hidden.pile(i)[j] by {
                assert(d.hidden.piles[i][j] == cards[pile_start(i) + j]);
                if j < i {
                    assert(s.hidden.down_cards(i)[j] == self.hidden[i][j]);
                } else {
                    assert(s.hidden.top(i) == self.piles[i][0]);
                }
            }
            assert(s.hidden.pile(i) =~= d.hidden.pile(i));
            assert(s.hidden.pile(i)[i] == d.hidden.pile(i)[i]);
        }
        assert(s.hidden.counts =~= d.hidden.counts);
        assert(s.stack =~= d.stack);
        assert forall|i: int| 0 <= i < N_PILES implies #[trigger] s.hidden.normal_count(i)
            == d.hidden.normal_count(i) by {
            assert(s.hidden.counts[i] == i + 1);
            assert(s.hidden.pile(i)[0] == d.hidden.pile(i)[0]);
        }
        assert(s.deck.equivalent(d.deck));
        assert forall|i: int| 0 <= i < N_PILES implies #[trigger] d.hidden.down_cards(i)
            == self.hidden[i] by {
            lemma_pile_start(i);
            assert(d.hidden.counts[i] == i + 1);
            assert(d.hidden.piles[i] == flat.subrange(pile_start(i), pile_start(i) + i + 1));
            assert(self.hidden[i] == cards.subrange(pile_start(i), pile_start(i) + i));
            assert(d.hidden.down_cards(i) =~= self.hidden[i]);
        }
        assert forall|c: Card| c.0 < 64 implies #[trigger] in_mask(s.visible, c) == in_mask(
            d.visible,
            c,
        ) by {
            lemma_down(self, d, c);
            assert(d.deck.holds(c) <==> d.deck.cards.contains(c));
            assert(self.deck.holds(c) <==> self.deck.cards.contains(c));
            assert(in_mask(s.visible, c) <==> self.shows(c));
        }
        lemma_mask_ext(s.visible, d.visible);
        assert forall|c: Card| c.0 < 64 implies #[trigger] in_mask(s.top, c) == in_mask(d.top, c) by {
            if s.hidden.heads(c) {
                let i = choose|i: int| #[trigger] s.hidden.heads_at(c, i);
                assert(s.hidden.counts[i] == i + 1);
                assert(d.hidden.heads_at(c, i));
            }
            if d.hidden.heads(c) {
                let i = choose|i: int| #[trigger] d.hidden.heads_at(c, i);
                assert(s.hidden.counts[i] == i + 1);
                assert(s.hidden.heads_at(c, i));
            }
        }
        lemma_mask_ext(s.top, d.top);
    }
}

/// The foundations after a step on the table.
pub open spec fn step_stack(m: StandardMove, stack: Seq<u8>) -> Seq<u8> {
    match (m.from, m.to) {
        (Pos::Deck, Pos::Stack(s)) => stack.update(s as int, (m.card.spec_rank() + 1) as u8),
        (Pos::Stack(s), Pos::Pile(_)) => stack.update(s as int, m.card.spec_rank() as int as u8),
        (Pos::Pile(_), Pos::Stack(s)) => stack.update(s as int, (m.card.spec_rank() + 1) as u8),
        _ => stack,
    }
}

/// The foundations after the steps `steps`.
pub open spec fn steps_stack(steps: Seq<StandardMove>, stack: Seq<u8>) -> Seq<u8>
    decreases steps.len(),
{
    if steps.len() == 0 {
        stack
    } else {
        steps_stack(steps.drop_first(), step_stack(steps[0], stack))
    }
}

/// Deals leave the foundations as they are.
proof fn lemma_deals_stack(draws: Seq<StandardMove>, rest: Seq<StandardMove>, stack: Seq<u8>)
    requires
        forall|i: int| 0 <= i < draws.len() ==> #[trigger] draws[i] == StandardMove::spec_draw_next(),
    ensures
        steps_stack(draws + rest, stack) == steps_stack(rest, stack),
    decreases draws.len(),
{
    if draws.len() == 0 {
        assert(draws + rest =~= rest);
    } else {
        let all = draws + rest;
        assert(all[0] == draws[0]);
        assert(all.drop_first() =~= draws.drop_first() + rest);
        assert forall|i: int| 0 <= i < draws.drop_first().len() implies #[trigger] draws.drop_first()[i]
            == StandardMove::spec_draw_next() by {
            assert(draws.drop_first()[i] == draws[i + 1]);
        }
        lemma_deals_stack(draws.drop_first(), rest, stack);
    }
}

impl StandardView {
    /// Steps that can all be made leave the foundations as the steps say.
    pub proof fn lemma_steps_stack(self, steps: Seq<StandardMove>)
        requires
            self.applied(steps).0,
        ensures
            self.applied(steps).1.stack == steps_stack(steps, self.stack),
        decreases steps.len(),
    {
        if steps.len() > 0 {
            self.moved(steps[0]).lemma_steps_stack(steps.drop_first());
        }
    }

    /// A move that can be made on the table does to its foundations what it
    /// does to those of the engine.
    pub proof fn lemma_move_stack(self, s: SolitaireView, m: Move)
        requires
            self.stack == s.stack,
            self.conversion(m).is_some(),
            self.applied(self.conversion(m).unwrap()).0,
        ensures
            self.applied(self.conversion(m).unwrap()).1.stack == s.after(m).stack,
    {
        let steps = self.conversion(m).unwrap();
        self.lemma_steps_stack(steps);
        let c = m.spec_card();
        let none = Seq::<StandardMove>::empty();
        assert(steps_stack(none, self.stack) == self.stack);
        match m {
            Move::DeckPile(_) => {
                let n = self.deals_to(c);
                let last = step(Pos::Deck, Pos::Pile(self.free_pile(c) as u8), c);
                assert(steps =~= deals(n) + seq![last]);
                lemma_deals_stack(deals(n), seq![last], self.stack);
                assert(seq![last].drop_first() =~= none);
                assert(seq![last][0] == last);
                assert(steps_stack(seq![last], self.stack) == self.stack);
                assert(self.applied(steps).1.stack == s.after(m).stack);
            },
            Move::DeckStack(_) => {
                let n = self.deals_to(c);
                let last = step(Pos::Deck, Pos::Stack(c.spec_suit()), c);
                assert(steps =~= deals(n) + seq![last]);
                lemma_deals_stack(deals(n), seq![last], self.stack);
                assert(seq![last].drop_first() =~= none);
                assert(seq![last][0] == last);
                let want = step_stack(last, self.stack);
                assert(steps_stack(none, want) == want);
                assert(steps_stack(seq![last], self.stack) == want);
                assert(self.applied(steps).1.stack == s.after(m).stack);
            },
            Move::StackPile(_) => {
                let last = steps[0];
                assert(steps.drop_first() =~= none);
                let want = step_stack(last, self.stack);
                assert(steps_stack(none, want) == want);
                assert(self.applied(steps).1.stack == s.after(m).stack);
            },
            Move::Reveal(_) => {
                assert(steps.drop_first() =~= none);
                assert(s.after(m).stack == s.stack);
                assert(self.applied(steps).1.stack == s.after(m).stack);
            },
            Move::PileStack(_) => {
                assert(s.after(m).stack == s.stack_with(c.spec_suit(), c.spec_rank() + 1));
                let p = self.holder(c);
                let last = step(Pos::Pile(p as u8), Pos::Stack(c.spec_suit()), c);
                let want = step_stack(last, self.stack);
                assert(steps_stack(none, want) == want);
                if steps.len() == 1 {
                    assert(steps[0] == last);
                    assert(steps.drop_first() =~= none);
                } else {
                    assert(steps[1] == last);
                    assert(steps.drop_first().drop_first() =~= none);
                    assert(steps.drop_first()[0] == last);
                    assert(step_stack(steps[0], self.stack) == self.stack);
                    assert(steps_stack(steps.drop_first(), self.stack) == want);
                }
                assert(self.applied(steps).1.stack == s.after(m).stack);
            },
        }
    }

    /// Where the moves of the engine can be made on the table, they leave
    /// the foundations of the table as they leave those of the engine: if
    /// they fill the one, they fill the other.
    pub proof fn lemma_foundations_agree(self, s: SolitaireView, moves: Seq<Move>)
        requires
            self.stack == s.stack,
            self.converted(moves).0.is_some(),
        ensures
            self.converted(moves).1.stack == s.replay(moves).stack,
            s.replay(moves).is_win() ==> self.converted(moves).1.is_win(),
        decreases moves.len(),
    {
        if moves.len() > 0 {
            let steps = self.conversion(moves[0]).unwrap();
            let v = self.applied(steps).1;
            self.lemma_move_stack(s, moves[0]);
            v.lemma_foundations_agree(s.after(moves[0]), moves.drop_first());
        }
    }
}

impl StandardView {
    /// A line of play that wins in the state that the engine has for the
    /// table wins on the table, where its moves can be made there.
    pub proof fn lemma_won_on_table(self, s: SolitaireView, moves: Seq<Move>)
        requires
            self.seen_as(s),
            s.wins_by(moves),
            self.converted(moves).0.is_some(),
        ensures
            self.converted(moves).1.is_win(),
    {
        self.lemma_foundations_agree(s, moves);
    }
}

} // verus!
