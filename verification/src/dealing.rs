//! A deal that a table can have come from: the cards of its deck in the
//! places that they had, and the cards that lie face down or on face-down
//! cards in the piles that they were dealt into.

use crate::card::{Card, N_CARDS};
use crate::deck::{Deck, DeckView, N_FULL_DECK, N_PILES};
use crate::engine::is_deal;
use crate::hidden::{lemma_pile_start, pile_index, pile_start};
use crate::standard::{StandardSolitaire, StandardView};
use vstd::prelude::*;

verus! {

/// Every place of the deck of the deal belongs to a card.
pub open spec fn deck_full(d: DeckView) -> bool {
    forall|s: int| 0 <= s < N_FULL_DECK ==> #[trigger] slot_taken(d, s)
}

/// Place `s` of the deck of the deal belongs to a card.
pub open spec fn slot_taken(d: DeckView, s: int) -> bool {
    exists|c: Card| c.0 < N_CARDS && #[trigger] d.slot_of(c) == s
}

impl StandardView {
    /// The first face-up card of column `p` is the top card of a pile of the
    /// deal: it lies on face-down cards, or at the foot of the column and did
    /// not come from the deck.
    pub open spec fn headed(self, p: int) -> bool {
        self.piles[p].len() > 0 && (self.hidden[p].len() > 0 || self.deck.slot_of(self.piles[p][0])
            >= N_FULL_DECK)
    }

    /// The card that lies in pile `p` at depth `j`, as the piles were dealt:
    /// a face-down card of the column, or on them the first face-up card.
    pub open spec fn laid_at(self, p: int, j: int) -> Option<Card> {
        if 0 <= j < self.hidden[p].len() {
            Some(self.hidden[p][j])
        } else if j == self.hidden[p].len() && self.headed(p) {
            Some(self.piles[p][0])
        } else {
            None
        }
    }

    /// The table can have come from a deal: no pile has more face-down cards
    /// than were dealt into it, the deck of the deal had 24 cards, and the
    /// cards of the piles are distinct and none of them was in the deck.
    pub open spec fn fits(self) -> bool {
        &&& forall|p: int| 0 <= p < N_PILES ==> (#[trigger] self.hidden[p]).len() <= p
        &&& deck_full(self.deck)
        &&& forall|p: int, j: int|
            0 <= p < N_PILES && (#[trigger] self.laid_at(p, j)).is_some() ==> self.deck.slot_of(
                self.laid_at(p, j).unwrap(),
            ) >= N_FULL_DECK
        &&& forall|p: int, j: int, q: int, l: int|
            0 <= p < N_PILES && 0 <= q < N_PILES && (p != q || j != l) && (#[trigger] self.laid_at(
                p,
                j,
            )).is_some() ==> self.laid_at(p, j) != #[trigger] self.laid_at(q, l)
    }
}

/// The card of the deal at depth `l` of pile `q`.
pub open spec fn dealt_to(deal: Seq<Card>, q: int, l: int) -> Card {
    deal[pile_start(q) + l]
}

/// The deal holds the cards of the deck in the places that they had in it.
pub open spec fn holds_deck(d: DeckView, deal: Seq<Card>) -> bool {
    &&& deal.len() == N_CARDS
    &&& forall|c: Card|
        c.0 < N_CARDS && (#[trigger] d.slot_of(c)) < N_FULL_DECK ==> deal[28 + d.slot_of(c)] == c
    &&& forall|k: int|
        28 <= k < N_CARDS ==> (#[trigger] deal[k]).0 < N_CARDS && d.slot_of(deal[k]) == k - 28
}

/// The deal holds, in the first `n` piles, the face-down cards of the
/// columns and the cards that lie on them, and `counts` counts them.
pub open spec fn holds_piles(g: StandardView, deal: Seq<Card>, counts: Seq<u8>, n: int) -> bool {
    &&& deal.len() == N_CARDS
    &&& counts.len() == N_PILES
    &&& forall|p: int|
        0 <= p < n ==> (#[trigger] counts[p]) <= p + 1 && (if g.headed(p) {
            counts[p] == g.hidden[p].len() + 1 && deal[pile_start(p) + g.hidden[p].len()]
                == g.piles[p][0]
        } else {
            counts[p] == 0 && g.hidden[p].len() == 0
        })
    &&& forall|p: int, j: int|
        0 <= p < n && 0 <= j < g.hidden[p].len() ==> deal[pile_start(p) + j]
            == #[trigger] g.hidden[p][j]
}

/// Place `k` of the deal holds a card of the first `n` piles that `counts`
/// counts.
pub open spec fn laid_place(counts: Seq<u8>, n: int, k: int) -> bool {
    0 <= k < 28 && pile_index(k) < n && k - pile_start(pile_index(k)) < counts[pile_index(k)]
}

/// Each of the 52 cards stands at one place of `arr`, and `at` tells for each
/// card which.
pub open spec fn indexed(arr: Seq<Card>, at: Seq<u8>) -> bool {
    &&& arr.len() == N_CARDS
    &&& at.len() == N_CARDS
    &&& forall|v: int| 0 <= v < N_CARDS ==> (#[trigger] at[v]) < N_CARDS && arr[at[v] as int].0 == v
    &&& forall|k: int| 0 <= k < N_CARDS ==> (#[trigger] arr[k]).0 < N_CARDS && at[arr[k].0 as int] == k
}

/// Cards of which each stands at one place are a deal.
pub proof fn lemma_indexed_deal(arr: Seq<Card>, at: Seq<u8>)
    requires
        indexed(arr, at),
    ensures
        is_deal(arr),
{
    assert forall|i: int, j: int| 0 <= i < j < arr.len() implies (#[trigger] arr[i]).0 != (
    #[trigger] arr[j]).0 by {
        assert(at[arr[i].0 as int] == i);
        assert(at[arr[j].0 as int] == j);
    }
    assert forall|c: Card| c.0 < N_CARDS implies #[trigger] arr.contains(c) by {
        assert(arr[at[c.0 as int] as int].0 == c.0);
        assert(arr[at[c.0 as int] as int] == c);
    }
}

/// Brings card `c` to place `k`, and the card that stood there to the place
/// that `c` had.
fn put(arr: [Card; 52], at: [u8; 52], k: usize, c: Card) -> (r: ([Card; 52], [u8; 52]))
    requires
        indexed(arr@, at@),
        k < N_CARDS,
        c.0 < N_CARDS,
    ensures
        indexed(r.0@, r.1@),
        r.0@[k as int] == c,
        forall|i: int| 0 <= i < N_CARDS && i != k && i != at@[c.0 as int] ==> r.0@[i] == arr@[i],
{
    let mut arr2 = arr;
    let mut at2 = at;
    let j = at[c.0 as usize] as usize;
    let x = arr[k];
    assert(arr@[j as int].0 == c.0);
    assert(x.0 < N_CARDS);
    arr2[k] = c;
    arr2[j] = x;
    at2[c.0 as usize] = k as u8;
    at2[x.0 as usize] = j as u8;
    proof {
        assert(arr@[j as int] == c);
        assert forall|v: int| 0 <= v < N_CARDS implies (#[trigger] at2@[v]) < N_CARDS && arr2@[at2@[v] as int].0
            == v by {
            if v != c.0 && v != x.0 {
                assert(at@[v] != k);
                assert(at@[v] != j);
            }
        }
        assert forall|i: int| 0 <= i < N_CARDS implies (#[trigger] arr2@[i]).0 < N_CARDS && at2@[arr2@[i].0 as int]
            == i by {
            if i != k && i != j {
                assert(arr@[i].0 != c.0);
                assert(arr@[i].0 != x.0);
            }
        }
    }
    (arr2, at2)
}

/// The 52 cards, with the cards of the deck in the places that they had in
/// the deal; nothing if a place of the deck belongs to no card.
fn lay_deck(deck: &Deck) -> (r: Option<([Card; 52], [u8; 52])>)
    requires
        deck.wf(),
    ensures
        match r {
            Some((arr, at)) => indexed(arr@, at@) && holds_deck(deck@, arr@) && deck_full(deck@),
            None => !deck_full(deck@),
        },
{
    let mut arr = [Card::fake();52];
    let mut at = [0u8;52];
    let mut v: u8 = 0;
    while v < N_CARDS
        invariant
            v <= N_CARDS,
            forall|w: int| 0 <= w < v ==> (#[trigger] arr@[w]).0 == w,
            forall|w: int| 0 <= w < v ==> (#[trigger] at@[w]) == w,
        decreases N_CARDS - v,
    {
        arr[v as usize] = Card(v);
        at[v as usize] = v;
        v += 1;
    }
    let mut fixed = [false;52];
    let mut v: u8 = 0;
    proof {
        deck.lemma_wf();
    }
    while v < N_CARDS
        invariant
            v <= N_CARDS,
            deck.wf(),
            deck@.wf(),
            indexed(arr@, at@),
            forall|i: int|
                0 <= i < N_CARDS && #[trigger] fixed@[i] ==> i >= 28 && arr@[i].0 < v && deck@.slot_of(
                    arr@[i],
                ) == i - 28,
            forall|c: Card|
                c.0 < v && (#[trigger] deck@.slot_of(c)) < N_FULL_DECK ==> fixed@[28 + deck@.slot_of(c)]
                    && arr@[28 + deck@.slot_of(c)] == c,
        decreases N_CARDS - v,
    {
        let c = Card(v);
        let s = deck.slot(&c);
        if s < 24 {
            let k = 28 + s as usize;
            let ghost j = at@[v as int] as int;
            let ghost before = arr@;
            proof {
                assert(before[j].0 == v);
                if fixed@[j] {
                    assert(before[j].0 < v);
                }
                if fixed@[k as int] {
                    let w = before[k as int].0 as int;
                    assert(deck@.slots[w] != deck@.slots[v as int]);
                }
            }
            let (arr2, at2) = put(arr, at, k, c);
            arr = arr2;
            at = at2;
            fixed[k] = true;
            proof {
                assert forall|x: Card|
                    x.0 < v + 1 && (#[trigger] deck@.slot_of(x)) < N_FULL_DECK implies fixed@[28
                    + deck@.slot_of(x)] && arr@[28 + deck@.slot_of(x)] == x by {
                    if x.0 < v {
                        let t = 28 + deck@.slot_of(x);
                        assert(before[t] == x);
                        assert(deck@.slots[x.0 as int] != deck@.slots[v as int]);
                        assert(t != k);
                        assert(t != j);
                    }
                }
            }
        }
        v += 1;
    }
    let mut s: usize = 0;
    while s < 24
        invariant
            s <= 24,
            forall|k: int| 28 <= k < 28 + s ==> #[trigger] fixed@[k],
            forall|i: int|
                0 <= i < N_CARDS && #[trigger] fixed@[i] ==> i >= 28 && arr@[i].0 < N_CARDS
                    && deck@.slot_of(arr@[i]) == i - 28,
            forall|c: Card|
                c.0 < N_CARDS && (#[trigger] deck@.slot_of(c)) < N_FULL_DECK ==> fixed@[28
                    + deck@.slot_of(c)],
        decreases 24 - s,
    {
        if !fixed[28 + s] {
            proof {
                if slot_taken(deck@, s as int) {
                    let c = choose|c: Card| c.0 < N_CARDS && #[trigger] deck@.slot_of(c) == s;
                    assert(fixed@[28 + deck@.slot_of(c)]);
                }
                assert(!slot_taken(deck@, s as int));
            }
            return None;
        }
        s += 1;
    }
    proof {
        assert forall|k: int| 28 <= k < N_CARDS implies (#[trigger] arr@[k]).0 < N_CARDS && deck@.slot_of(
            arr@[k],
        ) == k - 28 by {
            assert(fixed@[k]);
        }
        assert forall|t: int| 0 <= t < N_FULL_DECK implies #[trigger] slot_taken(deck@, t) by {
            let k = 28 + t;
            assert(fixed@[k]);
            let c = arr@[28 + t];
            assert(c.0 < N_CARDS && deck@.slot_of(c) == t);
        }
    }
    Some((arr, at))
}

/// The cards of the deck and of the first `n` piles stand in their places,
/// and `done` marks the places of the piles that are taken.
pub open spec fn arranged(
    g: StandardView,
    arr: Seq<Card>,
    at: Seq<u8>,
    done: Seq<bool>,
    counts: Seq<u8>,
    n: int,
) -> bool {
    &&& indexed(arr, at)
    &&& holds_deck(g.deck, arr)
    &&& holds_piles(g, arr, counts, n)
    &&& done.len() == 28
    &&& forall|k: int| 0 <= k < 28 ==> (#[trigger] done[k] <==> laid_place(counts, n, k))
}

/// What stands at a place of the piles that is taken is the card that lies
/// there on the table.
proof fn lemma_laid(g: StandardView, arr: Seq<Card>, counts: Seq<u8>, n: int, k: int)
    requires
        g.wf(),
        0 <= n <= N_PILES,
        holds_piles(g, arr, counts, n),
        laid_place(counts, n, k),
    ensures
        g.laid_at(pile_index(k), k - pile_start(pile_index(k))) == Some(arr[k]),
        0 <= pile_index(k) < n,
{
    let q = pile_index(k);
    let l = k - pile_start(q);
    lemma_pile_start(q);
    assert(counts[q] <= q + 1);
    if l < g.hidden[q].len() {
        assert(arr[pile_start(q) + l] == g.hidden[q][l]);
    }
}

/// Brings card `c` to the place `k` of the piles, unless it stands in a
/// place that is taken.
fn lay_card(arr: [Card; 52], at: [u8; 52], done: [bool; 28], k: usize, c: Card) -> (r: Option<
    ([Card; 52], [u8; 52], [bool; 28]),
>)
    requires
        indexed(arr@, at@),
        k < 28,
        c.0 < N_CARDS,
        !done@[k as int],
    ensures
        match r {
            Some((a2, t2, d2)) => indexed(a2@, t2@) && a2@[k as int] == c && d2@ == done@.update(
                k as int,
                true,
            ) && (forall|i: int|
                0 <= i < N_CARDS && (i >= 28 || done@[i]) ==> #[trigger] a2@[i] == arr@[i]),
            None => at@[c.0 as int] >= 28 || done@[at@[c.0 as int] as int],
        },
{
    let t = at[c.0 as usize] as usize;
    if t >= 28 || done[t] {
        return None;
    }
    let (a2, t2) = put(arr, at, k, c);
    let mut d2 = done;
    d2[k] = true;
    Some((a2, t2, d2))
}

/// A card that is to be laid at depth `j` of pile `p` stands in a place that
/// is taken: the table cannot have come from a deal.
proof fn lemma_conflict(
    g: StandardView,
    arr: Seq<Card>,
    at: Seq<u8>,
    done: Seq<bool>,
    counts: Seq<u8>,
    p: int,
    j: int,
    c: Card,
)
    requires
        g.wf(),
        0 <= p < N_PILES,
        indexed(arr, at),
        holds_deck(g.deck, arr),
        holds_piles(g, arr, counts, p),
        done.len() == 28,
        0 <= j <= p,
        forall|k: int|
            0 <= k < 28 ==> (#[trigger] done[k] <==> laid_place(counts, p, k) || pile_start(p) <= k
                < pile_start(p) + j),
        forall|l: int| 0 <= l < j ==> #[trigger] g.laid_at(p, l) == Some(dealt_to(arr, p, l)),
        g.laid_at(p, j) == Some(c),
        c.0 < N_CARDS,
        at[c.0 as int] >= 28 || done[at[c.0 as int] as int],
    ensures
        !g.fits(),
{
    let t = at[c.0 as int] as int;
    assert(arr[t].0 == c.0);
    assert(arr[t] == c);
    lemma_pile_start(p);
    if t >= 28 {
        assert(g.deck.slot_of(arr[t]) == t - 28);
        assert(g.laid_at(p, j).is_some());
    } else if laid_place(counts, p, t) {
        lemma_laid(g, arr, counts, p, t);
        let q = pile_index(t);
        let l = t - pile_start(q);
        assert(g.laid_at(q, l) == Some(c));
        assert(g.laid_at(p, j).is_some());
        assert(q != p);
    } else {
        let l = t - pile_start(p);
        assert(g.laid_at(p, l) == Some(dealt_to(arr, p, l)));
        assert(g.laid_at(p, j).is_some());
        assert(l != j);
    }
}

/// Lays the face-down cards of column `p` and the card that lies on them
/// into pile `p`, and counts them; nothing where the table cannot have come
/// from a deal.
fn lay_column(
    g: &StandardSolitaire,
    p: u8,
    arr: [Card; 52],
    at: [u8; 52],
    done: [bool; 28],
    counts: [u8; 7],
) -> (r: Option<([Card; 52], [u8; 52], [bool; 28], [u8; 7])>)
    requires
        g.wf(),
        p < N_PILES,
        arranged(g@, arr@, at@, done@, counts@, p as int),
    ensures
        match r {
            Some((a2, t2, d2, n2)) => arranged(g@, a2@, t2@, d2@, n2@, p + 1),
            None => !g@.fits(),
        },
{
    let h = g.get_hidden_pile(p);
    let pile = g.get_pile(p);
    if h.len() > p as usize {
        return None;
    }
    proof {
        g.lemma_wf();
        lemma_pile_start(p as int);
    }
    let start = (p as usize) * (p as usize + 1) / 2;
    let mut a = arr;
    let mut t = at;
    let mut d = done;
    let mut j: usize = 0;
    while j < h.len()
        invariant
            j <= h@.len() <= p < N_PILES,
            g.wf(),
            g@.wf(),
            start == pile_start(p as int),
            h@ == g@.hidden[p as int],
            indexed(a@, t@),
            holds_deck(g@.deck, a@),
            holds_piles(g@, a@, counts@, p as int),
            d@.len() == 28,
            forall|k: int|
                0 <= k < 28 ==> (#[trigger] d@[k] <==> laid_place(counts@, p as int, k) || start <= k
                    < start + j),
            forall|l: int| 0 <= l < j ==> #[trigger] g@.laid_at(p as int, l) == Some(
                dealt_to(a@, p as int, l),
            ),
        decreases h@.len() - j,
    {
        let c = h[j];
        let ghost before = a@;
        proof {
            assert(g@.hidden[p as int][j as int].0 < N_CARDS);
            assert(!laid_place(counts@, p as int, start + j));
        }
        match lay_card(a, t, d, start + j, c) {
            Some((a2, t2, d2)) => {
                a = a2;
                t = t2;
                d = d2;
            },
            None => {
                proof {
                    lemma_conflict(g@, a@, t@, d@, counts@, p as int, j as int, c);
                }
                return None;
            },
        }
        proof {
            lemma_kept(g@, before, a@, counts@, p as int, j as int);
        }
        j += 1;
    }
    let mut n = counts;
    let headed = pile.len() > 0 && (h.len() > 0 || g.get_deck().slot(&pile[0]) >= 24);
    if headed {
        let c = pile[0];
        let ghost before = a@;
        proof {
            assert(g@.piles[p as int][0].0 < N_CARDS);
            assert(!laid_place(counts@, p as int, start + j));
        }
        match lay_card(a, t, d, start + j, c) {
            Some((a2, t2, d2)) => {
                a = a2;
                t = t2;
                d = d2;
            },
            None => {
                proof {
                    lemma_conflict(g@, a@, t@, d@, counts@, p as int, j as int, c);
                }
                return None;
            },
        }
        proof {
            lemma_kept(g@, before, a@, counts@, p as int, j as int);
        }
        n[p as usize] = (h.len() + 1) as u8;
    } else {
        n[p as usize] = 0;
    }
    proof {
        lemma_column_done(g@, a@, counts@, n@, d@, p as int);
    }
    Some((a, t, d, n))
}

/// What a card that is laid at depth `j` of pile `p` leaves as it was: the
/// cards of the deck, of the piles before, and of pile `p` above it.
proof fn lemma_kept(g: StandardView, before: Seq<Card>, after: Seq<Card>, counts: Seq<u8>, p: int, j: int)
    requires
        g.wf(),
        0 <= p < N_PILES,
        0 <= j <= g.hidden[p].len() <= p,
        before.len() == N_CARDS,
        after.len() == N_CARDS,
        holds_deck(g.deck, before),
        holds_piles(g, before, counts, p),
        forall|l: int| 0 <= l < j ==> #[trigger] g.laid_at(p, l) == Some(dealt_to(before, p, l)),
        g.laid_at(p, j) == Some(after[pile_start(p) + j]),
        forall|i: int|
            0 <= i < N_CARDS && (i >= 28 || laid_place(counts, p, i) || pile_start(p) <= i
                < pile_start(p) + j) ==> #[trigger] after[i] == before[i],
    ensures
        holds_deck(g.deck, after),
        holds_piles(g, after, counts, p),
        forall|l: int| 0 <= l < j + 1 ==> #[trigger] g.laid_at(p, l) == Some(dealt_to(after, p, l)),
{
    lemma_pile_start(p);
    assert forall|c: Card|
        c.0 < N_CARDS && (#[trigger] g.deck.slot_of(c)) < N_FULL_DECK implies after[28 + g.deck.slot_of(
        c,
    )] == c by {
        assert(after[28 + g.deck.slot_of(c)] == before[28 + g.deck.slot_of(c)]);
    }
    assert forall|k: int| 28 <= k < N_CARDS implies (#[trigger] after[k]).0 < N_CARDS && g.deck.slot_of(
        after[k],
    ) == k - 28 by {
        assert(after[k] == before[k]);
    }
    assert forall|q: int| 0 <= q < p implies (#[trigger] counts[q]) <= q + 1 && (if g.headed(q) {
        counts[q] == g.hidden[q].len() + 1 && after[pile_start(q) + g.hidden[q].len()] == g.piles[q][0]
    } else {
        counts[q] == 0 && g.hidden[q].len() == 0
    }) by {
        lemma_pile_start(q);
        assert(counts[q] <= q + 1);
        if g.headed(q) {
            assert(counts[q] == g.hidden[q].len() + 1);
            let k = pile_start(q) + g.hidden[q].len();
            lemma_place(q, g.hidden[q].len() as int);
            assert(pile_index(k) == q);
            assert(laid_place(counts, p, k));
            assert(after[k] == before[k]);
        }
    }
    assert forall|q: int, l: int| 0 <= q < p && 0 <= l < g.hidden[q].len() implies after[pile_start(q)
        + l] == #[trigger] g.hidden[q][l] by {
        lemma_pile_start(q);
        assert(counts[q] <= q + 1);
        assert(g.headed(q));
        assert(g.hidden[q].len() <= q);
        let k = pile_start(q) + l;
        assert(0 <= l <= q);
        assert(pile_index(k) == q) by {
            lemma_place(q, l);
        }
        assert(laid_place(counts, p, k));
        assert(after[k] == before[k]);
    }
    assert forall|l: int| 0 <= l < j + 1 implies #[trigger] g.laid_at(p, l) == Some(
        dealt_to(after, p, l),
    ) by {
        if l < j {
            assert(g.laid_at(p, l) == Some(dealt_to(before, p, l)));
            assert(after[pile_start(p) + l] == before[pile_start(p) + l]);
        }
    }
}

/// A column whose cards are laid is counted.
proof fn lemma_column_done(
    g: StandardView,
    arr: Seq<Card>,
    counts: Seq<u8>,
    after: Seq<u8>,
    done: Seq<bool>,
    p: int,
)
    requires
        g.wf(),
        0 <= p < N_PILES,
        g.hidden[p].len() <= p,
        holds_piles(g, arr, counts, p),
        after == counts.update(p, if g.headed(p) {
            (g.hidden[p].len() + 1) as u8
        } else {
            0u8
        }),
        done.len() == 28,
        forall|k: int|
            0 <= k < 28 ==> (#[trigger] done[k] <==> laid_place(counts, p, k) || pile_start(p) <= k
                < pile_start(p) + g.hidden[p].len() + (if g.headed(p) {
                1int
            } else {
                0
            })),
        forall|l: int|
            0 <= l < g.hidden[p].len() + (if g.headed(p) {
                1int
            } else {
                0
            }) ==> #[trigger] g.laid_at(p, l) == Some(dealt_to(arr, p, l)),
    ensures
        holds_piles(g, arr, after, p + 1),
        forall|k: int| 0 <= k < 28 ==> (#[trigger] done[k] <==> laid_place(after, p + 1, k)),
{
    lemma_pile_start(p);
    assert forall|q: int| 0 <= q < p + 1 implies (#[trigger] after[q]) <= q + 1 && (if g.headed(q) {
        after[q] == g.hidden[q].len() + 1 && arr[pile_start(q) + g.hidden[q].len()] == g.piles[q][0]
    } else {
        after[q] == 0 && g.hidden[q].len() == 0
    }) by {
        if q < p {
            assert(after[q] == counts[q]);
        } else {
            if g.headed(p) {
                let l = g.hidden[p].len() as int;
                assert(g.laid_at(p, l) == Some(dealt_to(arr, p, l)));
            }
        }
    }
    assert forall|q: int, l: int| 0 <= q < p + 1 && 0 <= l < g.hidden[q].len() implies arr[pile_start(
        q,
    ) + l] == #[trigger] g.hidden[q][l] by {
        if q == p {
            assert(g.laid_at(p, l) == Some(dealt_to(arr, p, l)));
        }
    }
    assert forall|k: int| 0 <= k < 28 implies (#[trigger] done[k] <==> laid_place(after, p + 1, k)) by {
        let q = pile_index(k);
        lemma_pile_start(q);
        if q < p {
            assert(after[q] == counts[q]);
        } else if q > p {
            assert(pile_start(p) + p + 1 <= pile_start(q)) by {
                lemma_mono(p, q);
            }
        }
    }
}

/// The place at depth `l` of pile `q` is one of pile `q`.
proof fn lemma_place(q: int, l: int)
    requires
        0 <= q < N_PILES,
        0 <= l <= q,
    ensures
        pile_index(pile_start(q) + l) == q,
        0 <= pile_start(q) + l < 28,
{
}

/// Later piles begin further on in the deal.
proof fn lemma_mono(p: int, q: int)
    requires
        0 <= p < q < N_PILES,
    ensures
        pile_start(p) + p + 1 <= pile_start(q),
{
    lemma_pile_start(p);
    lemma_pile_start(q);
}

/// A table whose cards stand in their places of a deal can have come from
/// it.
proof fn lemma_fits(g: StandardView, arr: Seq<Card>, at: Seq<u8>, counts: Seq<u8>)
    requires
        g.wf(),
        indexed(arr, at),
        holds_deck(g.deck, arr),
        holds_piles(g, arr, counts, N_PILES as int),
        deck_full(g.deck),
    ensures
        g.fits(),
        forall|p: int, j: int|
            0 <= p < N_PILES && (#[trigger] g.laid_at(p, j)).is_some() ==> 0 <= j <= p && g.laid_at(p, j)
                == Some(dealt_to(arr, p, j)),
{
    lemma_indexed_deal(arr, at);
    assert forall|p: int| 0 <= p < N_PILES implies (#[trigger] g.hidden[p]).len() <= p by {
        assert(counts[p] <= p + 1);
    }
    assert forall|p: int, j: int| 0 <= p < N_PILES && (#[trigger] g.laid_at(p, j)).is_some() implies 0
        <= j <= p && g.laid_at(p, j) == Some(dealt_to(arr, p, j)) by {
        assert(counts[p] <= p + 1);
        if j < g.hidden[p].len() {
            assert(arr[pile_start(p) + j] == g.hidden[p][j]);
        }
    }
    assert forall|p: int, j: int|
        0 <= p < N_PILES && (#[trigger] g.laid_at(p, j)).is_some() implies g.deck.slot_of(
        g.laid_at(p, j).unwrap(),
    ) >= N_FULL_DECK by {
        let c = g.laid_at(p, j).unwrap();
        lemma_place(p, j);
        let k = pile_start(p) + j;
        assert(arr[k] == c);
        if g.deck.slot_of(c) < N_FULL_DECK {
            let t = 28 + g.deck.slot_of(c);
            assert(arr[t] == c);
            assert(at[arr[k].0 as int] == k);
            assert(at[arr[t].0 as int] == t);
        }
    }
    assert forall|p: int, j: int, q: int, l: int|
        0 <= p < N_PILES && 0 <= q < N_PILES && (p != q || j != l) && (#[trigger] g.laid_at(
            p,
            j,
        )).is_some() implies g.laid_at(p, j) != #[trigger] g.laid_at(q, l) by {
        if g.laid_at(q, l).is_some() {
            lemma_place(p, j);
            lemma_place(q, l);
            let k = pile_start(p) + j;
            let t = pile_start(q) + l;
            assert(k != t);
            assert(at[arr[k].0 as int] == k);
            assert(at[arr[t].0 as int] == t);
        }
    }
}

/// A deal that the table `g` can have come from, with the counts of its
/// piles: see [`holds_deck`] and [`holds_piles`]. There is none where
/// [`StandardView::fits`] does not hold.
pub fn arrange(g: &StandardSolitaire) -> (r: Option<([Card; 52], [u8; 7])>)
    requires
        g.wf(),
    ensures
        match r {
            Some((deal, counts)) => is_deal(deal@) && holds_deck(g@.deck, deal@) && holds_piles(
                g@,
                deal@,
                counts@,
                N_PILES as int,
            ) && g@.fits(),
            None => !g@.fits(),
        },
{
    proof {
        g.lemma_wf();
    }
    let (mut arr, mut at) = match lay_deck(g.get_deck()) {
        Some(x) => x,
        None => {
            return None;
        },
    };
    let mut done = [false;28];
    let mut counts = [0u8;7];
    let mut p: u8 = 0;
    while p < N_PILES
        invariant
            p <= N_PILES,
            g.wf(),
            g@.wf(),
            deck_full(g@.deck),
            arranged(g@, arr@, at@, done@, counts@, p as int),
        decreases N_PILES - p,
    {
        match lay_column(g, p, arr, at, done, counts) {
            Some((a2, t2, d2, n2)) => {
                arr = a2;
                at = t2;
                done = d2;
                counts = n2;
            },
            None => {
                return None;
            },
        }
        p += 1;
    }
    proof {
        lemma_indexed_deal(arr@, at@);
        lemma_fits(g@, arr@, at@, counts@);
    }
    Some((arr, counts))
}

} // verus!
