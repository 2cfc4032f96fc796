//! A game of which some cards are not known, and ways to fill them in.

use crate::card::{lemma_mask_index, mask_index, Card, KING_RANK, N_CARDS};
use crate::deck::{Drawable, N_FULL_DECK, N_PILES};
use crate::engine::{InvalidConstruction, Solitaire, SolitaireView};
use crate::moves::Move;
use crate::table::engine_of;
use crate::standard::{can_deal, StandardSolitaire};
use crate::random::shuffle_cards;
use rand::rngs::SmallRng;
use vstd::prelude::*;

verus! {

/// A column of the tableau of which some face-down cards are not known.
#[derive(Clone, Debug)]
pub struct PartialColumn {
    /// The face-down cards, deepest first; `None` is a card that is not known.
    pub hidden: Vec<Option<Card>>,
    /// The face-up cards, the card that others lie on first.
    pub visible: Vec<Card>,
}

/// A game of which some cards are not known.
#[derive(Clone, Debug)]
pub struct PartialState {
    pub columns: [PartialColumn; 7],
    /// The deck, the bottom of the waste first; `None` is a card that is not
    /// known.
    pub deck: Vec<Option<Card>>,
    pub draw_step: u8,
}

/// Number of places of `s` whose card is not known.
pub open spec fn count_unknown(s: Seq<Option<Card>>) -> nat
    decreases s.len(),
{
    if s.len() == 0 {
        0
    } else {
        count_unknown(s.drop_last()) + (if s.last().is_none() {
            1nat
        } else {
            0
        })
    }
}

/// The places of one column in the order of the deal: the face-down cards,
/// then the face-up ones.
pub open spec fn column_places(hidden: Seq<Option<Card>>, visible: Seq<Card>) -> Seq<Option<Card>> {
    hidden + visible.map_values(|c: Card| Some(c))
}

/// The cards that `places` does not name, in bitboard order.
pub open spec fn unnamed(places: Seq<Option<Card>>, n: int) -> Seq<Card>
    decreases n,
{
    if n <= 0 {
        Seq::empty()
    } else {
        let c = Card(mask_index((n - 1) as u8));
        if places.contains(Some(c)) {
            unnamed(places, n - 1)
        } else {
            unnamed(places, n - 1).push(c)
        }
    }
}

/// The deal that `places` and the cards `fill` give: each place that names no
/// card takes the next card of `fill`, and the cards of `fill` that are left
/// come after the places, up to 52 cards.
pub open spec fn filled_card(places: Seq<Option<Card>>, fill: Seq<Card>, k: int) -> Card {
    if k < places.len() {
        match places[k] {
            Some(c) => c,
            None => fill[count_unknown(places.subrange(0, k)) as int],
        }
    } else {
        fill[count_unknown(places) + k - places.len()]
    }
}

pub open spec fn filled(places: Seq<Option<Card>>, fill: Seq<Card>) -> Seq<Card> {
    Seq::new(N_CARDS as nat, |k: int| filled_card(places, fill, k))
}

/// There are at most 52 places, and enough cards to fill in.
pub open spec fn can_fill(places: Seq<Option<Card>>, fill: Seq<Card>) -> bool {
    places.len() <= N_CARDS && count_unknown(places) + N_CARDS - places.len() <= fill.len()
}

impl PartialColumn {
    /// Number of face-down cards that are not known.
    #[must_use]
    pub fn hidden_len(&self) -> (n: usize)
        ensures
            n == count_unknown(self.hidden@),
    {
        let mut n: usize = 0;
        let mut i: usize = 0;
        proof {
            assert(self.hidden@.subrange(0, 0) =~= Seq::<Option<Card>>::empty());
        }
        while i < self.hidden.len()
            invariant
                i <= self.hidden.len(),
                n == count_unknown(self.hidden@.subrange(0, i as int)),
                n <= i,
            decreases self.hidden.len() - i,
        {
            proof {
                let t = self.hidden@.subrange(0, i + 1);
                assert(t.drop_last() =~= self.hidden@.subrange(0, i as int));
            }
            if self.hidden[i].is_none() {
                n += 1;
            }
            i += 1;
        }
        proof {
            assert(self.hidden@.subrange(0, self.hidden@.len() as int) =~= self.hidden@);
        }
        n
    }
}

impl PartialState {
    /// The places of the whole game in the order of the deal: column by
    /// column, then the deck.
    pub open spec fn places(&self) -> Seq<Option<Card>> {
        column_places(self.columns@[0].hidden@, self.columns@[0].visible@) + column_places(
            self.columns@[1].hidden@,
            self.columns@[1].visible@,
        ) + column_places(self.columns@[2].hidden@, self.columns@[2].visible@) + column_places(
            self.columns@[3].hidden@,
            self.columns@[3].visible@,
        ) + column_places(self.columns@[4].hidden@, self.columns@[4].visible@) + column_places(
            self.columns@[5].hidden@,
            self.columns@[5].visible@,
        ) + column_places(self.columns@[6].hidden@, self.columns@[6].visible@) + self.deck@
    }

    /// The places of the first `n` columns.
    pub open spec fn places_upto(&self, n: int) -> Seq<Option<Card>>
        decreases n,
    {
        if n <= 0 {
            Seq::empty()
        } else {
            self.places_upto(n - 1) + column_places(
                self.columns@[n - 1].hidden@,
                self.columns@[n - 1].visible@,
            )
        }
    }

    /// The places of the game as one list.
    pub fn list_places(&self) -> (v: Vec<Option<Card>>)
        ensures
            v@ == self.places(),
    {
        let mut v: Vec<Option<Card>> = Vec::new();
        let mut i: usize = 0;
        proof {
            assert(v@ =~= self.places_upto(0));
        }
        while i < 7
            invariant
                i <= 7,
                v@ == self.places_upto(i as int),
            decreases 7 - i,
        {
            let col = &self.columns[i];
            let ghost base = v@;
            let mut j: usize = 0;
            while j < col.hidden.len()
                invariant
                    j <= col.hidden.len(),
                    v@ == base + col.hidden@.subrange(0, j as int),
                decreases col.hidden.len() - j,
            {
                v.push(col.hidden[j]);
                proof {
                    assert(v@ =~= base + col.hidden@.subrange(0, j + 1));
                }
                j += 1;
            }
            let ghost mid = v@;
            let ghost f = |c: Card| Some(c);
            let mut j: usize = 0;
            proof {
                assert(col.hidden@.subrange(0, col.hidden@.len() as int) =~= col.hidden@);
                assert(v@ =~= mid + col.visible@.subrange(0, 0).map_values(f));
            }
            while j < col.visible.len()
                invariant
                    j <= col.visible.len(),
                    f == |c: Card| Some(c),
                    v@ == mid + col.visible@.subrange(0, j as int).map_values(f),
                decreases col.visible.len() - j,
            {
                v.push(Some(col.visible[j]));
                proof {
                    assert(v@ =~= mid + col.visible@.subrange(0, j + 1).map_values(f));
                }
                j += 1;
            }
            proof {
                assert(col.visible@.subrange(0, col.visible@.len() as int) =~= col.visible@);
                assert(v@ =~= base + column_places(col.hidden@, col.visible@));
            }
            i += 1;
        }
        let ghost cols = v@;
        let mut j: usize = 0;
        while j < self.deck.len()
            invariant
                j <= self.deck.len(),
                v@ == cols + self.deck@.subrange(0, j as int),
            decreases self.deck.len() - j,
        {
            v.push(self.deck[j]);
            proof {
                assert(v@ =~= cols + self.deck@.subrange(0, j + 1));
            }
            j += 1;
        }
        proof {
            assert(self.deck@.subrange(0, self.deck@.len() as int) =~= self.deck@);
            assert(self.places_upto(1) =~= column_places(
                self.columns@[0].hidden@,
                self.columns@[0].visible@,
            )) by {
                assert(self.places_upto(0) =~= Seq::<Option<Card>>::empty());
            }
            assert(self.places_upto(2) == self.places_upto(1) + column_places(
                self.columns@[1].hidden@,
                self.columns@[1].visible@,
            ));
            assert(self.places_upto(3) == self.places_upto(2) + column_places(
                self.columns@[2].hidden@,
                self.columns@[2].visible@,
            ));
            assert(self.places_upto(4) == self.places_upto(3) + column_places(
                self.columns@[3].hidden@,
                self.columns@[3].visible@,
            ));
            assert(self.places_upto(5) == self.places_upto(4) + column_places(
                self.columns@[4].hidden@,
                self.columns@[4].visible@,
            ));
            assert(self.places_upto(6) == self.places_upto(5) + column_places(
                self.columns@[5].hidden@,
                self.columns@[5].visible@,
            ));
            assert(self.places_upto(7) == self.places_upto(6) + column_places(
                self.columns@[6].hidden@,
                self.columns@[6].visible@,
            ));
        }
        v
    }

    /// The cards that the game does not name, in bitboard order.
    pub fn remaining_cards(&self) -> (v: Vec<Card>)
        ensures
            v@ == unnamed(self.places(), N_CARDS as int),
    {
        let places = self.list_places();
        let mut named = [false;256];
        let mut i: usize = 0;
        while i < places.len()
            invariant
                i <= places.len(),
                forall|x: int|
                    0 <= x < 256 ==> (#[trigger] named@[x] <==> places@.subrange(0, i as int).contains(
                        Some(Card(x as u8)),
                    )),
            decreases places.len() - i,
        {
            let ghost before = named@;
            let ghost head = places@.subrange(0, i as int);
            let ghost next = places@.subrange(0, i + 1);
            proof {
                assert(next =~= head.push(places@[i as int]));
            }
            match places[i] {
                Some(c) => {
                    named[c.value() as usize] = true;
                },
                None => {},
            }
            proof {
                assert forall|x: int| 0 <= x < 256 implies (#[trigger] named@[x] <==> next.contains(
                    Some(Card(x as u8)),
                )) by {
                    let want = Some(Card(x as u8));
                    if head.contains(want) {
                        let k = choose|k: int| 0 <= k < head.len() && head[k] == want;
                        assert(next[k] == want);
                    }
                    if next.contains(want) {
                        let k = choose|k: int| 0 <= k < next.len() && next[k] == want;
                        if k < i {
                            assert(head[k] == want);
                        }
                    }
                    if places@[i as int] == want {
                        assert(next[i as int] == want);
                    }
                }
            }
            i += 1;
        }
        proof {
            assert(places@.subrange(0, places@.len() as int) =~= places@);
        }
        let mut v: Vec<Card> = Vec::new();
        let mut n: u8 = 0;
        while n < N_CARDS
            invariant
                n <= N_CARDS,
                places@ == self.places(),
                v@ == unnamed(places@, n as int),
                forall|x: int|
                    0 <= x < 256 ==> (#[trigger] named@[x] <==> places@.contains(Some(Card(x as u8)))),
            decreases N_CARDS - n,
        {
            proof {
                lemma_mask_index(n);
            }
            let c = Card::from_value(n ^ ((n >> 1) & 2));
            if !named[c.value() as usize] {
                v.push(c);
            }
            n += 1;
        }
        v
    }

    /// The game that `g` is, with every card known.
    pub fn from_standard(g: &StandardSolitaire) -> (r: PartialState)
        requires
            g.wf(),
        ensures
            r.draw_step == g@.deck.step,
            r.deck@ == g@.deck.cards.map_values(|c: Card| Some(c)),
            forall|i: int|
                0 <= i < N_PILES ==> (#[trigger] r.columns@[i]).visible@ == g@.piles[i]
                    && r.columns@[i].hidden@ == g@.hidden[i].map_values(|c: Card| Some(c)),
    {
        proof {
            g.lemma_wf();
        }
        let c0 = Self::known_column(g, 0);
        let c1 = Self::known_column(g, 1);
        let c2 = Self::known_column(g, 2);
        let c3 = Self::known_column(g, 3);
        let c4 = Self::known_column(g, 4);
        let c5 = Self::known_column(g, 5);
        let c6 = Self::known_column(g, 6);
        let cards = g.get_deck().iter();
        let deck = wrap_cards(&cards);
        PartialState {
            columns: [c0, c1, c2, c3, c4, c5, c6],
            deck,
            draw_step: g.get_deck().draw_step(),
        }
    }

    fn known_column(g: &StandardSolitaire, p: u8) -> (c: PartialColumn)
        requires
            g.wf(),
            p < N_PILES,
        ensures
            c.visible@ == g@.piles[p as int],
            c.hidden@ == g@.hidden[p as int].map_values(|c: Card| Some(c)),
    {
        let hidden = wrap_cards(g.get_hidden_pile(p));
        let visible = copy_cards(g.get_pile(p));
        PartialColumn { hidden, visible }
    }

    /// The game that `sol` is to a player who sees the table: the face-down
    /// cards are not known, and of the deck only the cards that can be
    /// reached.
    pub fn from_blind(sol: &Solitaire) -> (r: PartialState)
        requires
            sol.wf(),
        ensures
            r.draw_step == sol@.deck.step,
            sol@.laid_out(Seq::new(7, |i: int| r.columns@[i].visible@)),
            forall|i: int|
                0 <= i < N_PILES ==> (#[trigger] r.columns@[i]).hidden@.len() == sol@.hidden.down_cards(
                    i,
                ).len() && count_unknown(r.columns@[i].hidden@) == r.columns@[i].hidden@.len(),
            r.deck@.len() == sol@.deck.len(),
            forall|j: int|
                0 <= j < r.deck@.len() ==> #[trigger] r.deck@[j] == (if sol@.deck.drawable(j)
                    == Drawable::Blocked {
                    None
                } else {
                    Some(sol@.deck.cards[j])
                }),
    {
        let hidden = sol.get_hidden().to_piles();
        let visible = sol.compute_visible_piles();
        let ghost cols = Seq::new(visible@.len(), |i: int| visible@[i]@);
        let c0 = Self::blind_column(&hidden, &visible, 0);
        let c1 = Self::blind_column(&hidden, &visible, 1);
        let c2 = Self::blind_column(&hidden, &visible, 2);
        let c3 = Self::blind_column(&hidden, &visible, 3);
        let c4 = Self::blind_column(&hidden, &visible, 4);
        let c5 = Self::blind_column(&hidden, &visible, 5);
        let c6 = Self::blind_column(&hidden, &visible, 6);
        let all = sol.get_deck().iter_all();
        let mut deck: Vec<Option<Card>> = Vec::new();
        let mut j: usize = 0;
        while j < all.len()
            invariant
                j <= all.len(),
                all@ == sol@.deck.entries(0, sol@.deck.len()),
                deck@.len() == j,
                forall|k: int|
                    0 <= k < j ==> #[trigger] deck@[k] == (if sol@.deck.drawable(k)
                        == Drawable::Blocked {
                        None
                    } else {
                        Some(sol@.deck.cards[k])
                    }),
            decreases all.len() - j,
        {
            let entry = all[j];
            proof {
                assert(entry == sol@.deck.entry(j as int));
            }
            if entry.2 == Drawable::Blocked {
                deck.push(None);
            } else {
                deck.push(Some(entry.1));
            }
            j += 1;
        }
        let r = PartialState {
            columns: [c0, c1, c2, c3, c4, c5, c6],
            deck,
            draw_step: sol.get_deck().draw_step(),
        };
        proof {
            assert(Seq::new(7, |i: int| r.columns@[i].visible@) =~= cols);
        }
        r
    }

    fn blind_column(hidden: &Vec<Vec<Card>>, visible: &Vec<Vec<Card>>, p: usize) -> (c: PartialColumn)
        requires
            p < hidden@.len(),
            p < visible@.len(),
        ensures
            c.visible@ == visible@[p as int]@,
            c.hidden@.len() == hidden@[p as int]@.len(),
            count_unknown(c.hidden@) == c.hidden@.len(),
    {
        let n = hidden[p].len();
        let mut down: Vec<Option<Card>> = Vec::new();
        let mut j: usize = 0;
        while j < n
            invariant
                j <= n,
                down@.len() == j,
                count_unknown(down@) == j,
            decreases n - j,
        {
            let ghost before = down@;
            down.push(None);
            proof {
                assert(down@.drop_last() =~= before);
            }
            j += 1;
        }
        PartialColumn { hidden: down, visible: copy_cards(&visible[p]) }
    }

    /// The deal in which the places that name no card take the cards of `fill`
    /// in turn, and the cards of `fill` that are left make up 52; and the game
    /// that this deal gives.
    pub fn fill_with(&self, fill: &Vec<Card>) -> (r: Result<StandardSolitaire, InvalidConstruction>)
        ensures
            r.is_ok() <==> can_fill(self.places(), fill@) && can_deal(filled(self.places(), fill@))
                && 1 <= self.draw_step <= N_FULL_DECK,
            match r {
                Ok(g) => g.wf() && g@.is_initial(
                    filled(self.places(), fill@),
                    self.draw_step as int,
                ),
                Err(_) => true,
            },
    {
        let places = self.list_places();
        if places.len() > 52 {
            return Err(InvalidConstruction {  });
        }
        let mut cards = [Card::fake();52];
        let mut used: usize = 0;
        let mut k: usize = 0;
        proof {
            assert(places@.subrange(0, 0) =~= Seq::<Option<Card>>::empty());
        }
        while k < places.len()
            invariant
                k <= places.len() <= 52,
                places@ == self.places(),
                used == count_unknown(places@.subrange(0, k as int)),
                used <= k,
                used <= fill@.len(),
                forall|l: int| 0 <= l < k ==> #[trigger] cards@[l] == filled_card(places@, fill@, l),
            decreases places.len() - k,
        {
            proof {
                let t = places@.subrange(0, k + 1);
                assert(t.drop_last() =~= places@.subrange(0, k as int));
            }
            match places[k] {
                Some(c) => {
                    cards[k] = c;
                },
                None => {
                    if used >= fill.len() {
                        proof {
                            assert(count_unknown(places@.subrange(0, k + 1)) == used + 1);
                            lemma_count_grows(places@, k + 1);
                        }
                        return Err(InvalidConstruction {  });
                    }
                    cards[k] = fill[used];
                    used += 1;
                },
            }
            k += 1;
        }
        proof {
            assert(places@.subrange(0, places@.len() as int) =~= places@);
        }
        while k < 52
            invariant
                places@.len() <= k <= 52,
                places@ == self.places(),
                used == count_unknown(places@) + k - places@.len(),
                used <= fill@.len(),
                forall|l: int| 0 <= l < k ==> #[trigger] cards@[l] == filled_card(places@, fill@, l),
            decreases 52 - k,
        {
            if used >= fill.len() {
                return Err(InvalidConstruction {  });
            }
            cards[k] = fill[used];
            used += 1;
            k += 1;
        }
        proof {
            assert(cards@ =~= filled(places@, fill@));
        }
        StandardSolitaire::new(&cards, self.draw_step)
    }

    /// Fills the places that name no card with the cards that the game does
    /// not name, in an order that `rng` gives: see [`PartialState::fill_with`].
    pub fn fill_unknowns_randomly(&self, rng: &mut SmallRng) -> (r: Result<
        StandardSolitaire,
        InvalidConstruction,
    >)
        ensures
            exists|fill: Seq<Card>|
                fill.to_multiset() == unnamed(self.places(), N_CARDS as int).to_multiset() && (
                r.is_ok() <==> can_fill(self.places(), fill) && can_deal(
                    filled(self.places(), fill),
                ) && 1 <= self.draw_step <= N_FULL_DECK) && (match r {
                    Ok(g) => g.wf() && g@.is_initial(
                        filled(self.places(), fill),
                        self.draw_step as int,
                    ),
                    Err(_) => true,
                }),
    {
        let mut remaining = self.remaining_cards();
        shuffle_cards(&mut remaining, rng);
        let r = self.fill_with(&remaining);
        proof {
            let fill = remaining@;
            assert(fill.to_multiset() == unnamed(self.places(), N_CARDS as int).to_multiset() && (
            r.is_ok() <==> can_fill(self.places(), fill) && can_deal(filled(self.places(), fill))
                && 1 <= self.draw_step <= N_FULL_DECK) && (match r {
                Ok(g) => g.wf() && g@.is_initial(filled(self.places(), fill), self.draw_step as int),
                Err(_) => true,
            }));
        }
        r
    }
}

/// The number of places that name no card grows with the list.
proof fn lemma_count_grows(s: Seq<Option<Card>>, k: int)
    requires
        0 <= k <= s.len(),
    ensures
        count_unknown(s.subrange(0, k)) <= count_unknown(s),
    decreases s.len() - k,
{
    if k < s.len() {
        lemma_count_grows(s, k + 1);
        assert(s.subrange(0, k + 1).drop_last() =~= s.subrange(0, k));
    } else {
        assert(s.subrange(0, k) =~= s);
    }
}

/// The cards of `cards`, each as a known card.
fn wrap_cards(cards: &Vec<Card>) -> (v: Vec<Option<Card>>)
    ensures
        v@ == cards@.map_values(|c: Card| Some(c)),
{
    let ghost f = |c: Card| Some(c);
    let mut v: Vec<Option<Card>> = Vec::new();
    let mut j: usize = 0;
    proof {
        assert(v@ =~= cards@.subrange(0, 0).map_values(f));
    }
    while j < cards.len()
        invariant
            j <= cards.len(),
            f == |c: Card| Some(c),
            v@ == cards@.subrange(0, j as int).map_values(f),
        decreases cards.len() - j,
    {
        v.push(Some(cards[j]));
        proof {
            assert(v@ =~= cards@.subrange(0, j + 1).map_values(f));
        }
        j += 1;
    }
    proof {
        assert(cards@.subrange(0, cards@.len() as int) =~= cards@);
    }
    v
}

/// A copy of `cards`.
fn copy_cards(cards: &Vec<Card>) -> (v: Vec<Card>)
    ensures
        v@ == cards@,
{
    let mut v: Vec<Card> = Vec::new();
    let mut j: usize = 0;
    while j < cards.len()
        invariant
            j <= cards.len(),
            v@ == cards@.subrange(0, j as int),
        decreases cards.len() - j,
    {
        v.push(cards[j]);
        proof {
            assert(v@ =~= cards@.subrange(0, j + 1));
        }
        j += 1;
    }
    proof {
        assert(cards@.subrange(0, cards@.len() as int) =~= cards@);
    }
    v
}

/// The sum of `a` and `b`, or the greatest number if the sum is greater.
pub open spec fn capped(a: int, b: int) -> int {
    if a + b <= usize::MAX {
        a + b
    } else {
        usize::MAX as int
    }
}

fn add_capped(a: usize, b: usize) -> (r: usize)
    ensures
        r == capped(a as int, b as int),
{
    if a > usize::MAX - b {
        usize::MAX
    } else {
        a + b
    }
}

/// Number of places of `v` whose card is not known.
fn count_none(v: &Vec<Option<Card>>) -> (n: usize)
    ensures
        n == count_unknown(v@),
{
    let mut n: usize = 0;
    let mut i: usize = 0;
    proof {
        assert(v@.subrange(0, 0) =~= Seq::<Option<Card>>::empty());
    }
    while i < v.len()
        invariant
            i <= v.len(),
            n == count_unknown(v@.subrange(0, i as int)),
            n <= i,
        decreases v.len() - i,
    {
        proof {
            let t = v@.subrange(0, i + 1);
            assert(t.drop_last() =~= v@.subrange(0, i as int));
        }
        if v[i].is_none() {
            n += 1;
        }
        i += 1;
    }
    proof {
        assert(v@.subrange(0, v@.len() as int) =~= v@);
    }
    n
}

impl PartialState {
    /// Number of cards that are not known: in the deck, and face down in the
    /// first `n` columns.
    pub open spec fn unknown_upto(&self, n: int) -> int
        decreases n,
    {
        if n <= 0 {
            count_unknown(self.deck@) as int
        } else {
            self.unknown_upto(n - 1) + count_unknown(self.columns@[n - 1].hidden@)
        }
    }

    /// Number of cards that are not known, in the deck and face down in the
    /// seven columns; the greatest number if there are more.
    #[must_use]
    pub fn unknown_cards(&self) -> (n: usize)
        ensures
            n == (if self.unknown_upto(7) <= usize::MAX {
                self.unknown_upto(7)
            } else {
                usize::MAX as int
            }),
    {
        let mut n = count_none(&self.deck);
        let mut i: usize = 0;
        while i < 7
            invariant
                i <= 7,
                n == (if self.unknown_upto(i as int) <= usize::MAX {
                    self.unknown_upto(i as int)
                } else {
                    usize::MAX as int
                }),
            decreases 7 - i,
        {
            n = add_capped(n, self.columns[i].hidden_len());
            i += 1;
        }
        n
    }

    /// The last face-up card of column `i` can go to column `j`: on its last
    /// face-up card, or as a king on a column without face-up cards.
    pub open spec fn takes(&self, i: int, j: int) -> bool {
        let top = self.columns@[i].visible@.last();
        let other = self.columns@[j].visible@;
        i != j && (if other.len() > 0 {
            other.last().spec_go_before(&top)
        } else {
            top.spec_rank() == KING_RANK
        })
    }

    /// One of the first `n` columns takes the last face-up card of column
    /// `i`.
    pub open spec fn taken_below(&self, i: int, n: int) -> bool {
        exists|j: int| 0 <= j < n && self.takes(i, j)
    }

    /// Column `i` is blocked: it has no face-up card but face-down cards; or
    /// no other column takes its last face-up card.
    pub open spec fn blocked(&self, i: int) -> bool {
        if self.columns@[i].visible@.len() == 0 {
            self.columns@[i].hidden@.len() > 0
        } else {
            !self.taken_below(i, 7)
        }
    }

    /// Number of the first `n` columns that are blocked.
    pub open spec fn blocked_upto(&self, n: int) -> int
        decreases n,
    {
        if n <= 0 {
            0
        } else {
            self.blocked_upto(n - 1) + (if self.blocked(n - 1) {
                1int
            } else {
                0
            })
        }
    }

    /// Whether column `i` is blocked.
    #[must_use]
    pub fn is_blocked(&self, i: usize) -> (b: bool)
        requires
            i < 7,
        ensures
            b == self.blocked(i as int),
    {
        let n = self.columns[i].visible.len();
        if n == 0 {
            return self.columns[i].hidden.len() > 0;
        }
        let top = self.columns[i].visible[n - 1];
        let mut j: usize = 0;
        while j < 7
            invariant
                j <= 7,
                i < 7,
                n == self.columns@[i as int].visible@.len(),
                n > 0,
                top == self.columns@[i as int].visible@.last(),
                !self.taken_below(i as int, j as int),
            decreases 7 - j,
        {
            if j != i {
                let m = self.columns[j].visible.len();
                let fits = if m > 0 {
                    self.columns[j].visible[m - 1].go_before(&top)
                } else {
                    top.rank() == KING_RANK
                };
                if fits {
                    proof {
                        assert(self.takes(i as int, j as int));
                    }
                    return false;
                }
            }
            proof {
                assert(!self.takes(i as int, j as int));
            }
            j += 1;
        }
        true
    }

    /// Number of columns that are blocked.
    #[must_use]
    pub fn blocked_columns(&self) -> (n: usize)
        ensures
            n == self.blocked_upto(7),
    {
        let mut n: usize = 0;
        let mut i: usize = 0;
        while i < 7
            invariant
                i <= 7,
                n <= i,
                n == self.blocked_upto(i as int),
            decreases 7 - i,
        {
            if self.is_blocked(i) {
                n += 1;
            }
            i += 1;
        }
        n
    }
}

/// The cards that a game does not name, as they are given out one by one to
/// the places that name no card.
pub struct Dealer {
    /// The cards that are still to be given out, in bitboard order.
    pub remaining: Vec<Card>,
    /// The cards given out so far, in the order in which the places take
    /// them.
    pub order: Vec<Card>,
}

impl Dealer {
    /// Gives out the card at place `idx` of those that are left; nothing
    /// where there is no such card.
    pub fn take(&mut self, idx: usize) -> (r: Option<Card>)
        ensures
            match r {
                Some(c) => idx < old(self).remaining@.len() && c == old(self).remaining@[idx as int]
                    && final(self).remaining@ == old(self).remaining@.remove(idx as int)
                    && final(self).order@ == old(self).order@.push(c),
                None => idx >= old(self).remaining@.len() && final(self).remaining@ == old(
                    self,
                ).remaining@ && final(self).order@ == old(self).order@,
            },
    {
        if idx >= self.remaining.len() {
            return None;
        }
        let c = self.remaining.remove(idx);
        self.order.push(c);
        Some(c)
    }
}

impl PartialState {
    /// For each face-down place of the first `n` columns that names no card,
    /// in the order in which the places are filled, its column.
    pub open spec fn owners_upto(&self, n: int) -> Seq<usize>
        decreases n,
    {
        if n <= 0 {
            Seq::empty()
        } else {
            self.owners_upto(n - 1) + Seq::new(
                count_unknown(self.columns@[n - 1].hidden@),
                |k: int| (n - 1) as usize,
            )
        }
    }

    /// For each face-down place that names no card, in the order in which
    /// [`PartialState::fill_with`] fills the places, its column. The places
    /// of the deck that name no card are filled after these.
    #[must_use]
    pub fn unknown_columns(&self) -> (v: Vec<usize>)
        ensures
            v@ == self.owners_upto(7),
    {
        let mut v: Vec<usize> = Vec::new();
        let mut i: usize = 0;
        while i < 7
            invariant
                i <= 7,
                v@ == self.owners_upto(i as int),
            decreases 7 - i,
        {
            let n = self.columns[i].hidden_len();
            let ghost before = v@;
            let mut k: usize = 0;
            while k < n
                invariant
                    k <= n,
                    i < 7,
                    v@ == before + Seq::new(k as nat, |j: int| i),
                decreases n - k,
            {
                v.push(i);
                proof {
                    assert(v@ =~= before + Seq::new((k + 1) as nat, |j: int| i));
                }
                k += 1;
            }
            proof {
                assert(Seq::new(n as nat, |j: int| i) =~= Seq::new(
                    count_unknown(self.columns@[i as int].hidden@),
                    |j: int| ((i + 1) - 1) as usize,
                ));
            }
            i += 1;
        }
        v
    }

    /// The cards that the game does not name, none of them given out yet.
    #[must_use]
    pub fn dealer(&self) -> (d: Dealer)
        ensures
            d.remaining@ == unnamed(self.places(), N_CARDS as int),
            d.order@.len() == 0,
    {
        Dealer { remaining: self.remaining_cards(), order: Vec::new() }
    }
}

/// The places of two lists that name no card are those of the one and those
/// of the other.
pub proof fn lemma_count_sum(a: Seq<Option<Card>>, b: Seq<Option<Card>>)
    ensures
        count_unknown(a + b) == count_unknown(a) + count_unknown(b),
    decreases b.len(),
{
    if b.len() == 0 {
        assert(a + b =~= a);
    } else {
        assert((a + b).drop_last() =~= a + b.drop_last());
        assert((a + b).last() == b.last());
        lemma_count_sum(a, b.drop_last());
    }
}

/// Places that name their cards are known.
pub proof fn lemma_count_known(cards: Seq<Card>)
    ensures
        count_unknown(cards.map_values(|c: Card| Some(c))) == 0,
    decreases cards.len(),
{
    let wrapped = cards.map_values(|c: Card| Some(c));
    if cards.len() > 0 {
        assert(wrapped.drop_last() =~= cards.drop_last().map_values(|c: Card| Some(c)));
        lemma_count_known(cards.drop_last());
    }
}

impl PartialState {
    /// The list of [`PartialState::unknown_columns`] has one entry for each
    /// place of the first `n` columns that names no card, and each entry is
    /// one of these columns.
    pub proof fn lemma_owners(&self, n: int)
        requires
            0 <= n <= 7,
        ensures
            self.owners_upto(n).len() == count_unknown(self.places_upto(n)),
            forall|k: int| 0 <= k < self.owners_upto(n).len() ==> 0 <= #[trigger] self.owners_upto(n)[k] < n,
        decreases n,
    {
        if n > 0 {
            self.lemma_owners(n - 1);
            let col = self.columns@[n - 1];
            lemma_count_known(col.visible@);
            lemma_count_sum(col.hidden@, col.visible@.map_values(|c: Card| Some(c)));
            lemma_count_sum(self.places_upto(n - 1), column_places(col.hidden@, col.visible@));
        }
    }
}

/// Number of moves that the generator offers with dominance in the game
/// `filled`, taken as a state of the engine; none where the engine has no
/// state for it, which is where not every card has its place on the table.
#[must_use]
pub fn mobility(filled: &StandardSolitaire) -> (n: usize)
    requires
        filled.wf(),
    ensures
        filled@.orderly() ==> exists|s: SolitaireView| #[trigger]
            filled@.seen_as(s) && s.mobile(n as int),
        !filled@.orderly() ==> n == 0,
{
    match engine_of(filled) {
        Some(engine) => {
            let moves = engine.list_moves::<true>();
            proof {
                assert(moves@.no_duplicates() && moves@.len() == moves.len() && forall|m: Move| #[trigger]
                    moves@.contains(m) <==> engine@.offered(true, m));
                assert(engine@.mobile(moves.len() as int));
                assert(filled@.seen_as(engine@));
            }
            moves.len()
        },
        None => 0,
    }
}

} // verus!
