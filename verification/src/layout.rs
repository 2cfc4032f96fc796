//! The columns of the tableau, read off the bitboards.

use crate::card::{
    above, card_mask, in_mask, lemma_in_mask_ops, lemma_in_mask_single, lemma_in_mask_test,
    lemma_mask_neighbours, partner, Card, KING_RANK, N_CARDS,
};
use crate::deck::N_PILES;
use crate::engine::{Solitaire, SolitaireView};
use vstd::prelude::*;

verus! {

impl SolitaireView {
    /// `column` is a run of face-up cards: each card but the first lies on the
    /// one before it, one rank down and in the other colour, and heads no pile.
    pub open spec fn is_run(self, column: Seq<Card>) -> bool {
        &&& forall|j: int| 0 <= j < column.len() ==> self.shown(#[trigger] column[j])
        &&& forall|j: int| 1 <= j < column.len() ==> #[trigger] self.lies_on(column, j)
    }

    /// The card at `j` lies on the card before it: it is one rank down and of
    /// the other colour, and heads no pile.
    pub open spec fn lies_on(self, column: Seq<Card>, j: int) -> bool {
        column[j - 1].0 >= 4 && !self.heading(column[j]) && (column[j] == above(column[j - 1])
            || column[j] == partner(above(column[j - 1])))
    }

    /// `c` may begin column `i`: it heads pile `i`, or pile `i` has no card that
    /// heads it and `c` is a king that lies face up and heads no pile.
    pub open spec fn begins(self, i: int, c: Card) -> bool {
        if self.hidden.counts[i] >= 1 && self.heading(self.hidden.top(i)) {
            c == self.hidden.top(i)
        } else {
            c.spec_rank() == KING_RANK && self.shown(c) && !self.heading(c)
        }
    }

    /// `c` lies face up, heads no pile, and is not in `used`: a card that is
    /// still to be laid in a column.
    pub open spec fn loose(self, c: Card, used: u64) -> bool {
        c.0 < N_CARDS && self.shown(c) && !self.heading(c) && !in_mask(used, c)
    }

    /// The first king, in the order of the suits, that is loose.
    pub open spec fn first_loose_king(self, used: u64) -> Option<Card> {
        if self.loose(Card(48), used) {
            Some(Card(48))
        } else if self.loose(Card(49), used) {
            Some(Card(49))
        } else if self.loose(Card(50), used) {
            Some(Card(50))
        } else if self.loose(Card(51), used) {
            Some(Card(51))
        } else {
            None
        }
    }

    /// The card that is laid on `cur` next: of the two cards that may lie on
    /// it, the first that is loose.
    pub open spec fn next_card(self, cur: Card, used: u64) -> Option<Card> {
        if cur.0 < 4 {
            None
        } else if self.loose(above(cur), used) {
            Some(above(cur))
        } else if self.loose(partner(above(cur)), used) {
            Some(partner(above(cur)))
        } else {
            None
        }
    }

    /// The card that column `i` begins with: the card that heads pile `i`, or
    /// else the first loose king.
    pub open spec fn first_card(self, i: int, used: u64) -> Option<Card> {
        if self.hidden.counts[i] >= 1 && self.hidden.heads_at(self.hidden.top(i), i) {
            Some(self.hidden.top(i))
        } else {
            self.first_loose_king(used)
        }
    }

    /// Nothing more can be laid in column `i`: no loose card may lie on its last
    /// card; or, if the column is empty, no card may begin it.
    pub open spec fn closed(self, column: Seq<Card>, i: int, used: u64) -> bool {
        if column.len() > 0 {
            self.next_card(column.last(), used).is_none()
        } else {
            self.first_card(i, used).is_none()
        }
    }

    /// The columns `columns` hold the cards of `used`, and nothing more can be
    /// laid in any of them.
    pub open spec fn filled(self, columns: Seq<Vec<Card>>, used: u64) -> bool {
        &&& forall|c: Card| c.0 < 64 ==> (#[trigger] in_mask(used, c) <==> placed(columns, c))
        &&& forall|p: int| 0 <= p < columns.len() ==> self.closed((#[trigger] columns[p])@, p, used)
    }

    /// A column in which nothing more can be laid stays so when more cards are
    /// used.
    pub proof fn lemma_closed_grows(self, column: Seq<Card>, i: int, before: u64, after: u64)
        requires
            self.closed(column, i, before),
            forall|c: Card| c.0 < 64 && #[trigger] in_mask(before, c) ==> in_mask(after, c),
        ensures
            self.closed(column, i, after),
    {
        assert forall|c: Card| #[trigger] self.loose(c, after) implies self.loose(c, before) by {}
    }

    /// The columns are runs that begin as the piles say, and no card lies in two
    /// places.
    pub open spec fn laid_out(self, columns: Seq<Seq<Card>>) -> bool {
        &&& columns.len() == N_PILES
        &&& forall|i: int| 0 <= i < N_PILES ==> self.is_run(#[trigger] columns[i])
        &&& forall|i: int|
            0 <= i < N_PILES && (#[trigger] columns[i]).len() > 0 ==> self.begins(i, columns[i][0])
        &&& forall|i: int|
            0 <= i < N_PILES && self.hidden.counts[i] >= 1 && self.heading(self.hidden.top(i))
                ==> (#[trigger] columns[i]).len() > 0
        &&& forall|i: int, j: int, k: int, l: int|
            0 <= i < N_PILES && 0 <= k < N_PILES && 0 <= j < columns[i].len() && 0 <= l
                < columns[k].len() && (i != k || j != l) ==> #[trigger] columns[i][j]
                != #[trigger] columns[k][l]
    }
}

/// `c` lies in one of the columns.
#[verifier::opaque]
pub open spec fn placed(columns: Seq<Vec<Card>>, c: Card) -> bool {
    exists|p: int, j: int|
        0 <= p < columns.len() && 0 <= j < columns[p]@.len() && #[trigger] columns[p]@[j] == c
}

impl Solitaire {
    /// The first king, in the order of the suits, that lies face up, heads no
    /// pile and is not in `used`.
    fn free_king(&self, used: u64) -> (r: Option<Card>)
        requires
            self.wf(),
        ensures
            r == self@.first_loose_king(used),
    {
        let mut v: u8 = 48;
        while v < N_CARDS
            invariant
                48 <= v <= N_CARDS,
                self.wf(),
                forall|k: u8| 48 <= k < v ==> !#[trigger] self@.loose(Card(k), used),
            decreases N_CARDS - v,
        {
            let c = Card::from_value(v);
            let bit = card_mask(&c);
            proof {
                lemma_in_mask_test(self@.visible, c);
                lemma_in_mask_test(self@.top, c);
                lemma_in_mask_test(used, c);
            }
            if self.get_visible_mask() & bit != 0 && self.get_top_mask() & bit == 0 && used & bit
                == 0 {
                proof {
                    assert(self@.loose(c, used));
                    assert(v == 48 || v == 49 || v == 50 || v == 51);
                    assert(forall|k: u8| 48 <= k < v ==> !#[trigger] self@.loose(Card(k), used));
                    if v > 48 {
                        assert(!self@.loose(Card(48), used));
                    }
                    if v > 49 {
                        assert(!self@.loose(Card(49), used));
                    }
                    if v > 50 {
                        assert(!self@.loose(Card(50), used));
                    }
                }
                return Some(c);
            }
            v += 1;
        }
        proof {
            assert(!self@.loose(Card(48), used));
            assert(!self@.loose(Card(49), used));
            assert(!self@.loose(Card(50), used));
            assert(!self@.loose(Card(51), used));
        }
        None
    }

    /// The card that is laid on `cur` next, if there is one: of the two cards of
    /// the next rank down and the other colour, the first that lies face up,
    /// heads no pile and is not in `used`.
    fn next_in_run(&self, cur: Card, used: u64) -> (r: Option<Card>)
        requires
            self.wf(),
            cur.0 < N_CARDS,
        ensures
            r == self@.next_card(cur, used),
            r.is_some() ==> cur.0 >= 4 && r.unwrap().0 < N_CARDS,
    {
        if cur.value() < 4 {
            return None;
        }
        let a = Card::from_value((cur.value() - 4) ^ 2);
        let b = Card::from_value(a.value() ^ 1);
        proof {
            lemma_mask_neighbours(cur);
            lemma_mask_neighbours(a);
            lemma_in_mask_test(self@.visible, a);
            lemma_in_mask_test(self@.top, a);
            lemma_in_mask_test(used, a);
            lemma_in_mask_test(self@.visible, b);
            lemma_in_mask_test(self@.top, b);
            lemma_in_mask_test(used, b);
            assert(a == above(cur));
            assert(b == partner(above(cur)));
            assert(a.0 < N_CARDS && b.0 < N_CARDS);
        }
        let vis = self.get_visible_mask();
        let top = self.get_top_mask();
        let ma = card_mask(&a);
        if vis & ma != 0 && top & ma == 0 && used & ma == 0 {
            return Some(a);
        }
        let mb = card_mask(&b);
        if vis & mb != 0 && top & mb == 0 && used & mb == 0 {
            return Some(b);
        }
        None
    }

    /// The card that column `i` begins with, if it has one: the card that heads
    /// pile `i`, or else the first king that lies face up, heads no pile and
    /// is not in `used`.
    fn column_start(&self, i: u8, used: u64) -> (r: Option<Card>)
        requires
            self.wf(),
            i < N_PILES,
        ensures
            r == self@.first_card(i as int, used),
            match r {
                Some(c) => c.0 < N_CARDS && self@.begins(i as int, c) && self@.shown(c) && (
                self@.heading(c) ==> self@.hidden.heads_at(c, i as int)) && (!self@.heading(c)
                    ==> !in_mask(used, c)),
                None => !(self@.hidden.counts[i as int] >= 1 && self@.heading(
                    self@.hidden.top(i as int),
                )),
            },
    {
        let ghost s = self@;
        proof {
            self.lemma_wf();
        }
        let hidden = self.get_hidden();
        match hidden.peek(i) {
            Some(c) => {
                let c: Card = *c;
                proof {
                    let n = s.hidden.counts[i as int] as int;
                    assert(s.hidden.dealt_at(c, i as int, n - 1));
                    assert(s.hidden.piles[i as int][n - 1].0 < N_CARDS);
                    assert(in_mask(s.top, c) <==> s.hidden.heads(c));
                    assert(in_mask(s.top, c) ==> in_mask(s.visible, c));
                    if s.hidden.heads(c) {
                        s.lemma_heading(c);
                    }
                }
                if c.rank() < KING_RANK || hidden.len(i) > 1 {
                    proof {
                        assert(s.hidden.heads_at(c, i as int));
                    }
                    return Some(c);
                }
            },
            None => {},
        }
        self.free_king(used)
    }

    /// The run that begins with `c`: the cards that lie on it one on the other,
    /// with `used` grown by them.
    fn build_run(&self, c: Card, used: u64) -> (r: (Vec<Card>, u64))
        requires
            self.wf(),
            c.0 < N_CARDS,
            self@.shown(c),
            !in_mask(used, c),
        ensures
            r.0@.len() > 0,
            r.0@[0] == c,
            self@.is_run(r.0@),
            forall|j: int| 0 <= j < r.0@.len() ==> (#[trigger] r.0@[j]).0 < N_CARDS,
            forall|j: int| 0 <= j < r.0@.len() ==> !in_mask(used, #[trigger] r.0@[j]),
            forall|j: int, l: int| 0 <= j < l < r.0@.len() ==> r.0@[j] != r.0@[l],
            forall|x: Card|
                x.0 < 64 ==> (#[trigger] in_mask(r.1, x) <==> in_mask(used, x) || member(r.0@, x)),
            self@.next_card(r.0@.last(), r.1).is_none(),
    {
        let ghost s = self@;
        let mut column: Vec<Card> = Vec::new();
        column.push(c);
        let bit = card_mask(&c);
        let mut now = used | bit;
        proof {
            assert forall|x: Card| x.0 < 64 implies (#[trigger] in_mask(now, x) <==> in_mask(used, x)
                || member(column@, x)) by {
                reveal(member);
                lemma_in_mask_ops(used, bit, x);
                lemma_in_mask_single(c, x);
                if x == c {
                    assert(column@[0] == x);
                }
            }
        }
        let mut cur = c;
        let mut steps: u8 = 0;
        let mut done = false;
        while steps < 13 && !done
            invariant
                steps <= 13,
                done || cur.spec_rank() + steps <= KING_RANK,
                done ==> s.next_card(cur, now).is_none(),
                self.wf(),
                s == self@,
                column@.len() > 0,
                column@.last() == cur,
                column@[0] == c,
                cur.0 < N_CARDS,
                s.is_run(column@),
                forall|j: int| 0 <= j < column@.len() ==> (#[trigger] column@[j]).0 < N_CARDS,
                forall|x: Card|
                    x.0 < 64 ==> (#[trigger] in_mask(now, x) <==> in_mask(used, x) || member(
                        column@,
                        x,
                    )),
                forall|j: int, l: int| 0 <= j < l < column@.len() ==> column@[j] != column@[l],
                forall|j: int| 0 <= j < column@.len() ==> !in_mask(used, #[trigger] column@[j]),
            decreases 13 - steps,
        {
            match self.next_in_run(cur, now) {
                Some(x) => {
                    let ghost before = column@;
                    column.push(x);
                    let bit = card_mask(&x);
                    proof {
                        lemma_mask_neighbours(cur);
                        lemma_mask_neighbours(above(cur));
                        assert(x.spec_rank() + 1 == cur.spec_rank());
                        assert(column@ == before.push(x));
                        assert(!in_mask(now, x));
                        assert(!member(before, x) && !in_mask(used, x));
                        lemma_run_push(s, before, x, used);
                        lemma_distinct_push(before, x);
                        assert forall|y: Card| y.0 < 64 implies (#[trigger] in_mask(now | bit, y)
                            <==> in_mask(used, y) || member(column@, y)) by {
                            lemma_in_mask_ops(now, bit, y);
                            lemma_in_mask_single(x, y);
                            lemma_member_push(before, x, y);
                        }
                    }
                    now |= bit;
                    cur = x;
                },
                None => {
                    done = true;
                },
            }
            steps += 1;
        }
        (column, now)
    }

    /// The face-up cards of the seven columns, the card that others lie on
    /// first: see [`SolitaireView::laid_out`]. Which of two cards of one rank
    /// and colour lies in which column is not kept by the state and is chosen
    /// here.
    #[must_use]
    pub fn compute_visible_piles(&self) -> (r: Vec<Vec<Card>>)
        requires
            self.wf(),
        ensures
            r@.len() == N_PILES,
            self@.laid_out(Seq::new(r@.len(), |i: int| r@[i]@)),
            forall|p: int, j: int|
                0 <= p < N_PILES && 0 <= j < r@[p]@.len() ==> (#[trigger] r@[p]@[j]).0 < N_CARDS,
            exists|used: u64| self@.filled(r@, used),
    {
        let mut r: Vec<Vec<Card>> = Vec::new();
        let mut used: u64 = 0;
        let mut i: u8 = 0;
        let ghost s = self@;
        proof {
            self.lemma_wf();
            assert forall|c: Card| c.0 < 64 implies (#[trigger] in_mask(0, c) <==> placed(
                r@,
                c,
            )) by {
                reveal(placed);
                lemma_in_mask_ops(0, 0, c);
            }
        }
        while i < N_PILES
            invariant
                i <= N_PILES,
                self.wf(),
                s == self@,
                s.wf(),
                r@.len() == i,
                forall|p: int| 0 <= p < i ==> s.is_run((#[trigger] r@[p])@),
                forall|p: int| 0 <= p < i && (#[trigger] r@[p])@.len() > 0 ==> s.begins(p, r@[p]@[0]),
                forall|p: int|
                    0 <= p < i && s.hidden.counts[p] >= 1 && s.heading(s.hidden.top(p)) ==> (
                    #[trigger] r@[p])@.len() > 0,
                forall|p: int, j: int|
                    0 <= p < i && 0 <= j < r@[p]@.len() ==> (#[trigger] r@[p]@[j]).0 < N_CARDS,
                forall|c: Card| c.0 < 64 ==> (#[trigger] in_mask(used, c) <==> placed(r@, c)),
                forall|p: int| 0 <= p < i ==> s.closed((#[trigger] r@[p])@, p, used),
                forall|p: int, j: int, k: int, l: int|
                    0 <= p < i && 0 <= k < i && 0 <= j < r@[p]@.len() && 0 <= l < r@[k]@.len() && (p
                        != k || j != l) ==> #[trigger] r@[p]@[j] != #[trigger] r@[k]@[l],
                forall|p: int, j: int|
                    0 <= p < i && 0 <= j < r@[p]@.len() && s.heading(#[trigger] r@[p]@[j]) ==> j == 0
                        && s.hidden.heads_at(r@[p]@[0], p),
            decreases N_PILES - i,
        {
            let ghost used0 = used;
            let mut column: Vec<Card> = Vec::new();
            match self.column_start(i, used) {
                Some(c) => {
                    proof {
                        if in_mask(used0, c) {
                            reveal(placed);
                            let (p, j) = choose|p: int, j: int|
                                0 <= p < i && 0 <= j < r@[p]@.len() && #[trigger] r@[p]@[j] == c;
                            assert(s.heading(r@[p]@[j]));
                            assert(s.hidden.heads_at(c, p));
                            assert(s.hidden.heads_at(c, i as int));
                            assert(s.hidden.dealt_at(c, p, s.hidden.counts[p] - 1));
                            assert(s.hidden.dealt_at(c, i as int, s.hidden.counts[i as int] - 1));
                            s.hidden.lemma_dealt_unique(
                                c,
                                p,
                                s.hidden.counts[p] - 1,
                                i as int,
                                s.hidden.counts[i as int] - 1,
                            );
                        }
                    }
                    let (run, now) = self.build_run(c, used);
                    proof {
                        assert forall|x: Card| x.0 < 64 implies (#[trigger] in_mask(now, x)
                            <==> in_mask(used0, x) || run@.contains(x)) by {
                            reveal(member);
                        }
                    }
                    column = run;
                    used = now;
                },
                None => {},
            }
            let ghost before = r@;
            r.push(column);
            proof {
                assert(r@ == before.push(column));
                lemma_layout_step(s, before, column@, used0, used, i as int, r@);
                lemma_layout_distinct(before, column@, used0, i as int, r@);
                assert forall|p: int| 0 <= p < i + 1 implies s.closed(
                    (#[trigger] r@[p])@,
                    p,
                    used,
                ) by {
                    if p < i {
                        assert(r@[p] == before[p]);
                        s.lemma_closed_grows(before[p]@, p, used0, used);
                    }
                }
            }
            i += 1;
        }
        proof {
            assert(s.filled(r@, used));
            let cols = Seq::new(r@.len(), |p: int| r@[p]@);
            assert forall|p: int| 0 <= p < N_PILES implies s.is_run(#[trigger] cols[p]) by {
                assert(s.is_run(r@[p]@));
            }
            assert forall|p: int| 0 <= p < N_PILES && (#[trigger] cols[p]).len() > 0 implies s.begins(
                p,
                cols[p][0],
            ) by {
                assert(r@[p]@.len() > 0);
            }
            assert forall|p: int|
                0 <= p < N_PILES && s.hidden.counts[p] >= 1 && s.heading(s.hidden.top(p)) implies (
            #[trigger] cols[p]).len() > 0 by {
                assert(r@[p]@.len() > 0);
            }
            assert forall|p: int, j: int, k: int, l: int|
                0 <= p < N_PILES && 0 <= k < N_PILES && 0 <= j < cols[p].len() && 0 <= l
                    < cols[k].len() && (p != k || j != l) implies #[trigger] cols[p][j]
                != #[trigger] cols[k][l] by {
                assert(r@[p]@[j] != r@[k]@[l]);
            }
        }
        r
    }
}

/// `c` is one of the cards of `run`.
#[verifier::opaque]
pub open spec fn member(run: Seq<Card>, c: Card) -> bool {
    run.contains(c)
}

/// The cards of a run with one more card are those of the run and that card.
proof fn lemma_member_push(before: Seq<Card>, x: Card, y: Card)
    ensures
        member(before.push(x), y) <==> member(before, y) || y == x,
{
    reveal(member);
    let column = before.push(x);
    if before.contains(y) {
        let j = choose|j: int| 0 <= j < before.len() && before[j] == y;
        assert(column[j] == y);
    }
    if column.contains(y) && y != x {
        let j = choose|j: int| 0 <= j < column.len() && column[j] == y;
        assert(before[j] == y);
    }
    if y == x {
        assert(column[before.len() as int] == y);
    }
}

/// A run without doubles stays so with a card that it does not hold.
proof fn lemma_distinct_push(before: Seq<Card>, x: Card)
    requires
        !member(before, x),
        forall|j: int, l: int| 0 <= j < l < before.len() ==> before[j] != before[l],
    ensures
        forall|j: int, l: int|
            0 <= j < l < before.len() + 1 ==> before.push(x)[j] != before.push(x)[l],
{
    reveal(member);
    let column = before.push(x);
    assert forall|j: int, l: int| 0 <= j < l < column.len() implies column[j] != column[l] by {
        if l == before.len() {
            assert(before[j] == column[j]);
            assert(before.contains(column[j]));
        } else {
            assert(before[j] != before[l]);
        }
    }
}

/// A run grows by the card that lies on its last card.
proof fn lemma_run_push(s: SolitaireView, before: Seq<Card>, x: Card, used: u64)
    requires
        before.len() > 0,
        s.is_run(before),
        before.last().0 >= 4,
        x.0 < N_CARDS,
        x == above(before.last()) || x == partner(above(before.last())),
        s.shown(x),
        !s.heading(x),
        !in_mask(used, x),
        forall|j: int| 0 <= j < before.len() ==> (#[trigger] before[j]).0 < N_CARDS,
        forall|j: int| 0 <= j < before.len() ==> !in_mask(used, #[trigger] before[j]),
    ensures
        s.is_run(before.push(x)),
        forall|j: int| 0 <= j < before.len() + 1 ==> (#[trigger] before.push(x)[j]).0 < N_CARDS,
        forall|j: int| 0 <= j < before.len() + 1 ==> !in_mask(used, #[trigger] before.push(x)[j]),
{
    let column = before.push(x);
    assert forall|j: int| 0 <= j < column.len() implies s.shown(#[trigger] column[j]) by {
        if j < before.len() {
            assert(s.shown(before[j]));
        }
    }
    assert forall|j: int| 1 <= j < column.len() implies #[trigger] s.lies_on(column, j) by {
        if j < before.len() {
            assert(s.lies_on(before, j));
        }
    }
    assert forall|j: int| 0 <= j < column.len() implies !in_mask(used, #[trigger] column[j]) by {
        if j < before.len() {
            assert(!in_mask(used, before[j]));
        }
    }
    assert forall|j: int| 0 <= j < column.len() implies (#[trigger] column[j]).0 < N_CARDS by {
        if j < before.len() {
            assert(before[j].0 < N_CARDS);
        }
    }
}

/// One more column keeps what holds of the columns before it.
proof fn lemma_layout_step(
    s: SolitaireView,
    before: Seq<Vec<Card>>,
    column: Seq<Card>,
    used0: u64,
    used: u64,
    i: int,
    r: Seq<Vec<Card>>,
)
    requires
        0 <= i < N_PILES,
        before.len() == i,
        r == before.push(r[i]),
        r.len() == i + 1,
        r[i]@ == column,
        s.is_run(column),
        column.len() > 0 ==> s.begins(i, column[0]),
        s.hidden.counts[i] >= 1 && s.heading(s.hidden.top(i)) ==> column.len() > 0,
        column.len() > 0 && s.heading(column[0]) ==> s.hidden.heads_at(column[0], i),
        forall|j: int| 0 <= j < column.len() ==> (#[trigger] column[j]).0 < N_CARDS,
        forall|x: Card|
            x.0 < 64 ==> (#[trigger] in_mask(used, x) <==> in_mask(used0, x) || column.contains(x)),
        forall|p: int| 0 <= p < i ==> s.is_run((#[trigger] before[p])@),
        forall|p: int| 0 <= p < i && (#[trigger] before[p])@.len() > 0 ==> s.begins(p, before[p]@[0]),
        forall|p: int|
            0 <= p < i && s.hidden.counts[p] >= 1 && s.heading(s.hidden.top(p)) ==> (
            #[trigger] before[p])@.len() > 0,
        forall|p: int, j: int|
            0 <= p < i && 0 <= j < before[p]@.len() ==> (#[trigger] before[p]@[j]).0 < N_CARDS,
        forall|c: Card| c.0 < 64 ==> (#[trigger] in_mask(used0, c) <==> placed(before, c)),
        forall|p: int, j: int|
            0 <= p < i && 0 <= j < before[p]@.len() && s.heading(#[trigger] before[p]@[j]) ==> j == 0
                && s.hidden.heads_at(before[p]@[0], p),
    ensures
        forall|p: int| 0 <= p < i + 1 ==> s.is_run((#[trigger] r[p])@),
        forall|p: int| 0 <= p < i + 1 && (#[trigger] r[p])@.len() > 0 ==> s.begins(p, r[p]@[0]),
        forall|p: int|
            0 <= p < i + 1 && s.hidden.counts[p] >= 1 && s.heading(s.hidden.top(p)) ==> (
            #[trigger] r[p])@.len() > 0,
        forall|p: int, j: int|
            0 <= p < i + 1 && 0 <= j < r[p]@.len() ==> (#[trigger] r[p]@[j]).0 < N_CARDS,
        forall|c: Card| c.0 < 64 ==> (#[trigger] in_mask(used, c) <==> placed(r, c)),
        forall|p: int, j: int|
            0 <= p < i + 1 && 0 <= j < r[p]@.len() && s.heading(#[trigger] r[p]@[j]) ==> j == 0
                && s.hidden.heads_at(r[p]@[0], p),
{
    assert forall|p: int| 0 <= p < i implies #[trigger] r[p] == before[p] by {}
    assert forall|c: Card| c.0 < 64 implies (#[trigger] in_mask(used, c) <==> placed(r, c)) by {
        lemma_placed_push(before, r[i], c);
    }
    assert forall|p: int, j: int| 0 <= p < i + 1 && 0 <= j < r[p]@.len() implies (
    #[trigger] r[p]@[j]).0 < N_CARDS by {
        if p < i {
            assert(r[p] == before[p]);
        }
    }
    assert forall|p: int| 0 <= p < i + 1 implies s.is_run((#[trigger] r[p])@) by {
        if p < i {
            assert(r[p] == before[p]);
        }
    }
    assert forall|p: int| 0 <= p < i + 1 && (#[trigger] r[p])@.len() > 0 implies s.begins(
        p,
        r[p]@[0],
    ) by {
        if p < i {
            assert(r[p] == before[p]);
        }
    }
    assert forall|p: int|
        0 <= p < i + 1 && s.hidden.counts[p] >= 1 && s.heading(s.hidden.top(p)) implies (
    #[trigger] r[p])@.len() > 0 by {
        if p < i {
            assert(r[p] == before[p]);
        }
    }
    assert forall|p: int, j: int|
        0 <= p < i + 1 && 0 <= j < r[p]@.len() && s.heading(#[trigger] r[p]@[j]) implies j == 0
        && s.hidden.heads_at(r[p]@[0], p) by {
        if p < i {
            assert(r[p] == before[p]);
        } else {
            if j >= 1 {
                assert(s.lies_on(column, j));
            }
        }
    }
}

/// A card lies in the columns with one more column if it lay in them before
/// or lies in the new one.
proof fn lemma_placed_push(before: Seq<Vec<Card>>, column: Vec<Card>, c: Card)
    ensures
        placed(before.push(column), c) <==> placed(before, c) || column@.contains(c),
{
    reveal(placed);
    let r = before.push(column);
    let i = before.len() as int;
    if placed(before, c) {
        let (p, j) = choose|p: int, j: int|
            0 <= p < before.len() && 0 <= j < before[p]@.len() && #[trigger] before[p]@[j] == c;
        assert(r[p] == before[p]);
        assert(r[p]@[j] == c);
    }
    if column@.contains(c) {
        let j = choose|j: int| 0 <= j < column@.len() && column@[j] == c;
        assert(r[i]@[j] == c);
    }
    if placed(r, c) {
        let (p, j) = choose|p: int, j: int|
            0 <= p < r.len() && 0 <= j < r[p]@.len() && #[trigger] r[p]@[j] == c;
        if p < i {
            assert(before[p]@[j] == c);
        } else {
            assert(column@[j] == c);
        }
    }
}

/// A column of cards that lie in no column yet keeps the columns free of
/// doubles.
proof fn lemma_layout_distinct(
    before: Seq<Vec<Card>>,
    column: Seq<Card>,
    used0: u64,
    i: int,
    r: Seq<Vec<Card>>,
)
    requires
        0 <= i,
        before.len() == i,
        r.len() == i + 1,
        forall|p: int| 0 <= p < i ==> #[trigger] r[p] == before[p],
        r[i]@ == column,
        forall|j: int| 0 <= j < column.len() ==> !in_mask(used0, #[trigger] column[j]),
        forall|j: int| 0 <= j < column.len() ==> (#[trigger] column[j]).0 < 64,
        forall|j: int, l: int| 0 <= j < l < column.len() ==> column[j] != column[l],
        forall|c: Card| c.0 < 64 ==> (#[trigger] in_mask(used0, c) <==> placed(before, c)),
        forall|p: int, j: int, k: int, l: int|
            0 <= p < i && 0 <= k < i && 0 <= j < before[p]@.len() && 0 <= l < before[k]@.len() && (p
                != k || j != l) ==> #[trigger] before[p]@[j] != #[trigger] before[k]@[l],
    ensures
        forall|p: int, j: int, k: int, l: int|
            0 <= p < i + 1 && 0 <= k < i + 1 && 0 <= j < r[p]@.len() && 0 <= l < r[k]@.len() && (p
                != k || j != l) ==> #[trigger] r[p]@[j] != #[trigger] r[k]@[l],
{
    assert forall|p: int, j: int, k: int, l: int|
        0 <= p < i + 1 && 0 <= k < i + 1 && 0 <= j < r[p]@.len() && 0 <= l < r[k]@.len() && (p != k
            || j != l) implies #[trigger] r[p]@[j] != #[trigger] r[k]@[l] by {
        if p < i && k < i {
            assert(r[p] == before[p]);
            assert(r[k] == before[k]);
            assert(before[p]@[j] != before[k]@[l]);
        } else if p == i && k == i {
            if j < l {
                assert(column[j] != column[l]);
            } else {
                assert(column[l] != column[j]);
            }
        } else if p == i {
            assert(r[k] == before[k]);
            assert(placed(before, before[k]@[l])) by {
                reveal(placed);
            }
            if column[j] == before[k]@[l] {
                assert(in_mask(used0, column[j]));
            }
        } else {
            assert(r[p] == before[p]);
            assert(placed(before, before[p]@[j])) by {
                reveal(placed);
            }
            if column[l] == before[p]@[j] {
                assert(in_mask(used0, column[l]));
            }
        }
    }
}

} // verus!
