//! From the moves of the engine to the steps that are made on the table.

use crate::card::Card;
use crate::moves::Move;
use crate::standard::{
    InvalidMove, MoveResult, Pos, StandardHistoryVec, StandardMove, StandardSolitaire, StandardView,
};
use vstd::prelude::*;

verus! {

/// `n` deals.
pub open spec fn deals(n: int) -> Seq<StandardMove> {
    Seq::new(n as nat, |i: int| StandardMove::spec_draw_next())
}

pub open spec fn step(from: Pos, to: Pos, card: Card) -> StandardMove {
    StandardMove { from, to, card }
}

impl StandardView {
    /// A card of the deck is dealt to the top of the waste, and goes to the first
    /// column that takes it.
    pub open spec fn deck_pile_steps(self, c: Card) -> Option<Seq<StandardMove>> {
        if self.in_reach(c) && self.has_free_pile(c) {
            Some(deals(self.deals_to(c)).push(step(Pos::Deck, Pos::Pile(self.free_pile(c) as u8), c)))
        } else {
            None
        }
    }

    /// A card of the deck is dealt to the top of the waste, and goes to its
    /// foundation.
    pub open spec fn deck_stack_steps(self, c: Card) -> Option<Seq<StandardMove>> {
        if c.spec_rank() == self.stack[c.spec_suit() as int] && self.in_reach(c) {
            Some(deals(self.deals_to(c)).push(step(Pos::Deck, Pos::Stack(c.spec_suit()), c)))
        } else {
            None
        }
    }

    /// The top card of a foundation goes to the first column that takes it.
    pub open spec fn stack_pile_steps(self, c: Card) -> Option<Seq<StandardMove>> {
        if c.spec_rank() + 1 == self.stack[c.spec_suit() as int] && self.has_free_pile(c) {
            Some(seq![step(Pos::Stack(c.spec_suit()), Pos::Pile(self.free_pile(c) as u8), c)])
        } else {
            None
        }
    }

    /// The face-up cards of a column go to the first column that takes them, if
    /// that is another one.
    pub open spec fn reveal_steps(self, c: Card) -> Option<Seq<StandardMove>> {
        if self.has_top_pile(c) && self.has_free_pile(c) && self.free_pile(c) != self.top_pile(c) {
            Some(
                seq![step(Pos::Pile(self.top_pile(c) as u8), Pos::Pile(self.free_pile(c) as u8), c)],
            )
        } else {
            None
        }
    }

    /// A card of the tableau goes to its foundation; the cards that lie on it
    /// go to another column first.
    pub open spec fn pile_stack_steps(self, c: Card) -> Option<Seq<StandardMove>> {
        if c.spec_rank() == self.stack[c.spec_suit() as int] && self.has_holder(c) {
            let p = self.holder(c);
            let j = self.index_in(p, c);
            let last = step(Pos::Pile(p as u8), Pos::Stack(c.spec_suit()), c);
            if j + 1 < self.piles[p].len() {
                let over = self.piles[p][j + 1];
                if self.has_free_pile(over) && self.free_pile(over) != p {
                    Some(
                        seq![
                            step(Pos::Pile(p as u8), Pos::Pile(self.free_pile(over) as u8), over),
                            last,
                        ],
                    )
                } else {
                    None
                }
            } else {
                Some(seq![last])
            }
        } else {
            None
        }
    }

    /// The steps that make move `m` on the table, if it can be made there.
    pub open spec fn conversion(self, m: Move) -> Option<Seq<StandardMove>> {
        match m {
            Move::DeckPile(c) => self.deck_pile_steps(c),
            Move::DeckStack(c) => self.deck_stack_steps(c),
            Move::StackPile(c) => self.stack_pile_steps(c),
            Move::Reveal(c) => self.reveal_steps(c),
            Move::PileStack(c) => self.pile_stack_steps(c),
        }
    }

    /// The position after the steps `steps`, as far as they can be made, and
    /// whether all of them could.
    pub open spec fn applied(self, steps: Seq<StandardMove>) -> (bool, StandardView)
        decreases steps.len(),
    {
        if steps.len() == 0 {
            (true, self)
        } else if !self.valid(steps[0]) {
            (false, self)
        } else {
            self.moved(steps[0]).applied(steps.drop_first())
        }
    }

    /// The steps that make the moves `moves` one after the other, with the
    /// position they lead to; or, if a move cannot be made on the table,
    /// nothing, with the position in which the conversion stopped.
    pub open spec fn converted(self, moves: Seq<Move>) -> (Option<Seq<StandardMove>>, StandardView)
        decreases moves.len(),
    {
        if moves.len() == 0 {
            (Some(Seq::empty()), self)
        } else {
            match self.conversion(moves[0]) {
                None => (None, self),
                Some(steps) => {
                    let (ok, v) = self.applied(steps);
                    if !ok {
                        (None, v)
                    } else {
                        let (rest, w) = v.converted(moves.drop_first());
                        (
                            match rest {
                                Some(x) => Some(steps + x),
                                None => None,
                            },
                            w,
                        )
                    }
                },
            }
        }
    }
}

/// Appends `n` deals to `move_seq`.
fn push_deals(move_seq: &mut StandardHistoryVec, n: u8)
    ensures
        final(move_seq)@ == old(move_seq)@ + deals(n as int),
{
    let mut i: u8 = 0;
    proof {
        assert(move_seq@ =~= old(move_seq)@ + deals(0));
    }
    while i < n
        invariant
            i <= n,
            move_seq@ == old(move_seq)@ + deals(i as int),
        decreases n - i,
    {
        move_seq.push(StandardMove::draw_next());
        proof {
            assert(move_seq@ =~= old(move_seq)@ + deals(i + 1));
        }
        i += 1;
    }
}

fn convert_deck_pile(game: &StandardSolitaire, c: Card, move_seq: &mut StandardHistoryVec) -> (r:
    MoveResult<()>)
    requires
        game.wf(),
    ensures
        match game@.deck_pile_steps(c) {
            Some(steps) => r.is_ok() && final(move_seq)@ == old(move_seq)@ + steps,
            None => r.is_err() && final(move_seq)@ == old(move_seq)@,
        },
{
    proof {
        game.lemma_wf();
    }
    let cnt = match game.find_deck_card(c) {
        Some(n) => n,
        None => {
            return Err(InvalidMove {  });
        },
    };
    let pile = match game.find_free_pile(c) {
        Some(p) => p,
        None => {
            return Err(InvalidMove {  });
        },
    };
    push_deals(move_seq, cnt);
    move_seq.push(StandardMove::new(Pos::Deck, Pos::Pile(pile), c));
    proof {
        assert(move_seq@ =~= old(move_seq)@ + game@.deck_pile_steps(c).unwrap());
    }
    Ok(())
}

fn convert_deck_stack(game: &StandardSolitaire, c: Card, move_seq: &mut StandardHistoryVec) -> (r:
    MoveResult<()>)
    requires
        game.wf(),
    ensures
        match game@.deck_stack_steps(c) {
            Some(steps) => r.is_ok() && final(move_seq)@ == old(move_seq)@ + steps,
            None => r.is_err() && final(move_seq)@ == old(move_seq)@,
        },
{
    proof {
        game.lemma_wf();
    }
    if c.rank() != game.get_stack()[c.suit() as usize] {
        return Err(InvalidMove {  });
    }
    let cnt = match game.find_deck_card(c) {
        Some(n) => n,
        None => {
            return Err(InvalidMove {  });
        },
    };
    push_deals(move_seq, cnt);
    move_seq.push(StandardMove::new(Pos::Deck, Pos::Stack(c.suit()), c));
    proof {
        assert(move_seq@ =~= old(move_seq)@ + game@.deck_stack_steps(c).unwrap());
    }
    Ok(())
}

fn convert_stack_pile(game: &StandardSolitaire, c: Card, move_seq: &mut StandardHistoryVec) -> (r:
    MoveResult<()>)
    requires
        game.wf(),
    ensures
        match game@.stack_pile_steps(c) {
            Some(steps) => r.is_ok() && final(move_seq)@ == old(move_seq)@ + steps,
            None => r.is_err() && final(move_seq)@ == old(move_seq)@,
        },
{
    proof {
        game.lemma_wf();
    }
    if c.rank() + 1 != game.get_stack()[c.suit() as usize] {
        return Err(InvalidMove {  });
    }
    let pile = match game.find_free_pile(c) {
        Some(p) => p,
        None => {
            return Err(InvalidMove {  });
        },
    };
    move_seq.push(StandardMove::new(Pos::Stack(c.suit()), Pos::Pile(pile), c));
    proof {
        assert(move_seq@ =~= old(move_seq)@ + game@.stack_pile_steps(c).unwrap());
    }
    Ok(())
}

fn convert_reveal(game: &StandardSolitaire, c: Card, move_seq: &mut StandardHistoryVec) -> (r:
    MoveResult<()>)
    requires
        game.wf(),
    ensures
        match game@.reveal_steps(c) {
            Some(steps) => r.is_ok() && final(move_seq)@ == old(move_seq)@ + steps,
            None => r.is_err() && final(move_seq)@ == old(move_seq)@,
        },
{
    proof {
        game.lemma_wf();
    }
    let pile_from = match game.find_top_card(c) {
        Some(p) => p,
        None => {
            return Err(InvalidMove {  });
        },
    };
    let pile_to = match game.find_free_pile(c) {
        Some(p) => p,
        None => {
            return Err(InvalidMove {  });
        },
    };
    if pile_to == pile_from {
        return Err(InvalidMove {  });
    }
    move_seq.push(StandardMove::new(Pos::Pile(pile_from), Pos::Pile(pile_to), c));
    proof {
        assert(move_seq@ =~= old(move_seq)@ + game@.reveal_steps(c).unwrap());
    }
    Ok(())
}

fn convert_pile_stack(game: &StandardSolitaire, c: Card, move_seq: &mut StandardHistoryVec) -> (r:
    MoveResult<()>)
    requires
        game.wf(),
    ensures
        match game@.pile_stack_steps(c) {
            Some(steps) => r.is_ok() && final(move_seq)@ == old(move_seq)@ + steps,
            None => r.is_err() && final(move_seq)@ == old(move_seq)@,
        },
{
    proof {
        game.lemma_wf();
    }
    if c.rank() != game.get_stack()[c.suit() as usize] {
        return Err(InvalidMove {  });
    }
    let (pile, cards) = match game.find_card(c) {
        Some(found) => found,
        None => {
            return Err(InvalidMove {  });
        },
    };
    proof {
        let p = game@.holder(c);
        let j = game@.index_in(p, c);
        assert(pile == p);
        assert(cards@.len() == game@.piles[p].len() - j);
        if cards@.len() > 1 {
            assert(cards@[1] == game@.piles[p][j + 1]);
        }
    }
    if cards.len() > 1 {
        let move_card = cards[1];
        let pile_other = match game.find_free_pile(move_card) {
            Some(p) => p,
            None => {
                return Err(InvalidMove {  });
            },
        };
        if pile == pile_other {
            return Err(InvalidMove {  });
        }
        move_seq.push(StandardMove::new(Pos::Pile(pile), Pos::Pile(pile_other), move_card));
    }
    move_seq.push(StandardMove::new(Pos::Pile(pile), Pos::Stack(c.suit()), c));
    proof {
        assert(move_seq@ =~= old(move_seq)@ + game@.pile_stack_steps(c).unwrap());
    }
    Ok(())
}

/// Appends to `move_seq` the steps that make move `m` on the table. If the
/// move cannot be made there, nothing is appended.
pub fn convert_move(game: &StandardSolitaire, m: Move, move_seq: &mut StandardHistoryVec) -> (r:
    MoveResult<()>)
    requires
        game.wf(),
    ensures
        match game@.conversion(m) {
            Some(steps) => r.is_ok() && final(move_seq)@ == old(move_seq)@ + steps,
            None => r.is_err() && final(move_seq)@ == old(move_seq)@,
        },
{
    match m {
        Move::DeckPile(c) => convert_deck_pile(game, c, move_seq),
        Move::DeckStack(c) => convert_deck_stack(game, c, move_seq),
        Move::StackPile(c) => convert_stack_pile(game, c, move_seq),
        Move::Reveal(c) => convert_reveal(game, c, move_seq),
        Move::PileStack(c) => convert_pile_stack(game, c, move_seq),
    }
}

/// Makes the steps of `steps` from index `start` on, as far as they can be
/// made.
fn apply_steps(game: &mut StandardSolitaire, steps: &StandardHistoryVec, start: usize) -> (r:
    MoveResult<()>)
    requires
        old(game).wf(),
        start <= steps@.len(),
    ensures
        final(game).wf(),
        final(game)@ == old(game)@.applied(steps@.subrange(start as int, steps@.len() as int)).1,
        r.is_ok() == old(game)@.applied(steps@.subrange(start as int, steps@.len() as int)).0,
{
    let mut j: usize = start;
    while j < steps.len()
        invariant
            start <= j <= steps.len(),
            game.wf(),
            old(game)@.applied(steps@.subrange(start as int, steps@.len() as int)) == game@.applied(
                steps@.subrange(j as int, steps@.len() as int),
            ),
        decreases steps.len() - j,
    {
        let ghost tail = steps@.subrange(j as int, steps@.len() as int);
        proof {
            assert(tail[0] == steps@[j as int]);
            assert(tail.drop_first() =~= steps@.subrange(j + 1, steps@.len() as int));
        }
        match game.do_move(&steps[j]) {
            Ok(()) => {},
            Err(e) => {
                return Err(e);
            },
        }
        j += 1;
    }
    Ok(())
}

/// Converts the moves `m` and makes their steps on `game`. If a move cannot be
/// made on the table, the game stays where the conversion stopped.
pub fn convert_moves(game: &mut StandardSolitaire, m: &[Move]) -> (r: MoveResult<StandardHistoryVec>)
    requires
        old(game).wf(),
    ensures
        final(game).wf(),
        final(game)@ == old(game)@.converted(m@).1,
        match r {
            Ok(steps) => old(game)@.converted(m@).0 == Some(steps@),
            Err(_) => old(game)@.converted(m@).0.is_none(),
        },
{
    let mut move_seq: StandardHistoryVec = Vec::new();
    let mut i: usize = 0;
    proof {
        assert(m@.subrange(0, m@.len() as int) =~= m@);
    }
    while i < m.len()
        invariant
            i <= m.len(),
            game.wf(),
            old(game)@.converted(m@).1 == game@.converted(m@.subrange(i as int, m@.len() as int)).1,
            old(game)@.converted(m@).0 == (match game@.converted(
                m@.subrange(i as int, m@.len() as int),
            ).0 {
                Some(x) => Some(move_seq@ + x),
                None => None,
            }),
        decreases m.len() - i,
    {
        let ghost rest = m@.subrange(i as int, m@.len() as int);
        let ghost here = game@;
        let ghost done = move_seq@;
        proof {
            assert(rest[0] == m@[i as int]);
            assert(rest.drop_first() =~= m@.subrange(i + 1, m@.len() as int));
        }
        let start = move_seq.len();
        match convert_move(game, m[i], &mut move_seq) {
            Ok(()) => {},
            Err(e) => {
                return Err(e);
            },
        }
        let ghost steps = here.conversion(m@[i as int]).unwrap();
        proof {
            assert(move_seq@.subrange(start as int, move_seq@.len() as int) =~= steps);
        }
        match apply_steps(game, &move_seq, start) {
            Ok(()) => {},
            Err(e) => {
                return Err(e);
            },
        }
        proof {
            match game@.converted(rest.drop_first()).0 {
                Some(x) => {
                    assert(done + (steps + x) =~= move_seq@ + x);
                },
                None => {},
            }
        }
        i += 1;
    }
    proof {
        assert(m@.subrange(m@.len() as int, m@.len() as int) =~= Seq::<Move>::empty());
        assert(move_seq@ + Seq::<StandardMove>::empty() =~= move_seq@);
    }
    Ok(move_seq)
}

impl StandardView {
    /// No card lies twice in a column.
    pub open spec fn distinct(self) -> bool {
        forall|p: int, j: int, l: int|
            0 <= p < self.piles.len() && 0 <= j < l < self.piles[p].len() ==> self.piles[p][j]
                != self.piles[p][l]
    }

    /// The position with the cursor of the deck where `n` deals bring it.
    pub open spec fn dealt(self, n: int) -> StandardView {
        StandardView { deck: self.deck.at(self.deck.offset_after(n)), ..self }
    }

    /// Deals can always be made, and move the cursor of the deck only.
    pub proof fn lemma_deals_apply(self, n: int, rest: Seq<StandardMove>)
        requires
            self.wf(),
            n >= 0,
        ensures
            self.dealt(n).wf(),
            self.applied(deals(n) + rest) == self.dealt(n).applied(rest),
        decreases n,
    {
        self.deck.lemma_offset_step(0);
        self.deck.lemma_offset_in_range(n);
        crate::deck::lemma_at_wf(self.deck, self.deck.offset_after(n));
        if n == 0 {
            assert(deals(0) + rest =~= rest);
            assert(self.dealt(0) == self);
        } else {
            let all = deals(n) + rest;
            assert(all[0] == StandardMove::spec_draw_next());
            assert(all.drop_first() =~= deals(n - 1) + rest);
            let one = self.moved(all[0]);
            self.deck.lemma_offset_shift(n - 1);
            one.lemma_deals_apply(n - 1, rest);
            assert(one.dealt(n - 1) == self.dealt(n));
        }
    }

    /// What the first column that takes a card is.
    pub proof fn lemma_free_pile(self, c: Card)
        requires
            self.has_free_pile(c),
        ensures
            0 <= self.free_pile(c) < 7,
            self.accepts(self.free_pile(c), c),
    {
        reveal(StandardView::has_free_pile);
        reveal(StandardView::free_pile);
        let p = choose|p: int| 0 <= p < 7 && #[trigger] self.accepts(p, c);
        lemma_least(|q: int| self.accepts(q, c), p);
        let least = choose|q: int|
            0 <= q <= p && self.accepts(q, c) && forall|r: int| 0 <= r < q ==> !self.accepts(r, c);
        assert(0 <= least < 7 && self.accepts(least, c) && forall|r: int|
            0 <= r < least ==> !self.accepts(r, c));
    }

    /// The steps that a move is converted to can all be made, if no card lies
    /// twice in a column.
    pub proof fn lemma_conversion_applies(self, m: Move)
        requires
            self.wf(),
            self.distinct(),
            self.conversion(m).is_some(),
        ensures
            self.applied(self.conversion(m).unwrap()).0,
    {
        let steps = self.conversion(m).unwrap();
        let c = m.spec_card();
        match m {
            Move::DeckPile(_) => {
                reveal(StandardView::in_reach);
                reveal(StandardView::deals_to);
                self.lemma_free_pile(c);
                let n = self.deals_to(c);
                let p = self.free_pile(c);
                let last = step(Pos::Deck, Pos::Pile(p as u8), c);
                let w = choose|w: int| 0 <= w <= 24 && #[trigger] self.top_after(w, c);
                lemma_least(|q: int| self.top_after(q, c), w);
                let least = choose|q: int|
                    0 <= q <= w && self.top_after(q, c) && forall|r: int|
                        0 <= r < q ==> !self.top_after(r, c);
                assert(0 <= least <= 24 && self.top_after(least, c) && forall|r: int|
                    0 <= r < least ==> !self.top_after(r, c));
                assert(steps =~= deals(n) + seq![last]);
                self.lemma_deals_apply(n, seq![last]);
                let v = self.dealt(n);
                assert(v.valid(last));
                assert(seq![last].drop_first() =~= Seq::<StandardMove>::empty());
                assert(v.moved(last).applied(Seq::<StandardMove>::empty()).0);
            },
            Move::DeckStack(_) => {
                reveal(StandardView::in_reach);
                reveal(StandardView::deals_to);
                let n = self.deals_to(c);
                let last = step(Pos::Deck, Pos::Stack(c.spec_suit()), c);
                let w = choose|w: int| 0 <= w <= 24 && #[trigger] self.top_after(w, c);
                lemma_least(|q: int| self.top_after(q, c), w);
                let least = choose|q: int|
                    0 <= q <= w && self.top_after(q, c) && forall|r: int|
                        0 <= r < q ==> !self.top_after(r, c);
                assert(0 <= least <= 24 && self.top_after(least, c) && forall|r: int|
                    0 <= r < least ==> !self.top_after(r, c));
                assert(steps =~= deals(n) + seq![last]);
                self.lemma_deals_apply(n, seq![last]);
                let v = self.dealt(n);
                self.deck.lemma_offset_in_range(n);
                assert(v.deck.cards[v.deck.cursor - 1].0 < 52);
                assert(v.valid(last));
                assert(seq![last].drop_first() =~= Seq::<StandardMove>::empty());
                assert(v.moved(last).applied(Seq::<StandardMove>::empty()).0);
            },
            Move::StackPile(_) => {
                self.lemma_free_pile(c);
                let last = steps[0];
                assert(self.stack[c.spec_suit() as int] <= 13);
                assert(self.valid(last));
                assert(steps.drop_first() =~= Seq::<StandardMove>::empty());
                assert(self.moved(last).applied(Seq::<StandardMove>::empty()).0);
            },
            Move::Reveal(_) => {
                self.lemma_free_pile(c);
                reveal(StandardView::has_top_pile);
                reveal(StandardView::top_pile);
                let w = choose|w: int| 0 <= w < 7 && #[trigger] self.tops(w, c);
                lemma_least(|q: int| self.tops(q, c), w);
                let least = choose|q: int|
                    0 <= q <= w && self.tops(q, c) && forall|r: int| 0 <= r < q ==> !self.tops(r, c);
                assert(0 <= least < 7 && self.tops(least, c) && forall|r: int|
                    0 <= r < least ==> !self.tops(r, c));
                let from = self.top_pile(c);
                let last = steps[0];
                assert(self.piles[from][0] == c);
                assert(self.piles[from].contains(c));
                assert(self.valid(last));
                assert(steps.drop_first() =~= Seq::<StandardMove>::empty());
                assert(self.moved(last).applied(Seq::<StandardMove>::empty()).0);
            },
            Move::PileStack(_) => {
                reveal(StandardView::has_holder);
                reveal(StandardView::holder);
                reveal(crate::standard::first_index);
                let w = choose|w: int| 0 <= w < 7 && #[trigger] self.holds(w, c);
                lemma_least(|q: int| self.holds(q, c), w);
                let least = choose|q: int|
                    0 <= q <= w && self.holds(q, c) && forall|r: int| 0 <= r < q ==> !self.holds(r, c);
                assert(0 <= least < 7 && self.holds(least, c) && forall|r: int|
                    0 <= r < least ==> !self.holds(r, c));
                let p = self.holder(c);
                let pile = self.piles[p];
                assert(pile.contains(c));
                let i = choose|i: int| 0 <= i < pile.len() && pile[i] == c;
                lemma_least(|q: int| 0 <= q < pile.len() && pile[q] == c, i);
                let f = choose|q: int|
                    0 <= q <= i && (0 <= q < pile.len() && pile[q] == c) && forall|r: int|
                        0 <= r < q ==> !(0 <= r < pile.len() && pile[r] == c);
                assert(0 <= f < pile.len() && pile[f] == c && forall|r: int|
                    0 <= r < f ==> pile[r] != c);
                let j = self.index_in(p, c);
                assert(0 <= j < pile.len() && pile[j] == c);
                let last = step(Pos::Pile(p as u8), Pos::Stack(c.spec_suit()), c);
                assert(pile[j].0 < 52);
                if j + 1 < pile.len() {
                    let over = pile[j + 1];
                    self.lemma_free_pile(over);
                    let q = self.free_pile(over);
                    let first = step(Pos::Pile(p as u8), Pos::Pile(q as u8), over);
                    assert(steps =~= seq![first, last]);
                    assert(pile.contains(over));
                    assert(self.valid(first));
                    let k = self.index_in(p, over);
                    assert(0 <= k < pile.len() && pile[k] == over) by {
                        lemma_least(|r: int| 0 <= r < pile.len() && pile[r] == over, j + 1);
                        let g = choose|t: int|
                            0 <= t <= j + 1 && (0 <= t < pile.len() && pile[t] == over) && forall|
                                r: int,
                            | 0 <= r < t ==> !(0 <= r < pile.len() && pile[r] == over);
                        assert(0 <= g < pile.len() && pile[g] == over && forall|r: int|
                            0 <= r < g ==> pile[r] != over);
                    }
                    assert(k == j + 1) by {
                        if k < j + 1 {
                            assert(pile[k] != pile[j + 1]);
                        } else if k > j + 1 {
                            assert(pile[j + 1] != pile[k]);
                        }
                    }
                    let v = self.moved(first);
                    assert(v.piles[p] =~= pile.subrange(0, j + 1));
                    assert(v.piles[p].last() == c);
                    assert(v.valid(last));
                    assert(steps.drop_first() =~= seq![last]);
                    assert(seq![last].drop_first() =~= Seq::<StandardMove>::empty());
                    assert(v.moved(last).applied(Seq::<StandardMove>::empty()).0);
                    assert(v.applied(seq![last]).0);
                } else {
                    assert(steps =~= seq![last]);
                    assert(pile.last() == c);
                    assert(self.valid(last));
                    assert(steps.drop_first() =~= Seq::<StandardMove>::empty());
                    assert(self.moved(last).applied(Seq::<StandardMove>::empty()).0);
                }
            },
        }
    }
}

/// Among the numbers from 0 to `n` of which `f` holds, if it holds of `n`,
/// there is a least one.
pub proof fn lemma_least(f: spec_fn(int) -> bool, n: int)
    requires
        n >= 0,
        f(n),
    ensures
        exists|q: int| 0 <= q <= n && #[trigger] f(q) && forall|r: int| 0 <= r < q ==> !#[trigger] f(r),
    decreases n,
{
    if exists|r: int| 0 <= r < n && #[trigger] f(r) {
        let r = choose|r: int| 0 <= r < n && #[trigger] f(r);
        lemma_least(f, r);
        let q = choose|q: int|
            0 <= q <= r && #[trigger] f(q) && forall|t: int| 0 <= t < q ==> !#[trigger] f(t);
        assert(0 <= q <= n && f(q) && forall|t: int| 0 <= t < q ==> !#[trigger] f(t));
    } else {
        assert(0 <= n <= n && f(n) && forall|r: int| 0 <= r < n ==> !#[trigger] f(r));
    }
}

} // verus!
