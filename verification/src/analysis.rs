//! Heuristic scores of moves.

use crate::card::{Card, KING_RANK};
use crate::deck::N_PILES;
use crate::engine::{Solitaire, SolitaireView};
use crate::moves::Move;
use vstd::prelude::*;

verus! {

/// How a player likes to play.
#[derive(Clone, Copy, Debug, PartialEq, Eq, Structural)]
pub enum PlayStyle {
    Conservative,
    Neutral,
    Aggressive,
}

/// The weights of the heuristics, and for each style the factor that scales
/// the score.
#[derive(Clone, Copy, Debug)]
pub struct HeuristicConfig {
    pub reveal_bonus: i32,
    pub empty_column_bonus: i32,
    pub early_foundation_penalty: i32,
    pub keep_king_bonus: i32,
    pub deadlock_penalty: i32,
    pub aggressive_coef: i32,
    pub conservative_coef: i32,
    pub neutral_coef: i32,
}

impl HeuristicConfig {
    /// The factor of `style`.
    pub open spec fn coef(self, style: PlayStyle) -> int {
        match style {
            PlayStyle::Aggressive => self.aggressive_coef as int,
            PlayStyle::Conservative => self.conservative_coef as int,
            PlayStyle::Neutral => self.neutral_coef as int,
        }
    }
}

impl Default for HeuristicConfig {
    fn default() -> (c: HeuristicConfig)
        ensures
            c.reveal_bonus == 5,
            c.empty_column_bonus == 2,
            c.early_foundation_penalty == -3,
            c.keep_king_bonus == 1,
            c.deadlock_penalty == -10,
            c.aggressive_coef == 1,
            c.conservative_coef == 1,
            c.neutral_coef == 1,
    {
        HeuristicConfig {
            reveal_bonus: 5,
            empty_column_bonus: 2,
            early_foundation_penalty: -3,
            keep_king_bonus: 1,
            deadlock_penalty: -10,
            aggressive_coef: 1,
            conservative_coef: 1,
            neutral_coef: 1,
        }
    }
}

/// `x`, or the nearest value that an `i32` holds.
pub open spec fn clamp_i32(x: int) -> int {
    if x > i32::MAX {
        i32::MAX as int
    } else if x < i32::MIN {
        i32::MIN as int
    } else {
        x
    }
}

impl SolitaireView {
    /// The score of move `m` before it is scaled: a bonus for a reveal, a
    /// penalty for a card below the six that goes from the tableau to the
    /// foundation, a bonus for a king that is laid while the last pile is
    /// empty.
    pub open spec fn base_score(self, m: Move, cfg: HeuristicConfig) -> int {
        match m {
            Move::Reveal(_) => cfg.reveal_bonus as int,
            Move::PileStack(c) => if c.spec_rank() < 5 {
                cfg.early_foundation_penalty as int
            } else {
                0
            },
            Move::DeckPile(c) => if c.spec_rank() == KING_RANK && self.hidden.counts[6] == 0 {
                cfg.keep_king_bonus as int
            } else {
                0
            },
            Move::StackPile(c) => if c.spec_rank() == KING_RANK && self.hidden.counts[6] == 0 {
                cfg.keep_king_bonus as int
            } else {
                0
            },
            Move::DeckStack(_) => 0,
        }
    }

    /// The score of move `m` for a style: the base score times the factor of
    /// the style.
    pub open spec fn score(self, style: PlayStyle, m: Move, cfg: HeuristicConfig) -> int {
        self.base_score(m, cfg) * cfg.coef(style)
    }

    /// Twice the factor of a style gives twice the score, for every move.
    pub proof fn lemma_style_scaling(
        self,
        style: PlayStyle,
        m: Move,
        one: HeuristicConfig,
        two: HeuristicConfig,
    )
        requires
            two.reveal_bonus == one.reveal_bonus,
            two.early_foundation_penalty == one.early_foundation_penalty,
            two.keep_king_bonus == one.keep_king_bonus,
            two.coef(style) == 2 * one.coef(style),
        ensures
            self.score(style, m, two) == 2 * self.score(style, m, one),
    {
        let b = self.base_score(m, one);
        let k = one.coef(style);
        assert(self.base_score(m, two) == b);
        assert(b * (2 * k) == 2 * (b * k)) by (nonlinear_arith);
    }
}

/// The heuristic score of move `m` in the state `engine`, as far as an `i32`
/// holds it.
pub fn evaluate_move(style: PlayStyle, engine: &Solitaire, m: Move, cfg: &HeuristicConfig) -> (r:
    i32)
    requires
        engine.wf(),
    ensures
        r == clamp_i32(engine@.score(style, m, *cfg)),
{
    let coeff: i64 = match style {
        PlayStyle::Aggressive => cfg.aggressive_coef as i64,
        PlayStyle::Conservative => cfg.conservative_coef as i64,
        PlayStyle::Neutral => cfg.neutral_coef as i64,
    };
    let base: i64 = match m {
        Move::Reveal(_) => cfg.reveal_bonus as i64,
        Move::PileStack(c) => if c.rank() < 5 {
            cfg.early_foundation_penalty as i64
        } else {
            0
        },
        Move::DeckPile(c) => if c.rank() == KING_RANK && engine.get_hidden().len(6) == 0 {
            cfg.keep_king_bonus as i64
        } else {
            0
        },
        Move::StackPile(c) => if c.rank() == KING_RANK && engine.get_hidden().len(6) == 0 {
            cfg.keep_king_bonus as i64
        } else {
            0
        },
        Move::DeckStack(_) => 0,
    };
    proof {
        assert(-0x4000_0000_0000_0000 <= base * coeff <= 0x4000_0000_0000_0000) by (nonlinear_arith)
            requires
                -0x8000_0000 <= base <= 0x7fff_ffff,
                -0x8000_0000 <= coeff <= 0x7fff_ffff,
        ;
    }
    let wide: i64 = base * coeff;
    if wide > i32::MAX as i64 {
        i32::MAX
    } else if wide < i32::MIN as i64 {
        i32::MIN
    } else {
        wide as i32
    }
}

/// A move with what is known of it before it is made.
#[derive(Clone, Copy, Debug)]
pub struct ScoredMove {
    pub mv: Move,
    pub heuristic_score: i32,
    /// Nothing tells here that a move blocks the game.
    pub will_block: bool,
    /// The card that the move turns up.
    pub revealed: Option<Card>,
    /// How many more columns are empty after the move.
    pub columns_freed: usize,
}

/// Number of the first `n` columns that hold no card, face up or face down.
pub open spec fn empties(columns: Seq<Seq<Card>>, counts: Seq<u8>, n: int) -> int
    decreases n,
{
    if n <= 0 {
        0
    } else {
        empties(columns, counts, n - 1) + (if columns[n - 1].len() == 0 && counts[n - 1] == 0 {
            1int
        } else {
            0
        })
    }
}

impl SolitaireView {
    /// `n` columns are empty, for a way to lay the face-up cards out in
    /// columns.
    pub open spec fn has_empty(self, n: int) -> bool {
        exists|columns: Seq<Seq<Card>>| #[trigger]
            self.laid_out(columns) && n == empties(columns, self.hidden.counts, N_PILES as int)
    }

    /// `x` says of one move of the state what there is to say: its score for
    /// the style, the card it turns up, and how many more columns are empty
    /// after it.
    pub open spec fn rates(self, style: PlayStyle, cfg: HeuristicConfig, x: ScoredMove) -> bool {
        &&& x.heuristic_score == clamp_i32(self.score(style, x.mv, cfg))
        &&& !x.will_block
        &&& x.revealed == self.undo_of(x.mv).revealed
        &&& exists|before: int, after: int| #[trigger]
            self.has_empty(before) && #[trigger] self.after(x.mv).has_empty(after)
                && x.columns_freed == (if after >= before {
                after - before
            } else {
                0
            })
    }
}

/// The list `r` holds move `m`.
pub open spec fn lists(r: Seq<ScoredMove>, m: Move) -> bool {
    exists|i: int| 0 <= i < r.len() && (#[trigger] r[i]).mv == m
}

/// Number of columns that hold no card.
pub fn count_empty_columns(game: &Solitaire) -> (n: usize)
    requires
        game.wf(),
    ensures
        n <= N_PILES,
        game@.has_empty(n as int),
{
    let piles = game.compute_visible_piles();
    let ghost columns = Seq::new(piles@.len(), |i: int| piles@[i]@);
    let hidden = game.get_hidden();
    let mut n: usize = 0;
    let mut i: u8 = 0;
    proof {
        game.lemma_wf();
    }
    while i < N_PILES
        invariant
            i <= N_PILES,
            n <= i,
            piles@.len() == N_PILES,
            columns == Seq::new(piles@.len(), |i: int| piles@[i]@),
            hidden.wf(),
            hidden@ == game@.hidden,
            n == empties(columns, game@.hidden.counts, i as int),
        decreases N_PILES - i,
    {
        if piles[i as usize].len() == 0 && hidden.len(i) == 0 {
            n += 1;
        }
        i += 1;
    }
    n
}

/// The list is in the order of the scores, the best first.
pub open spec fn ranked(r: Seq<ScoredMove>) -> bool {
    forall|i: int, j: int|
        0 <= i < j < r.len() ==> (#[trigger] r[i]).heuristic_score >= (
        #[trigger] r[j]).heuristic_score
}

/// What there is to say of move `m` of the state `engine`, which has
/// `base_empty` empty columns.
fn rate_move(
    engine: &Solitaire,
    style: PlayStyle,
    cfg: &HeuristicConfig,
    m: Move,
    base_empty: usize,
) -> (x: ScoredMove)
    requires
        engine.wf(),
        engine@.can_do(m),
        engine@.has_empty(base_empty as int),
    ensures
        x.mv == m,
        engine@.rates(style, *cfg, x),
{
    let mut st = engine.duplicate();
    let undo = st.do_move(&m);
    let after_empty = count_empty_columns(&st);
    let x = ScoredMove {
        mv: m,
        heuristic_score: evaluate_move(style, engine, m, cfg),
        will_block: false,
        revealed: undo.revealed,
        columns_freed: if after_empty >= base_empty {
            after_empty - base_empty
        } else {
            0
        },
    };
    proof {
        assert(engine@.has_empty(base_empty as int) && engine@.after(x.mv).has_empty(
            after_empty as int,
        ));
    }
    x
}

/// Puts `x` into the ranked list behind the moves that score as much or
/// more.
fn insert_ranked(r: &mut Vec<ScoredMove>, x: ScoredMove)
    requires
        ranked(old(r)@),
    ensures
        ranked(final(r)@),
        exists|pos: int| 0 <= pos <= old(r)@.len() && final(r)@ == old(r)@.insert(pos, x),
{
    let mut pos: usize = 0;
    while pos < r.len() && r[pos].heuristic_score >= x.heuristic_score
        invariant
            pos <= r@.len(),
            r@ == old(r)@,
            forall|i: int| 0 <= i < pos ==> (#[trigger] r@[i]).heuristic_score >= x.heuristic_score,
        decreases r@.len() - pos,
    {
        pos += 1;
    }
    let ghost before = r@;
    r.insert(pos, x);
    proof {
        assert forall|i: int, j: int| 0 <= i < j < r@.len() implies (
        #[trigger] r@[i]).heuristic_score >= (#[trigger] r@[j]).heuristic_score by {
            let a = if i < pos {
                before[i]
            } else if i == pos {
                x
            } else {
                before[i - 1]
            };
            let b = if j < pos {
                before[j]
            } else if j == pos {
                x
            } else {
                before[j - 1]
            };
            assert(r@[i] == a && r@[j] == b);
        }
        assert(r@ == before.insert(pos as int, x));
    }
}

/// The moves that the generator offers with dominance, each with its score
/// for the style, the card that it turns up and the columns that it frees;
/// the best score first.
pub fn ranked_moves(engine: &Solitaire, style: PlayStyle, cfg: &HeuristicConfig) -> (r: Vec<
    ScoredMove,
>)
    requires
        engine.wf(),
    ensures
        forall|m: Move| engine@.offered(true, m) <==> #[trigger] lists(r@, m),
        forall|i: int| 0 <= i < r@.len() ==> engine@.rates(style, *cfg, #[trigger] r@[i]),
        ranked(r@),
{
    let moves = engine.list_moves::<true>();
    let base_empty = count_empty_columns(engine);
    let mut r: Vec<ScoredMove> = Vec::new();
    let mut k: usize = 0;
    let ghost s = engine@;
    while k < moves.len()
        invariant
            k <= moves.len(),
            engine.wf(),
            s == engine@,
            s.has_empty(base_empty as int),
            forall|m: Move| #[trigger] moves@.contains(m) ==> s.can_do(m),
            forall|i: int| 0 <= i < r@.len() ==> s.rates(style, *cfg, #[trigger] r@[i]),
            ranked(r@),
            forall|i: int| 0 <= i < r@.len() ==> moves@.contains((#[trigger] r@[i]).mv),
            forall|j: int| 0 <= j < k ==> lists(r@, #[trigger] moves@[j]),
        decreases moves.len() - k,
    {
        let m = moves[k];
        assert(moves@.contains(m));
        let x = rate_move(engine, style, cfg, m, base_empty);
        let ghost before = r@;
        insert_ranked(&mut r, x);
        proof {
            let pos = choose|pos: int| 0 <= pos <= before.len() && r@ == before.insert(pos, x);
            assert forall|i: int| 0 <= i < r@.len() implies s.rates(style, *cfg, #[trigger] r@[i])
                && moves@.contains(r@[i].mv) by {
                if i < pos {
                    assert(r@[i] == before[i]);
                } else if i > pos {
                    assert(r@[i] == before[i - 1]);
                }
            }
            assert forall|j: int| 0 <= j < k + 1 implies lists(r@, #[trigger] moves@[j]) by {
                if j == k {
                    assert(r@[pos].mv == moves@[j]);
                } else {
                    assert(lists(before, moves@[j]));
                    let o = choose|o: int| 0 <= o < before.len() && (#[trigger] before[o]).mv == moves@[j];
                    let i = if o < pos {
                        o
                    } else {
                        o + 1
                    };
                    assert(r@[i] == before[o]);
                }
            }
        }
        k += 1;
    }
    proof {
        assert forall|m: Move| s.offered(true, m) implies #[trigger] lists(r@, m) by {
            assert(moves@.contains(m));
            let j = choose|j: int| 0 <= j < moves@.len() && moves@[j] == m;
            assert(lists(r@, moves@[j]));
        }
        assert forall|m: Move| #[trigger] lists(r@, m) implies s.offered(true, m) by {
            let i = choose|i: int| 0 <= i < r@.len() && (#[trigger] r@[i]).mv == m;
            assert(moves@.contains(r@[i].mv));
        }
    }
    r
}

} // verus!
