//! A depth-first walk over the states that can be reached, with hooks for
//! what is to be done at each.

use crate::engine::{Encode, MoveVec, Solitaire, SolitaireView};
use crate::mixer::mix;
use crate::moves::{same_move, Move};
use crate::solver::N_PLY_MAX;
use nohash_hasher::BuildNoHashHasher;
use vstd::prelude::*;

verus! {

/// The set of states that a walk has been to.
pub trait TranspositionTable {
    fn clear(&mut self);

    /// Records `value`, and tells whether it was new.
    fn insert(&mut self, value: Encode) -> bool;
}

/// What a hook tells the walk.
#[derive(Debug, Clone, Copy, PartialEq, Eq, Structural)]
pub enum TraverseResult {
    /// Stop the whole walk.
    Halted,
    /// Do not go on from this state.
    Skip,
    /// Go on.
    Proceed,
}

/// The hooks of a walk. What a set of hooks keeps true of itself from one call
/// to the next it may say in [`TraverseCallback::inv`] and the functions
/// beside it, and the walk then states it of the hooks as it leaves them;
/// hooks that say nothing there are promised nothing and owe nothing.
pub trait TraverseCallback {
    /// What the hooks keep true of what they hold.
    open spec fn inv(&self) -> bool {
        true
    }

    /// The hooks have been told that the walk comes to the state `game` next,
    /// by a move whose reverse is `rev_move`.
    open spec fn expects(&self, game: SolitaireView, rev_move: Option<Move>) -> bool {
        true
    }

    /// The state that the hooks hold a walk to begin at, which they keep
    /// through the walk.
    open spec fn origin(&self) -> Option<SolitaireView> {
        None
    }

    /// A hook has been told of a state that the walk came to, and did not
    /// halt the walk there.
    open spec fn visited(&self) -> bool {
        true
    }

    /// The hooks have been told that the walk came to the state `game`, and
    /// did not halt it there.
    open spec fn knows(&self, game: SolitaireView) -> bool {
        true
    }

    /// No hook ever answers [`TraverseResult::Halted`].
    open spec fn never_halts(&self) -> bool {
        false
    }

    /// The hooks keep the answers that they give.
    open spec fn records(&self) -> bool {
        false
    }

    /// The answers that the hooks have given for the states that the walk
    /// came to, in turn, where they keep them.
    open spec fn answers(&self) -> Seq<TraverseResult> {
        Seq::empty()
    }

    /// The walk has come to a won state.
    fn on_win(&mut self, game: &Solitaire, rev_move: &Option<Move>) -> (r: TraverseResult)
        requires
            game.wf(),
            game@.is_win(),
            old(self).inv(),
            old(self).expects(game@, *rev_move),
        ensures
            final(self).inv(),
            final(self).visited(),
            old(self).never_halts() ==> r != TraverseResult::Halted,
            final(self).origin() == old(self).origin(),
            final(self).never_halts() == old(self).never_halts(),
            forall|v: SolitaireView| old(self).knows(v) ==> #[trigger] final(self).knows(v),
            final(self).records() == old(self).records(),
            old(self).records() ==> final(self).answers() == old(self).answers().push(r),
    ;

    /// The walk has come to a state that is not won, with key `encode`.
    fn on_visit(&mut self, game: &Solitaire, encode: Encode) -> (r: TraverseResult)
        requires
            game.wf(),
            !game@.is_win(),
            encode == game@.encoded(),
            old(self).inv(),
            exists|r: Option<Move>| #[trigger] old(self).expects(game@, r),
        ensures
            final(self).inv(),
            old(self).visited() || r != TraverseResult::Halted ==> final(self).visited(),
            r != TraverseResult::Halted ==> final(self).knows(game@),
            old(self).never_halts() ==> r != TraverseResult::Halted,
            final(self).origin() == old(self).origin(),
            final(self).never_halts() == old(self).never_halts(),
            forall|v: SolitaireView| old(self).knows(v) ==> #[trigger] final(self).knows(v),
            final(self).records() == old(self).records(),
            old(self).records() ==> final(self).answers() == old(self).answers().push(r),
    ;

    /// The state with key `encode` is new, and offers the moves `move_list`.
    fn on_move_gen(&mut self, move_list: &MoveVec, encode: Encode)
        requires
            old(self).inv(),
        ensures
            final(self).inv(),
            old(self).visited() ==> final(self).visited(),
            final(self).origin() == old(self).origin(),
            final(self).never_halts() == old(self).never_halts(),
            forall|v: SolitaireView| old(self).knows(v) ==> #[trigger] final(self).knows(v),
            final(self).records() == old(self).records(),
            old(self).records() ==> final(self).answers() == old(self).answers(),
    ;

    /// The walk is about to make move `m` in the state `game`.
    fn on_do_move(&mut self, game: &Solitaire, m: &Move, encode: Encode, rev_move: &Option<Move>)
        requires
            game.wf(),
            game@.legal(*m),
            encode == game@.encoded(),
            *rev_move == game@.rev_move(*m),
            old(self).inv(),
            old(self).visited(),
            old(self).knows(game@),
        ensures
            final(self).inv(),
            final(self).visited(),
            final(self).origin() == old(self).origin(),
            final(self).never_halts() == old(self).never_halts(),
            forall|v: SolitaireView| old(self).knows(v) ==> #[trigger] final(self).knows(v),
            final(self).records() == old(self).records(),
            old(self).records() ==> final(self).answers() == old(self).answers(),
            final(self).expects(game@.after(*m), *rev_move),
    ;

    /// The walk has taken move `m` back, and is again in the state with key
    /// `encode`.
    fn on_undo_move(&mut self, m: &Move, encode: Encode)
        requires
            old(self).inv(),
        ensures
            final(self).inv(),
            old(self).visited() ==> final(self).visited(),
            final(self).origin() == old(self).origin(),
            final(self).never_halts() == old(self).never_halts(),
            forall|v: SolitaireView| old(self).knows(v) ==> #[trigger] final(self).knows(v),
            final(self).records() == old(self).records(),
            old(self).records() ==> final(self).answers() == old(self).answers(),
    ;

    /// The walk begins.
    fn on_start(&mut self)
        requires
            old(self).inv(),
        ensures
            final(self).inv(),
            old(self).visited() ==> final(self).visited(),
            final(self).origin() == old(self).origin(),
            final(self).never_halts() == old(self).never_halts(),
            forall|v: SolitaireView| old(self).knows(v) ==> #[trigger] final(self).knows(v),
            final(self).records() == old(self).records(),
            old(self).records() ==> final(self).answers() == old(self).answers(),
            forall|game: SolitaireView, r: Option<Move>| #[trigger]
                old(self).expects(game, r) ==> final(self).expects(game, r),
    ;

    /// The walk is over, with the result `res`.
    fn on_finish(&mut self, res: &TraverseResult)
        requires
            old(self).inv(),
        ensures
            final(self).inv(),
            old(self).visited() ==> final(self).visited(),
            final(self).origin() == old(self).origin(),
            final(self).never_halts() == old(self).never_halts(),
            forall|v: SolitaireView| old(self).knows(v) ==> #[trigger] final(self).knows(v),
            final(self).records() == old(self).records(),
            old(self).records() ==> final(self).answers() == old(self).answers(),
    ;
}

/// The answers `after` begin with the answers `before`.
pub open spec fn extends(before: Seq<TraverseResult>, after: Seq<TraverseResult>) -> bool {
    before.len() <= after.len() && after.subrange(0, before.len() as int) == before
}

/// How the result `res` of a walk from a state, won or not, stands to the
/// answers that the hooks gave before it and have given after it: the hooks
/// gave an answer for the state; on a won state, and wherever that answer was
/// not to go on, it was their only answer and is the result; else the result
/// is to go on or to halt.
pub open spec fn told(
    before: Seq<TraverseResult>,
    after: Seq<TraverseResult>,
    won: bool,
    res: TraverseResult,
) -> bool {
    &&& extends(before, after)
    &&& before.len() < after.len()
    &&& won || after[before.len() as int] != TraverseResult::Proceed ==> after.len() == before.len()
        + 1 && res == after[before.len() as int]
    &&& res == TraverseResult::Skip ==> after[before.len() as int] == TraverseResult::Skip
}

/// Answers that begin with answers that begin with `a` begin with `a`.
proof fn lemma_extends(a: Seq<TraverseResult>, b: Seq<TraverseResult>, c: Seq<TraverseResult>)
    requires
        extends(a, b),
        extends(b, c),
    ensures
        extends(a, c),
{
    assert(c.subrange(0, a.len() as int) =~= b.subrange(0, a.len() as int));
}

/// How a walk that went on from a state that is not won stands to the
/// answers of the hooks.
proof fn lemma_went_on(before: Seq<TraverseResult>, after: Seq<TraverseResult>, res: TraverseResult)
    requires
        extends(before.push(TraverseResult::Proceed), after),
        res != TraverseResult::Skip,
    ensures
        told(before, after, false, res),
{
    let first = before.push(TraverseResult::Proceed);
    assert(first.subrange(0, before.len() as int) =~= before);
    lemma_extends(before, first, after);
    assert(after.subrange(0, first.len() as int)[before.len() as int] == first[before.len() as int]);
}

/// What a walk does with the answer of the hook for a state that is not won:
/// it ends there with that answer, or it goes on.
pub fn after_visit(answer: TraverseResult) -> (r: Option<TraverseResult>)
    ensures
        r == (if answer == TraverseResult::Proceed {
            None::<TraverseResult>
        } else {
            Some(answer)
        }),
{
    match answer {
        TraverseResult::Proceed => None,
        _ => Some(answer),
    }
}

/// What a walk does with a state that the hook lets it go on from, given
/// whether the state is new to the table and how many moves led to it: a
/// state that is not new is left; at the end of the room for the line of play
/// the walk halts; else it tries the moves.
pub fn after_insert(fresh: bool, depth: usize) -> (r: Option<TraverseResult>)
    ensures
        r == (if !fresh {
            Some(TraverseResult::Proceed)
        } else if depth >= N_PLY_MAX {
            Some(TraverseResult::Halted)
        } else {
            None::<TraverseResult>
        }),
{
    if !fresh {
        Some(TraverseResult::Proceed)
    } else if depth >= N_PLY_MAX {
        Some(TraverseResult::Halted)
    } else {
        None
    }
}

/// Whether a walk halts on what it found below a move. It goes on after
/// every other answer.
pub fn after_child(answer: TraverseResult) -> (halt: bool)
    ensures
        halt == (answer == TraverseResult::Halted),
{
    answer == TraverseResult::Halted
}

/// The walk below one state, which it leaves as it found it. It goes no
/// deeper than [`N_PLY_MAX`] moves: there it halts.
fn traverse<T: TranspositionTable, C: TraverseCallback>(
    game: &mut Solitaire,
    rev_move: Option<Move>,
    tp: &mut T,
    callback: &mut C,
    depth: usize,
) -> (res: TraverseResult)
    requires
        old(game).wf(),
        old(callback).inv(),
        old(callback).expects(old(game)@, rev_move),
    ensures
        final(game).wf(),
        final(game)@ == old(game)@,
        final(callback).inv(),
        old(callback).visited() || old(callback).never_halts() || res != TraverseResult::Halted
            ==> final(callback).visited(),
        final(callback).origin() == old(callback).origin(),
        final(callback).never_halts() == old(callback).never_halts(),
        forall|v: SolitaireView| old(callback).knows(v) ==> #[trigger] final(callback).knows(v),
        final(callback).records() == old(callback).records(),
        old(callback).records() ==> told(
            old(callback).answers(),
            final(callback).answers(),
            old(game)@.is_win(),
            res,
        ),
    decreases N_PLY_MAX - depth,
{
    let ghost before = callback.answers();
    if game.is_win() {
        let res = callback.on_win(game, &rev_move);
        proof {
            assert(callback.records() ==> callback.answers().subrange(0, before.len() as int)
                =~= before);
        }
        return res;
    }
    let encode = game.encode();
    let answer = callback.on_visit(game, encode);
    let ghost first = before.push(answer);
    proof {
        assert(first.subrange(0, before.len() as int) =~= before);
        assert(first.subrange(0, first.len() as int) =~= first);
    }
    match after_visit(answer) {
        Some(v) => {
            return v;
        },
        None => {},
    }
    match after_insert(tp.insert(mix(encode)), depth) {
        Some(v) => {
            return v;
        },
        None => {},
    }
    let move_list = game.list_moves::<true>();
    callback.on_move_gen(&move_list, encode);
    let mut pos: usize = 0;
    while pos < move_list.len()
        invariant
            callback.records() == old(callback).records(),
            callback.records() ==> extends(first, callback.answers()),
            first == before.push(TraverseResult::Proceed),
            before == old(callback).answers(),
            !old(game)@.is_win(),
            pos <= move_list.len(),
            game.wf(),
            game@ == old(game)@,
            encode == game@.encoded(),
            depth < N_PLY_MAX,
            callback.inv(),
            callback.visited(),
            callback.origin() == old(callback).origin(),
            callback.never_halts() == old(callback).never_halts(),
            callback.knows(game@),
            forall|v: SolitaireView| old(callback).knows(v) ==> #[trigger] callback.knows(v),
            forall|m: Move| #[trigger] move_list@.contains(m) ==> game@.legal(m) && game@.can_do(m),
        decreases move_list.len() - pos,
    {
        let m = move_list[pos];
        assert(move_list@.contains(m));
        pos += 1;
        if same_move(&Some(m), &rev_move) {
            continue;
        }
        proof {
            game.lemma_wf();
        }
        let next_rev = game.get_rev_move(&m);
        callback.on_do_move(game, &m, encode, &next_rev);
        let ghost so_far = callback.answers();
        let undo = game.do_move(&m);
        let res = traverse(game, next_rev, tp, callback, depth + 1);
        game.undo_move(&m, &undo);
        callback.on_undo_move(&m, encode);
        proof {
            if callback.records() {
                lemma_extends(first, so_far, callback.answers());
            }
        }
        if after_child(res) {
            proof {
                if callback.records() {
                    lemma_went_on(before, callback.answers(), TraverseResult::Halted);
                }
            }
            return TraverseResult::Halted;
        }
    }
    proof {
        if callback.records() {
            lemma_went_on(before, callback.answers(), TraverseResult::Proceed);
        }
    }
    TraverseResult::Proceed
}

/// Walks over the states that can be reached from `game`, which is left as
/// it was given. Each state is gone on from once, and the reverse of the move
/// that led to a state is not tried there. The hooks are told of every state
/// before the walk comes to it, and are left with what they keep true of
/// themselves; unless the first hook halts the walk, they have been told of
/// a state. What the walk makes of the hooks' answers is said by
/// [`after_visit`], [`after_insert`] and [`after_child`].
pub fn traverse_game<T: TranspositionTable, C: TraverseCallback>(
    game: &mut Solitaire,
    tp: &mut T,
    callback: &mut C,
    rev_move: Option<Move>,
) -> (res: TraverseResult)
    requires
        old(game).wf(),
        old(callback).inv(),
        old(callback).expects(old(game)@, rev_move),
    ensures
        final(game).wf(),
        final(game)@ == old(game)@,
        final(callback).inv(),
        old(callback).visited() || old(callback).never_halts() || res != TraverseResult::Halted
            ==> final(callback).visited(),
        final(callback).origin() == old(callback).origin(),
        final(callback).never_halts() == old(callback).never_halts(),
        forall|v: SolitaireView| old(callback).knows(v) ==> #[trigger] final(callback).knows(v),
        final(callback).records() == old(callback).records(),
        old(callback).records() ==> told(
            old(callback).answers(),
            final(callback).answers(),
            old(game)@.is_win(),
            res,
        ),
{
    callback.on_start();
    let res = traverse(game, rev_move, tp, callback, 0);
    callback.on_finish(&res);
    res
}

/// A `hashbrown::HashSet` of keys, with a hasher that takes each key for its
/// own hash. The proofs see nothing inside it.
#[verifier::external_body]
pub struct TpTable {
    set: hashbrown::HashSet<u64, BuildNoHashHasher<u64>>,
}

/// The keys that the table holds.
pub uninterp spec fn table_keys(t: TpTable) -> Set<u64>;

/// `hashbrown::HashSet::default`: an empty set.
#[verifier::external_body]
fn table_new() -> (t: TpTable)
    ensures
        table_keys(t) == Set::<u64>::empty(),
{
    TpTable { set: Default::default() }
}

/// `hashbrown::HashSet::clear`: no key is left.
#[verifier::external_body]
fn table_clear(t: &mut TpTable)
    ensures
        table_keys(*final(t)) == Set::<u64>::empty(),
{
    t.set.clear()
}

/// `hashbrown::HashSet::insert`: the key is in the set afterwards; the result
/// tells whether it was new.
#[verifier::external_body]
fn table_insert(t: &mut TpTable, value: u64) -> (fresh: bool)
    ensures
        table_keys(*final(t)) == table_keys(*old(t)).insert(value),
        fresh == !table_keys(*old(t)).contains(value),
{
    t.set.insert(value)
}

impl TpTable {
    /// An empty table.
    pub fn new() -> (t: TpTable)
        ensures
            table_keys(t) == Set::<u64>::empty(),
    {
        table_new()
    }
}

impl TranspositionTable for TpTable {
    fn clear(&mut self)
        ensures
            table_keys(*final(self)) == Set::<u64>::empty(),
    {
        table_clear(self)
    }

    fn insert(&mut self, value: Encode) -> (fresh: bool)
        ensures
            table_keys(*final(self)) == table_keys(*old(self)).insert(value),
            fresh == !table_keys(*old(self)).contains(value),
    {
        table_insert(self, value)
    }
}

} // verus!
