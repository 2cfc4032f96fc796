//! The depth-first solver: it looks for a line of play that fills the
//! foundations, and returns it.

use crate::card::{card_mask, in_mask, lemma_in_mask_test, Card};
use crate::engine::{Solitaire, SolitaireView};
use crate::mixer::{mix, spec_mix};
use crate::movegen::{in_key_order, move_key};
use crate::moves::{same_move, Move};
use crate::pruning::{PruneInfo, PruneView};
pub use crate::tracking::{AtomicSearchStats, DefaultSearchSignal, EmptySearchStats, SearchSignal};
use arrayvec::ArrayVec;
use nohash_hasher::NoHashHasher;
use quick_cache::unsync::{Cache, DefaultLifecycle};
use quick_cache::UnitWeighter;
use vstd::prelude::*;

verus! {

/// A sink for the counts of a search for a line of play. Nothing that it does
/// changes what the search finds.
pub trait SearchStatistics {
    /// The search has come to a state at `depth`.
    fn hit_a_state(&self, depth: usize);

    /// The state at `depth` has not been seen before, and offers `n_moves` moves.
    fn hit_unique_state(&self, depth: usize, n_moves: usize);

    /// The search is done with the move at place `move_pos` in the list of
    /// the state at `depth`.
    fn finish_move(&self, depth: usize, move_pos: usize);

    fn total_visit(&self) -> usize;

    fn unique_visit(&self) -> usize;

    fn max_depth(&self) -> usize;
}

impl SearchStatistics for EmptySearchStats {
    fn total_visit(&self) -> (n: usize)
        ensures
            n == 0,
    {
        0
    }

    fn unique_visit(&self) -> (n: usize)
        ensures
            n == 0,
    {
        0
    }

    fn max_depth(&self) -> (n: usize)
        ensures
            n == 0,
    {
        0
    }

    fn hit_a_state(&self, _depth: usize) {
    }

    fn hit_unique_state(&self, _depth: usize, _n_moves: usize) {
    }

    fn finish_move(&self, _depth: usize, _move_pos: usize) {
    }
}

/// Number of states that the transposition cache of a search holds at most.
pub const TP_SIZE: usize = 256 * 1024 * 1024;

/// Number of moves that a line of play holds at most.
pub const N_PLY_MAX: usize = 1024;

/// `arrayvec::ArrayVec`: a vector with room for `CAP` elements. The proofs see
/// nothing inside it.
#[verifier::external_type_specification]
#[verifier::external_body]
#[verifier::reject_recursive_types(T)]
pub struct ExArrayVec<T, const CAP: usize>(ArrayVec<T, CAP>);

/// `quick_cache::unsync::Cache`: a cache that drops items when it is full. The
/// proofs see nothing inside it.
#[verifier::external_type_specification]
#[verifier::external_body]
#[verifier::reject_recursive_types(Key)]
#[verifier::reject_recursive_types(Val)]
#[verifier::reject_recursive_types(We)]
#[verifier::reject_recursive_types(B)]
#[verifier::reject_recursive_types(L)]
pub struct ExCache<Key, Val, We, B, L>(Cache<Key, Val, We, B, L>);

/// `quick_cache::UnitWeighter`: every item of a cache weighs one.
#[verifier::external_type_specification]
#[verifier::external_body]
pub struct ExUnitWeighter(UnitWeighter);

/// `quick_cache::unsync::DefaultLifecycle`: nothing is done with an item that a
/// cache drops.
#[verifier::external_type_specification]
#[verifier::external_body]
#[verifier::reject_recursive_types(Key)]
#[verifier::reject_recursive_types(Val)]
pub struct ExDefaultLifecycle<Key, Val>(DefaultLifecycle<Key, Val>);

/// `nohash_hasher::NoHashHasher`: a hasher that takes an integer for its own
/// hash.
#[verifier::external_type_specification]
#[verifier::external_body]
#[verifier::reject_recursive_types(T)]
pub struct ExNoHashHasher<T>(NoHashHasher<T>);

/// `core::hash::BuildHasherDefault`: makes hashers by `Default`.
#[verifier::external_type_specification]
#[verifier::external_body]
#[verifier::reject_recursive_types(H)]
pub struct ExBuildHasherDefault<H>(core::hash::BuildHasherDefault<H>);

/// The moves of a line of play, first move first.
pub type HistoryVec = ArrayVec<Move, 1024>;

/// The cache of the keys of states that a search has been to.
pub type TpCache = Cache<
    u64,
    (),
    UnitWeighter,
    core::hash::BuildHasherDefault<NoHashHasher<u64>>,
    DefaultLifecycle<u64, ()>,
>;

/// The moves that a line of play holds.
pub uninterp spec fn history_moves(h: ArrayVec<Move, 1024>) -> Seq<Move>;

/// The keys that a transposition cache holds.
pub uninterp spec fn cache_keys(
    c: Cache<
        u64,
        (),
        UnitWeighter,
        core::hash::BuildHasherDefault<NoHashHasher<u64>>,
        DefaultLifecycle<u64, ()>,
    >,
) -> Set<u64>;

/// `ArrayVec::new`: a vector without elements.
#[verifier::external_body]
fn history_new() -> (h: HistoryVec)
    ensures
        history_moves(h) == Seq::<Move>::empty(),
{
    ArrayVec::new()
}

/// `ArrayVec::len`: the number of elements.
#[verifier::external_body]
fn history_len(h: &HistoryVec) -> (n: usize)
    ensures
        n == history_moves(*h).len(),
        n <= N_PLY_MAX,
{
    h.len()
}

/// `ArrayVec::push`: appends the element; it panics on a full vector, which
/// `requires` leaves out.
#[verifier::external_body]
fn history_push(h: &mut HistoryVec, m: Move)
    requires
        history_moves(*old(h)).len() < N_PLY_MAX,
    ensures
        history_moves(*final(h)) == history_moves(*old(h)).push(m),
{
    h.push(m)
}

/// `ArrayVec::pop`: takes off the last element, if there is one.
#[verifier::external_body]
fn history_pop(h: &mut HistoryVec) -> (r: Option<Move>)
    ensures
        match r {
            Some(m) => history_moves(*old(h)).len() > 0 && m == history_moves(*old(h)).last()
                && history_moves(*final(h)) == history_moves(*old(h)).drop_last(),
            None => history_moves(*old(h)).len() == 0 && history_moves(*final(h)) == history_moves(
                *old(h),
            ),
        },
{
    h.pop()
}

/// `ArrayVec::as_slice`: the elements of the vector, first to last.
#[verifier::external_body]
fn history_slice(h: &HistoryVec) -> (s: &[Move])
    ensures
        s@ == history_moves(*h),
{
    h.as_slice()
}

/// The moves of a line of play, first move first.
pub fn moves_of(h: &HistoryVec) -> (s: &[Move])
    ensures
        s@ == history_moves(*h),
        s@.len() <= N_PLY_MAX,
{
    let _ = history_len(h);
    history_slice(h)
}

/// `Cache::with`: an empty cache for about `size` items of weight one.
#[verifier::external_body]
fn cache_new(size: usize) -> (c: TpCache)
    ensures
        cache_keys(c) == Set::<u64>::empty(),
{
    Cache::with(size, size as u64, Default::default(), Default::default(), Default::default())
}

/// `Cache::get`: whether the cache holds the key.
#[verifier::external_body]
fn cache_has(c: &TpCache, key: u64) -> (b: bool)
    ensures
        b == cache_keys(*c).contains(key),
{
    c.get(&key).is_some()
}

/// `Cache::insert`: the cache may take the key in, and may drop keys to make
/// room; it takes in no other key.
#[verifier::external_body]
fn cache_insert(c: &mut TpCache, key: u64)
    ensures
        cache_keys(*final(c)).subset_of(cache_keys(*old(c)).insert(key)),
{
    c.insert(key, ())
}

/// How a search ended.
#[derive(Debug, Clone, Copy, PartialEq, Eq, Structural)]
pub enum SearchResult {
    /// The signal stopped the search.
    Terminated,
    /// A line of play that wins was found.
    Solved,
    /// No line of play was found.
    Unsolvable,
    /// The line of play grew longer than [`N_PLY_MAX`] moves.
    Crashed,
}

impl SolitaireView {
    /// The state after the moves `moves`, made one after the other.
    pub open spec fn replay(self, moves: Seq<Move>) -> SolitaireView
        decreases moves.len(),
    {
        if moves.len() == 0 {
            self
        } else {
            self.after(moves[0]).replay(moves.drop_first())
        }
    }

    /// Each of the moves `moves` is legal in the state that those before it
    /// lead to.
    pub open spec fn plays(self, moves: Seq<Move>) -> bool
        decreases moves.len(),
    {
        moves.len() == 0 || (self.legal(moves[0]) && self.after(moves[0]).plays(
            moves.drop_first(),
        ))
    }

    /// Each of the moves `moves` is offered with dominance in the state that
    /// those before it lead to, and none takes back the move before it; the
    /// first does not take back a move whose reverse is `rev`.
    pub open spec fn searched(self, rev: Option<Move>, moves: Seq<Move>) -> bool
        decreases moves.len(),
    {
        moves.len() == 0 || (self.offered(true, moves[0]) && Some(moves[0]) != rev && self.after(
            moves[0],
        ).searched(self.rev_move(moves[0]), moves.drop_first()))
    }

    /// The moves `moves` are legal one after the other, and fill the
    /// foundations.
    pub open spec fn wins_by(self, moves: Seq<Move>) -> bool {
        self.plays(moves) && self.replay(moves).is_win()
    }
}

impl SolitaireView {
    /// The generator offers no move with dominance.
    pub open spec fn stuck(self) -> bool {
        forall|m: Move| !#[trigger] self.offered(true, m)
    }
}

impl SolitaireView {
    /// The search tries move `m` in this state: the generator offers it with
    /// dominance, it does not take back the last move, and with `pruned` the
    /// pruner lets it through.
    pub open spec fn tried(self, prune: PruneView, pruned: bool, m: Move) -> bool {
        &&& self.offered(true, m)
        &&& Some(m) != prune.rev_move
        &&& pruned ==> !prune.filters(self.hidden.first_layer, m.spec_kind() as int, m.spec_card())
            && prune.emits(m)
    }

    /// Move `m` is the first that the search tries: it tries no move that
    /// stands before it in the list of the moves.
    pub open spec fn tried_first(self, prune: PruneView, pruned: bool, m: Move) -> bool {
        &&& self.tried(prune, pruned, m)
        &&& forall|x: Move| #[trigger] self.tried(prune, pruned, x) ==> move_key(m) <= move_key(x)
    }

    /// The first move that the search tries leads to a won state.
    pub open spec fn wins_next(self, prune: PruneView, pruned: bool) -> bool {
        exists|m: Move| #[trigger] self.tried_first(prune, pruned, m) && self.after(m).is_win()
    }
}

/// The pruner at the first state of a search: nothing is remembered.
pub open spec fn fresh_prune() -> PruneView {
    PruneView { rev_move: None, last_move: Move::spec_fake(), last_draw: None }
}

/// What a search that is not stopped finds at a state without trying a move,
/// if it does: a won state is solved; a state whose key the cache holds is
/// given up; a state at the end of the room for the line of play crashes the
/// search; a state that offers no move is given up.
pub open spec fn quick_verdict(won: bool, seen: bool, full: bool, stuck: bool) -> Option<
    SearchResult,
> {
    if won {
        Some(SearchResult::Solved)
    } else if seen {
        Some(SearchResult::Unsolvable)
    } else if full {
        Some(SearchResult::Crashed)
    } else if stuck {
        Some(SearchResult::Unsolvable)
    } else {
        None
    }
}

/// What a search does when it comes to a state, given whether the signal
/// tells it to stop and whether the state is won: it stops, it has solved the
/// game, or it goes on.
pub fn entry_verdict(terminated: bool, won: bool) -> (r: Option<SearchResult>)
    ensures
        r == (if terminated {
            Some(SearchResult::Terminated)
        } else if won {
            Some(SearchResult::Solved)
        } else {
            None::<SearchResult>
        }),
{
    if terminated {
        Some(SearchResult::Terminated)
    } else if won {
        Some(SearchResult::Solved)
    } else {
        None
    }
}

/// What a search does with a state that is not won, given whether the cache
/// holds its key and how many moves led to it: it gives the state up, it
/// crashes for want of room, or it tries the moves.
pub fn expand_verdict(seen: bool, depth: usize) -> (r: Option<SearchResult>)
    ensures
        r == quick_verdict(false, seen, depth >= N_PLY_MAX, false),
{
    if seen {
        Some(SearchResult::Unsolvable)
    } else if depth >= N_PLY_MAX {
        Some(SearchResult::Crashed)
    } else {
        None
    }
}

/// What a search does with what it found below a move: it goes on to the next
/// move if the move led nowhere, and else it ends with that result.
pub fn child_verdict(res: SearchResult) -> (r: Option<SearchResult>)
    ensures
        r == (if res == SearchResult::Unsolvable {
            None::<SearchResult>
        } else {
            Some(res)
        }),
{
    match res {
        SearchResult::Unsolvable => None,
        _ => Some(res),
    }
}

/// The search below one state. `history` holds the moves that led to it, and
/// on [`SearchResult::Solved`] also those that lead on to the win. The state
/// is left as it was found. With `pruned`, the moves that `prune` filters out
/// are not tried.
fn solve<S: SearchStatistics, T: SearchSignal>(
    g: &mut Solitaire,
    prune: &PruneInfo,
    pruned: bool,
    tp: &mut TpCache,
    history: &mut HistoryVec,
    stats: &S,
    sign: &T,
) -> (res: SearchResult)
    requires
        old(g).wf(),
        prune@.wf(),
    ensures
        final(g).wf(),
        final(g)@ == old(g)@,
        res == SearchResult::Solved ==> exists|path: Seq<Move>|
            history_moves(*final(history)) == history_moves(*old(history)) + path && old(
                g,
            )@.wins_by(path) && old(g)@.searched(prune@.rev_move, path),
        res != SearchResult::Solved ==> history_moves(*final(history)) == history_moves(
            *old(history),
        ),
        sign.never_stops() ==> res != SearchResult::Terminated,
        res != SearchResult::Terminated ==> (match quick_verdict(
            old(g)@.is_win(),
            cache_keys(*old(tp)).contains(spec_mix(old(g)@.encoded())),
            history_moves(*old(history)).len() >= N_PLY_MAX,
            old(g)@.stuck(),
        ) {
            Some(v) => res == v,
            None => true,
        }),
        old(g)@.is_win() && res == SearchResult::Solved ==> history_moves(*final(history))
            == history_moves(*old(history)),
        sign.never_stops() && !old(g)@.is_win() && !cache_keys(*old(tp)).contains(
            spec_mix(old(g)@.encoded()),
        ) && history_moves(*old(history)).len() < N_PLY_MAX && old(g)@.wins_next(prune@, pruned)
            ==> res == SearchResult::Solved,
    decreases N_PLY_MAX - history_moves(*old(history)).len(),
{
    let terminated = sign.is_terminated();
    let depth = history_len(history);
    if !terminated {
        stats.hit_a_state(depth);
    }
    match entry_verdict(terminated, !terminated && g.is_win()) {
        Some(v) => {
            proof {
                let path = Seq::<Move>::empty();
                assert(history_moves(*history) =~= history_moves(*old(history)) + path);
                if v == SearchResult::Solved {
                    assert(g@.wins_by(path));
                    assert(g@.searched(prune@.rev_move, path));
                }
            }
            return v;
        },
        None => {},
    }
    let encode = mix(g.encode());
    let seen = cache_has(tp, encode);
    if !seen {
        cache_insert(tp, encode);
    }
    match expand_verdict(seen, depth) {
        Some(v) => {
            return v;
        },
        None => {},
    }
    let move_list = g.list_moves::<true>();
    proof {
        if g@.stuck() && move_list@.len() > 0 {
            assert(move_list@.contains(move_list@[0]));
        }
    }
    let filter = prune.prune_moves(g);
    let rev_move = prune.rev_move();
    stats.hit_unique_state(depth, move_list.len());
    let mut pos: usize = 0;
    while pos < move_list.len()
        invariant
            pos <= move_list.len(),
            g.wf(),
            g@ == old(g)@,
            prune@.wf(),
            !g@.is_win(),
            g@.stuck() ==> move_list@.len() == 0,
            !cache_keys(*old(tp)).contains(spec_mix(g@.encoded())),
            depth < N_PLY_MAX,
            depth == history_moves(*old(history)).len(),
            history_moves(*history) == history_moves(*old(history)),
            forall|m: Move|
                #[trigger] move_list@.contains(m) ==> g@.legal(m) && g@.can_do(m) && m.spec_card().0
                    < 52,
            forall|m: Move| #[trigger] move_list@.contains(m) <==> g@.offered(true, m),
            in_key_order(move_list@),
            rev_move == prune@.rev_move,
            forall|k: int, c: Card|
                0 <= k < 5 && c.0 < 64 ==> (#[trigger] in_mask(filter@[k], c) <==> prune@.filters(
                    g@.hidden.first_layer,
                    k,
                    c,
                )),
            sign.never_stops() && g@.wins_next(prune@, pruned) ==> forall|j: int|
                0 <= j < pos ==> !g@.tried(prune@, pruned, #[trigger] move_list@[j]),
        decreases move_list.len() - pos,
    {
        let m = move_list[pos];
        assert(move_list@.contains(m));
        pos += 1;
        if same_move(&Some(m), &rev_move) {
            continue;
        }
        proof {
            lemma_in_mask_test(filter@[m.spec_kind() as int], m.spec_card());
        }
        if pruned && (filter[m.kind()] & card_mask(&m.card()) != 0 || !prune.emits(&m)) {
            continue;
        }
        assert(g@.tried(prune@, pruned, m));
        proof {
            if sign.never_stops() && g@.wins_next(prune@, pruned) {
                let w = choose|w: Move| #[trigger]
                    g@.tried_first(prune@, pruned, w) && g@.after(w).is_win();
                assert(move_list@.contains(w));
                let j = choose|j: int| 0 <= j < move_list@.len() && move_list@[j] == w;
                if j < pos - 1 {
                    assert(!g@.tried(prune@, pruned, move_list@[j]));
                }
                if j > pos - 1 {
                    assert(move_key(move_list@[pos - 1]) < move_key(move_list@[j]));
                }
                assert(w == m);
            }
        }
        let next = PruneInfo::new(g, prune, &m);
        let ghost here = g@;
        let ghost before = history_moves(*history);
        let undo = g.do_move(&m);
        history_push(history, m);
        let res = solve(g, &next, pruned, tp, history, stats, sign);
        g.undo_move(&m, &undo);
        match child_verdict(res) {
            Some(SearchResult::Solved) => {
                proof {
                    let tail = choose|tail: Seq<Move>|
                        history_moves(*history) == before.push(m) + tail && here.after(m).wins_by(
                            tail,
                        ) && here.after(m).searched(next@.rev_move, tail);
                    let path = seq![m] + tail;
                    assert(path.drop_first() =~= tail);
                    assert(history_moves(*history) =~= before + path);
                    assert(here.wins_by(path));
                    assert(here.offered(true, m));
                    assert(here.searched(prune@.rev_move, path));
                }
                return res;
            },
            Some(v) => {
                let _ = history_pop(history);
                proof {
                    assert(before.push(m).drop_last() =~= before);
                }
                return v;
            },
            None => {
                let _ = history_pop(history);
                proof {
                    assert(before.push(m).drop_last() =~= before);
                }
                stats.finish_move(depth, (pos - 1) as usize);
            },
        }
    }
    proof {
        if sign.never_stops() && g@.wins_next(prune@, pruned) {
            let m = choose|m: Move| #[trigger]
                g@.tried_first(prune@, pruned, m) && g@.after(m).is_win();
            assert(move_list@.contains(m));
            let j = choose|j: int| 0 <= j < move_list@.len() && move_list@[j] == m;
            assert(!g@.tried(prune@, pruned, move_list@[j]));
        }
    }
    SearchResult::Unsolvable
}

/// Searches for a line of play from the state `g` that fills the foundations;
/// with `pruned`, without the moves that [`PruneInfo`] filters out on each
/// branch. On [`SearchResult::Solved`] the line is returned: its moves are
/// legal one after the other and end in a won state; each is offered with
/// dominance where it is made, none takes back the move before it, and there
/// are at most [`N_PLY_MAX`] of them. A state that is won is
/// solved by the empty line, and a state that offers no move is unsolvable,
/// unless the signal stops the search; a signal that never stops a search
/// never gives [`SearchResult::Terminated`], and under it a state is solved
/// if the first move that is tried in it leads to a won state. The state is
/// left as it was given.
pub fn solve_with<S: SearchStatistics, T: SearchSignal>(
    g: &mut Solitaire,
    stats: &S,
    sign: &T,
    pruned: bool,
) -> (r: (SearchResult, Option<HistoryVec>))
    requires
        old(g).wf(),
    ensures
        final(g).wf(),
        final(g)@ == old(g)@,
        match r.1 {
            Some(h) => r.0 == SearchResult::Solved && old(g)@.wins_by(history_moves(h)) && old(
                g,
            )@.searched(None, history_moves(h)) && (old(g)@.is_win() ==> history_moves(h).len() == 0)
                && history_moves(h).len() <= N_PLY_MAX,
            None => r.0 != SearchResult::Solved,
        },
        sign.never_stops() ==> r.0 != SearchResult::Terminated,
        r.0 != SearchResult::Terminated ==> (match quick_verdict(
            old(g)@.is_win(),
            false,
            false,
            old(g)@.stuck(),
        ) {
            Some(v) => r.0 == v,
            None => true,
        }),
        sign.never_stops() && !old(g)@.is_win() && old(g)@.wins_next(fresh_prune(), pruned) ==> r.0
            == SearchResult::Solved,
{
    let mut tp = cache_new(TP_SIZE);
    let mut history = history_new();
    let start = PruneInfo::default();
    assert(start@ == fresh_prune());
    let res = solve(g, &start, pruned, &mut tp, &mut history, stats, sign);
    sign.search_finish();
    match res {
        SearchResult::Solved => {
            proof {
                let path = choose|path: Seq<Move>|
                    history_moves(history) == Seq::<Move>::empty() + path && old(g)@.wins_by(path)
                        && old(g)@.searched(start@.rev_move, path);
                assert(history_moves(history) =~= path);
            }
            let _ = history_len(&history);
            (res, Some(history))
        },
        _ => (res, None),
    }
}

/// [`solve_with`] with the pruner: what it finds, and what it says of a won
/// state and of a state without moves, are the same.
pub fn solve_game<S: SearchStatistics, T: SearchSignal>(g: &mut Solitaire, stats: &S, sign: &T) -> (r:
    (SearchResult, Option<HistoryVec>))
    requires
        old(g).wf(),
    ensures
        final(g).wf(),
        final(g)@ == old(g)@,
        match r.1 {
            Some(h) => r.0 == SearchResult::Solved && old(g)@.wins_by(history_moves(h)) && old(
                g,
            )@.searched(None, history_moves(h)) && (old(g)@.is_win() ==> history_moves(h).len() == 0)
                && history_moves(h).len() <= N_PLY_MAX,
            None => r.0 != SearchResult::Solved,
        },
        sign.never_stops() ==> r.0 != SearchResult::Terminated,
        r.0 != SearchResult::Terminated ==> (match quick_verdict(
            old(g)@.is_win(),
            false,
            false,
            old(g)@.stuck(),
        ) {
            Some(v) => r.0 == v,
            None => true,
        }),
        sign.never_stops() && !old(g)@.is_win() && old(g)@.wins_next(fresh_prune(), true) ==> r.0
            == SearchResult::Solved,
{
    solve_with(g, stats, sign, true)
}

} // verus!
