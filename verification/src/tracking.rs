//! What a search reports while it runs, and how it is told to stop.

use core::sync::atomic::{AtomicU8, AtomicUsize, Ordering};
use vstd::prelude::*;

verus! {

/// Depths up to which the progress of a search is tracked.
pub const TRACK_DEPTH: usize = 8;

/// A sink for the counts of a search. Nothing that it does changes what the
/// search finds.
pub trait SearchStatistics {
    /// The search has come to a state at `depth`.
    fn hit_a_state(&self, depth: usize);

    /// The state at `depth` has not been seen before, and offers `n_moves` moves.
    fn hit_unique_state(&self, depth: usize, n_moves: usize);

    /// The search is done with one more move of the state at `depth`.
    fn finish_move(&self, depth: usize);

    fn total_visit(&self) -> usize;

    fn unique_visit(&self) -> usize;

    fn max_depth(&self) -> usize;
}

/// Counts nothing.
pub struct EmptySearchStats;

impl SearchStatistics for EmptySearchStats {
    fn total_visit(&self) -> (n: usize)
        ensures
            n == 0,
    {
        0
    }

    fn unique_visit(&self) -> (n: usize)
        ensures
            n == 0,
    {
        0
    }

    fn max_depth(&self) -> (n: usize)
        ensures
            n == 0,
    {
        0
    }

    fn hit_a_state(&self, _depth: usize) {
    }

    fn hit_unique_state(&self, _depth: usize, _n_moves: usize) {
    }

    fn finish_move(&self, _depth: usize) {
    }
}

/// Counts that another thread may read while the search runs.
pub struct AtomicSearchStats {
    total_visit: AtomicUsize,
    unique_visit: AtomicUsize,
    max_depth: AtomicUsize,
    move_state: [(AtomicU8, AtomicU8); 8],
}

/// The low eight bits of `n`.
fn low_byte(n: usize) -> (b: u8)
    ensures
        b == n % 256,
{
    (n % 256) as u8
}

impl AtomicSearchStats {
    pub fn new() -> AtomicSearchStats {
        AtomicSearchStats {
            total_visit: AtomicUsize::new(0),
            unique_visit: AtomicUsize::new(0),
            max_depth: AtomicUsize::new(0),
            move_state: [
                (AtomicU8::new(0), AtomicU8::new(0)),
                (AtomicU8::new(0), AtomicU8::new(0)),
                (AtomicU8::new(0), AtomicU8::new(0)),
                (AtomicU8::new(0), AtomicU8::new(0)),
                (AtomicU8::new(0), AtomicU8::new(0)),
                (AtomicU8::new(0), AtomicU8::new(0)),
                (AtomicU8::new(0), AtomicU8::new(0)),
                (AtomicU8::new(0), AtomicU8::new(0)),
            ],
        }
    }

    /// At `depth`, how many moves of the state there are done with, and how
    /// many it offers; zeros from [`TRACK_DEPTH`] on.
    pub fn progress(&self, depth: usize) -> (p: (u8, u8))
        ensures
            depth >= TRACK_DEPTH ==> p == (0u8, 0u8),
    {
        if depth < TRACK_DEPTH {
            let cur = self.move_state[depth].0.load(Ordering::Relaxed);
            let total = self.move_state[depth].1.load(Ordering::Relaxed);
            (cur, total)
        } else {
            (0, 0)
        }
    }
}

impl SearchStatistics for AtomicSearchStats {
    fn total_visit(&self) -> usize {
        self.total_visit.load(Ordering::Relaxed)
    }

    fn unique_visit(&self) -> usize {
        self.unique_visit.load(Ordering::Relaxed)
    }

    fn max_depth(&self) -> usize {
        self.max_depth.load(Ordering::Relaxed)
    }

    fn hit_a_state(&self, depth: usize) {
        self.max_depth.fetch_max(depth, Ordering::Relaxed);
        self.total_visit.fetch_add(1, Ordering::Relaxed);
    }

    fn hit_unique_state(&self, depth: usize, n_moves: usize) {
        self.unique_visit.fetch_add(1, Ordering::Relaxed);
        if depth < TRACK_DEPTH {
            self.move_state[depth].0.store(0, Ordering::Relaxed);
            self.move_state[depth].1.store(low_byte(n_moves), Ordering::Relaxed);
        }
    }

    fn finish_move(&self, depth: usize) {
        if depth < TRACK_DEPTH {
            self.move_state[depth].0.fetch_add(1, Ordering::Relaxed);
        }
    }
}

/// The counts of a search for a line of play: the progress at a depth tells
/// the place of the move that was done with last.
impl crate::solver::SearchStatistics for AtomicSearchStats {
    fn total_visit(&self) -> usize {
        self.total_visit.load(Ordering::Relaxed)
    }

    fn unique_visit(&self) -> usize {
        self.unique_visit.load(Ordering::Relaxed)
    }

    fn max_depth(&self) -> usize {
        self.max_depth.load(Ordering::Relaxed)
    }

    fn hit_a_state(&self, depth: usize) {
        self.max_depth.fetch_max(depth, Ordering::Relaxed);
        self.total_visit.fetch_add(1, Ordering::Relaxed);
    }

    fn hit_unique_state(&self, depth: usize, n_moves: usize) {
        self.unique_visit.fetch_add(1, Ordering::Relaxed);
        if depth < TRACK_DEPTH {
            self.move_state[depth].0.store(0, Ordering::Relaxed);
            self.move_state[depth].1.store(low_byte(n_moves), Ordering::Relaxed);
        }
    }

    fn finish_move(&self, depth: usize, move_pos: usize) {
        if depth < TRACK_DEPTH {
            self.move_state[depth].0.store(low_byte(move_pos), Ordering::Relaxed);
        }
    }
}

/// How a search is told to stop, and how it tells that it is over.
pub trait SearchSignal {
    /// The signal never tells a search to stop. A signal that may do so, now or
    /// later, says `false` here.
    open spec fn never_stops(&self) -> bool {
        false
    }

    fn terminate(&self);

    /// Whether the search is to stop now.
    fn is_terminated(&self) -> (b: bool)
        ensures
            self.never_stops() ==> !b,
    ;

    fn search_finish(&self);
}

/// Never stops a search.
pub struct DefaultSearchSignal;

impl SearchSignal for DefaultSearchSignal {
    open spec fn never_stops(&self) -> bool {
        true
    }

    fn terminate(&self) {
    }

    fn is_terminated(&self) -> (b: bool)
        ensures
            !b,
    {
        false
    }

    fn search_finish(&self) {
    }
}

} // verus!
