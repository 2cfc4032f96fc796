//! The graph of the states that can be reached, as a list of edges.

use crate::engine::{Encode, MoveVec, Solitaire, SolitaireView};
use crate::moves::Move;
use crate::tracking::{DefaultSearchSignal, EmptySearchStats, SearchSignal, SearchStatistics};
use crate::traverse::{traverse_game, TpTable, TraverseCallback, TraverseResult};
use vstd::prelude::*;

verus! {

/// The kind of move that an edge stands for.
#[derive(Debug, Clone, Copy, PartialEq, Eq, Structural)]
pub enum EdgeType {
    DeckPile,
    DeckStack,
    PileStack,
    /// A card went from the tableau to the foundation, and a card was turned
    /// up.
    PileStackReveal,
    StackPile,
    Reveal,
}

/// From the key of one state to the key of the next.
pub type Edge = (Encode, Encode, EdgeType);

pub type Graph = Vec<Edge>;

/// The key that stands for every won state.
pub const WIN_KEY: Encode = 0xFFFF_FFFF_FFFF_FFFF;

/// The hooks that list the graph of a walk.
pub struct BuilderCallback<'a, S: SearchStatistics, T: SearchSignal> {
    graph: Graph,
    stats: &'a S,
    sign: &'a T,
    depth: usize,
    prev_enc: Encode,
    last_move: Move,
    rev_move: Option<Move>,
    /// The state that the walk begins at.
    origin: Ghost<SolitaireView>,
    /// The state in which the last move was made, if one was.
    prev: Ghost<Option<SolitaireView>>,
    /// The edge of the first state is listed.
    rooted: Ghost<bool>,
    /// The answers given to the walk.
    answers: Ghost<Seq<TraverseResult>>,
    /// The states that the walk came to and was not halted at.
    seen: Ghost<Set<SolitaireView>>,
}

/// What the hooks of a graph hold.
pub ghost struct BuilderView {
    /// The edges listed so far.
    pub graph: Seq<Edge>,
    /// How many moves led to the state that the walk is in.
    pub depth: usize,
    /// The key of the state in which the last move was made.
    pub prev_enc: Encode,
    pub last_move: Move,
    /// The reverse of the last move.
    pub rev_move: Option<Move>,
}

impl BuilderView {
    /// The edge that the hooks list for the state `v` that the walk has come
    /// to by a move whose reverse is `rm`.
    pub open spec fn edge_to(self, v: SolitaireView, rm: Option<Move>) -> Edge {
        (
            self.prev_enc,
            if v.is_win() {
                WIN_KEY
            } else {
                v.encoded()
            },
            spec_edge_type(self.last_move, rm),
        )
    }

    /// The same as `self`, with one edge more.
    pub open spec fn with_edge(self, e: Edge) -> BuilderView {
        BuilderView { graph: self.graph.push(e), ..self }
    }
}

pub open spec fn spec_edge_type(m: Move, rm: Option<Move>) -> EdgeType {
    match m {
        Move::DeckStack(_) => EdgeType::DeckStack,
        Move::PileStack(_) => if rm.is_some() {
            EdgeType::PileStack
        } else {
            EdgeType::PileStackReveal
        },
        Move::DeckPile(_) => EdgeType::DeckPile,
        Move::StackPile(_) => EdgeType::StackPile,
        Move::Reveal(_) => EdgeType::Reveal,
    }
}

/// The kind of edge of move `m`, whose reverse is `rm`: a card that went to
/// the foundation turned a card up if the move has no reverse.
pub fn get_edge_type(m: &Move, rm: &Option<Move>) -> (e: EdgeType)
    ensures
        e == spec_edge_type(*m, *rm),
{
    match m {
        Move::DeckStack(_) => EdgeType::DeckStack,
        Move::PileStack(_) => {
            if rm.is_some() {
                EdgeType::PileStack
            } else {
                EdgeType::PileStackReveal
            }
        },
        Move::DeckPile(_) => EdgeType::DeckPile,
        Move::StackPile(_) => EdgeType::StackPile,
        Move::Reveal(_) => EdgeType::Reveal,
    }
}

/// The edge that stands for the state `s` at which a walk begins: from its
/// key to its key, or to [`WIN_KEY`] if it is won.
pub open spec fn first_edge(s: SolitaireView) -> Edge {
    (
        s.encoded(),
        if s.is_win() {
            WIN_KEY
        } else {
            s.encoded()
        },
        EdgeType::DeckPile,
    )
}

/// The edge `e` stands for the legal move `m` in the state `s`: it leads from
/// the key of `s` to the key of the state after the move, or to [`WIN_KEY`]
/// if that state is won, and it has the kind of the move.
pub open spec fn joins(e: Edge, s: SolitaireView, m: Move) -> bool {
    &&& s.wf()
    &&& s.legal(m)
    &&& e.0 == s.encoded()
    &&& e.1 == (if s.after(m).is_win() {
        WIN_KEY
    } else {
        s.after(m).encoded()
    })
    &&& e.2 == spec_edge_type(m, s.rev_move(m))
}

/// Legal moves lead from the state `o` to the state `s`.
pub open spec fn reached(o: SolitaireView, s: SolitaireView) -> bool {
    exists|path: Seq<Move>| #[trigger] o.plays(path) && o.replay(path) == s
}

/// The edge `e` stands for a legal move in a state that legal moves lead to
/// from the state `o`.
pub open spec fn move_edge(e: Edge, o: SolitaireView) -> bool {
    exists|s: SolitaireView, m: Move| #[trigger] joins(e, s, m) && reached(o, s)
}

/// One more legal move after legal moves.
proof fn lemma_play_on(o: SolitaireView, path: Seq<Move>, m: Move)
    requires
        o.plays(path),
        o.replay(path).legal(m),
    ensures
        o.plays(path.push(m)),
        o.replay(path.push(m)) == o.replay(path).after(m),
    decreases path.len(),
{
    let all = path.push(m);
    if path.len() == 0 {
        assert(all.drop_first() =~= Seq::<Move>::empty());
        assert(all[0] == m);
        assert(o.after(m).plays(all.drop_first()));
        assert(o.after(m).replay(all.drop_first()) == o.after(m));
    } else {
        assert(all[0] == path[0]);
        assert(all.drop_first() =~= path.drop_first().push(m));
        lemma_play_on(o.after(path[0]), path.drop_first(), m);
    }
}

/// A legal move in a state that is reached leads to a state that is reached.
proof fn lemma_reach_on(o: SolitaireView, s: SolitaireView, m: Move)
    requires
        reached(o, s),
        s.legal(m),
    ensures
        reached(o, s.after(m)),
{
    let path = choose|path: Seq<Move>| #[trigger] o.plays(path) && o.replay(path) == s;
    lemma_play_on(o, path, m);
    assert(o.plays(path.push(m)) && o.replay(path.push(m)) == s.after(m));
}

/// A state is reached from itself.
proof fn lemma_reach_self(o: SolitaireView)
    ensures
        reached(o, o),
{
    let path = Seq::<Move>::empty();
    assert(o.plays(path) && o.replay(path) == o);
}

/// What holds of the graph of a walk from the state `s`: each edge is that of
/// `s` itself or stands for a legal move in a state that legal moves lead to
/// from `s`.
pub open spec fn graph_of(graph: Seq<Edge>, s: SolitaireView) -> bool {
    forall|k: int|
        0 <= k < graph.len() ==> (#[trigger] graph[k]) == first_edge(s) || move_edge(graph[k], s)
}

impl<'a, S: SearchStatistics, T: SearchSignal> View for BuilderCallback<'a, S, T> {
    type V = BuilderView;

    closed spec fn view(&self) -> BuilderView {
        BuilderView {
            graph: self.graph@,
            depth: self.depth,
            prev_enc: self.prev_enc,
            last_move: self.last_move,
            rev_move: self.rev_move,
        }
    }
}

impl<'a, S: SearchStatistics, T: SearchSignal> BuilderCallback<'a, S, T> {
    /// The signal that the hooks ask.
    pub closed spec fn signal(&self) -> &T {
        self.sign
    }

    proof fn lemma_edge(self, v: SolitaireView, r: Option<Move>)
        requires
            self.inv(),
            self.expects(v, r),
        ensures
            self@.edge_to(v, self.rev_move) == self@.edge_to(v, r),
            self@.edge_to(v, r) == first_edge(self.origin@) || move_edge(
                self@.edge_to(v, r),
                self.origin@,
            ),
            self.prev@.is_none() ==> self@.edge_to(v, r) == first_edge(self.origin@)
                && self.graph@.len() == 0,
            reached(self.origin@, v),
    {
        match self.prev@ {
            None => {
                lemma_reach_self(self.origin@);
            },
            Some(s) => {
                assert(joins(self@.edge_to(v, r), s, self.last_move) && reached(self.origin@, s));
                lemma_reach_on(self.origin@, s, self.last_move);
            },
        }
    }
}

impl<'a, S: SearchStatistics, T: SearchSignal> TraverseCallback for BuilderCallback<'a, S, T> {
    closed spec fn inv(&self) -> bool {
        &&& graph_of(self.graph@, self.origin@)
        &&& self.rooted@ ==> self.graph@.len() >= 1 && self.graph@[0] == first_edge(self.origin@)
        &&& forall|k: int|
            0 <= k < self.answers@.len() ==> #[trigger] self.answers@[k] != TraverseResult::Skip
        &&& self.sign.never_stops() ==> self.graph@.len() == self.answers@.len() && forall|k: int|
            0 <= k < self.answers@.len() ==> #[trigger] self.answers@[k] == TraverseResult::Proceed
        &&& match self.prev@ {
            None => self.prev_enc == self.origin@.encoded() && self.last_move == Move::fake()
                && self.rev_move.is_none(),
            Some(s) => s.wf() && s.legal(self.last_move) && self.prev_enc == s.encoded()
                && self.rev_move == s.rev_move(self.last_move) && self.visited() && reached(
                self.origin@,
                s,
            ),
        }
        &&& forall|v: SolitaireView| #[trigger] self.seen@.contains(v) ==> reached(self.origin@, v)
    }

    closed spec fn knows(&self, game: SolitaireView) -> bool {
        self.seen@.contains(game)
    }

    closed spec fn expects(&self, game: SolitaireView, rev_move: Option<Move>) -> bool {
        match self.prev@ {
            None => game == self.origin@ && self.graph@.len() == 0,
            Some(s) => game == s.after(self.last_move) && rev_move == self.rev_move,
        }
    }

    closed spec fn origin(&self) -> Option<SolitaireView> {
        Some(self.origin@)
    }

    closed spec fn visited(&self) -> bool {
        self.rooted@
    }

    closed spec fn never_halts(&self) -> bool {
        self.sign.never_stops()
    }

    closed spec fn records(&self) -> bool {
        true
    }

    closed spec fn answers(&self) -> Seq<TraverseResult> {
        self.answers@
    }

    /// Lists the edge to the won state, and lets the walk go on.
    fn on_win(&mut self, _game: &Solitaire, rm: &Option<Move>) -> (r: TraverseResult)
        ensures
            r == TraverseResult::Proceed,
            final(self)@ == old(self)@.with_edge(old(self)@.edge_to(_game@, *rm)),
    {
        proof {
            self.lemma_edge(_game@, *rm);
            if self.prev@.is_none() {
                self.rooted = Ghost(true);
            }
            self.answers = Ghost(self.answers@.push(TraverseResult::Proceed));
            self.seen = Ghost(self.seen@.insert(_game@));
        }
        self.graph.push((self.prev_enc, WIN_KEY, get_edge_type(&self.last_move, rm)));
        TraverseResult::Proceed
    }

    /// Halts the walk if the signal says so, and changes nothing then; else
    /// lists the edge to the state and lets the walk go on.
    fn on_visit(&mut self, _game: &Solitaire, e: Encode) -> (r: TraverseResult)
        ensures
            r != TraverseResult::Skip,
            old(self).signal().never_stops() ==> r == TraverseResult::Proceed,
            final(self)@ == (if r == TraverseResult::Proceed {
                old(self)@.with_edge(old(self)@.edge_to(_game@, old(self)@.rev_move))
            } else {
                old(self)@
            }),
    {
        if self.sign.is_terminated() {
            proof {
                self.answers = Ghost(self.answers@.push(TraverseResult::Halted));
            }
            return TraverseResult::Halted;
        }
        self.stats.hit_a_state(self.depth);
        proof {
            let r = choose|r: Option<Move>| #[trigger] self.expects(_game@, r);
            self.lemma_edge(_game@, r);
            if self.prev@.is_none() {
                self.rooted = Ghost(true);
            }
            self.answers = Ghost(self.answers@.push(TraverseResult::Proceed));
            self.seen = Ghost(self.seen@.insert(_game@));
        }
        self.graph.push((self.prev_enc, e, get_edge_type(&self.last_move, &self.rev_move)));
        TraverseResult::Proceed
    }

    /// Changes nothing in what the hooks hold.
    fn on_move_gen(&mut self, m: &MoveVec, _e: Encode)
        ensures
            final(self)@ == old(self)@,
    {
        self.stats.hit_unique_state(self.depth, m.len());
    }

    /// Keeps the move, its reverse and the key of the state that it is made
    /// in for the next edge, and counts the move.
    fn on_do_move(&mut self, _game: &Solitaire, m: &Move, e: Encode, rev: &Option<Move>)
        ensures
            final(self)@ == (BuilderView {
                graph: old(self)@.graph,
                depth: if old(self)@.depth < usize::MAX {
                    (old(self)@.depth + 1) as usize
                } else {
                    old(self)@.depth
                },
                prev_enc: e,
                last_move: *m,
                rev_move: *rev,
            }),
    {
        self.last_move = *m;
        self.rev_move = *rev;
        self.prev_enc = e;
        if self.depth < usize::MAX {
            self.depth += 1;
        }
        proof {
            _game.lemma_wf();
            self.prev = Ghost(Some(_game@));
        }
    }

    /// Counts one move less, where one was counted.
    fn on_undo_move(&mut self, _m: &Move, _e: Encode)
        ensures
            final(self)@ == (BuilderView {
                depth: if old(self)@.depth > 0 {
                    (old(self)@.depth - 1) as usize
                } else {
                    0
                },
                ..old(self)@
            }),
    {
        if self.depth > 0 {
            self.depth -= 1;
        }
        self.stats.finish_move(self.depth);
    }

    fn on_start(&mut self)
        ensures
            final(self)@ == old(self)@,
    {
    }

    /// Changes nothing in what the hooks hold.
    fn on_finish(&mut self, _res: &TraverseResult)
        ensures
            final(self)@ == old(self)@,
    {
        self.sign.search_finish();
    }
}

/// Walks over the states that can be reached from `g` and lists edges.
/// Unless the signal halts the walk at once, the first edge is that of `g`
/// itself. Each edge is that edge or stands for a legal move in a state that
/// legal moves lead to from `g`: it leads from the key of that state to the
/// key of the state after the move. Of a won state, under a signal that never stops, the graph is
/// that one edge. The walk is never said to be skipped. The state is left as
/// it was given.
pub fn graph_game_with_tracking<S: SearchStatistics, T: SearchSignal>(
    g: &mut Solitaire,
    stats: &S,
    sign: &T,
) -> (r: (TraverseResult, Graph))
    requires
        old(g).wf(),
    ensures
        final(g).wf(),
        final(g)@ == old(g)@,
        graph_of(r.1@, old(g)@),
        sign.never_stops() || r.0 != TraverseResult::Halted ==> r.1@.len() >= 1 && r.1@[0]
            == first_edge(old(g)@),
        r.0 != TraverseResult::Skip,
        sign.never_stops() && old(g)@.is_win() ==> r.0 == TraverseResult::Proceed && r.1@
            == seq![first_edge(old(g)@)],
{
    let mut tp = TpTable::new();
    let mut callback = BuilderCallback {
        graph: Vec::new(),
        stats,
        sign,
        depth: 0,
        prev_enc: g.encode(),
        last_move: Move::fake(),
        rev_move: None,
        origin: Ghost(g@),
        prev: Ghost(None),
        rooted: Ghost(false),
        answers: Ghost(Seq::empty()),
        seen: Ghost(Set::empty()),
    };
    let finished = traverse_game(g, &mut tp, &mut callback, None);
    proof {
        if sign.never_stops() && old(g)@.is_win() {
            assert(callback.graph@ =~= seq![first_edge(old(g)@)]);
        }
    }
    (finished, callback.graph)
}

/// [`graph_game_with_tracking`] without counts and without a way to stop:
/// the graph begins with the edge of `g` itself.
pub fn graph_game(g: &mut Solitaire) -> (r: (TraverseResult, Graph))
    requires
        old(g).wf(),
    ensures
        final(g).wf(),
        final(g)@ == old(g)@,
        graph_of(r.1@, old(g)@),
        r.1@.len() >= 1,
        r.1@[0] == first_edge(old(g)@),
        r.0 != TraverseResult::Skip,
        old(g)@.is_win() ==> r.0 == TraverseResult::Proceed && r.1@ == seq![first_edge(old(g)@)],
{
    graph_game_with_tracking(g, &EmptySearchStats {  }, &DefaultSearchSignal {  })
}

} // verus!
