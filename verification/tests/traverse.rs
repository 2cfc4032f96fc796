use lonelybot::card::Card;
use lonelybot::engine::{Encode, MoveVec, Solitaire};
use lonelybot::graph::{get_edge_type, graph_game, graph_game_with_tracking, EdgeType, WIN_KEY};
use lonelybot::mixer::{fast_hash, mix, murmur64, rrmxmx};
use lonelybot::moves::Move;
use lonelybot::tracking::{AtomicSearchStats, DefaultSearchSignal, SearchStatistics};
use lonelybot::solver::{solve_game, SearchResult, N_PLY_MAX};
use lonelybot::tracking::EmptySearchStats;
use lonelybot::traverse::{
    after_child, after_insert, after_visit, traverse_game, TpTable, TranspositionTable,
    TraverseCallback, TraverseResult,
};
use rand::rngs::StdRng;
use rand::seq::SliceRandom;
use rand::SeedableRng;

fn deal(seed: u64) -> [Card; 52] {
    let mut cards = [Card::from_value(0); 52];
    for (i, c) in cards.iter_mut().enumerate() {
        *c = Card::from_value(i as u8);
    }
    let mut rng = StdRng::seed_from_u64(seed);
    cards.shuffle(&mut rng);
    cards
}

#[test]
fn the_table_tells_what_is_new() {
    let mut tp = TpTable::new();
    assert!(tp.insert(5));
    assert!(!tp.insert(5));
    assert!(tp.insert(6));
    tp.clear();
    assert!(tp.insert(5));
}

#[test]
fn the_mixer_is_the_one_of_the_constants() {
    assert_eq!(mix(0), 0);
    let h: u64 = 0x0123_4567_89ab_cdef;
    let mut x = h;
    x ^= x >> 31;
    x = x.wrapping_mul(0x7fb5d329728ea185);
    x ^= x >> 27;
    x = x.wrapping_mul(0x81dadef4bc2dd44d);
    x ^= x >> 33;
    assert_eq!(mix(h), x);
    assert_ne!(mix(1), mix(2));
    let mut y = h;
    y ^= y >> 33;
    y = y.wrapping_mul(0xff51afd7ed558ccd);
    y ^= y >> 33;
    y = y.wrapping_mul(0xc4ceb9fe1a85ec53);
    y ^= y >> 33;
    assert_eq!(murmur64(h), y);
    let mut z = h;
    z ^= z >> 23;
    z = z.wrapping_mul(0x2127599bf4325c37);
    z ^= z >> 47;
    assert_eq!(fast_hash(h), z);
    let mut v = h;
    v ^= v.rotate_right(49) ^ v.rotate_right(24);
    v = v.wrapping_mul(0x9fb21c651e98df25);
    v ^= v >> 28;
    v = v.wrapping_mul(0x9fb21c651e98df25);
    assert_eq!(rrmxmx(h), v ^ (v >> 28));
}

#[test]
fn edge_types() {
    let c = Card::new(3, 1);
    assert_eq!(get_edge_type(&Move::DeckStack(c), &None), EdgeType::DeckStack);
    assert_eq!(get_edge_type(&Move::DeckPile(c), &None), EdgeType::DeckPile);
    assert_eq!(get_edge_type(&Move::StackPile(c), &Some(Move::PileStack(c))), EdgeType::StackPile);
    assert_eq!(get_edge_type(&Move::Reveal(c), &None), EdgeType::Reveal);
    assert_eq!(get_edge_type(&Move::PileStack(c), &Some(Move::StackPile(c))), EdgeType::PileStack);
    assert_eq!(get_edge_type(&Move::PileStack(c), &None), EdgeType::PileStackReveal);
}

struct Counter {
    visits: usize,
    wins: usize,
    moves: usize,
    undone: usize,
    started: bool,
    finished: Option<TraverseResult>,
    limit: usize,
}

impl TraverseCallback for Counter {
    fn on_win(&mut self, game: &Solitaire, _: &Option<Move>) -> TraverseResult {
        assert!(game.is_win());
        self.wins += 1;
        TraverseResult::Proceed
    }
    fn on_visit(&mut self, game: &Solitaire, encode: Encode) -> TraverseResult {
        assert_eq!(game.encode(), encode);
        self.visits += 1;
        if self.visits > self.limit {
            TraverseResult::Halted
        } else {
            TraverseResult::Proceed
        }
    }
    fn on_move_gen(&mut self, _: &MoveVec, _: Encode) {}
    fn on_do_move(&mut self, game: &Solitaire, m: &Move, encode: Encode, rev: &Option<Move>) {
        assert_eq!(game.encode(), encode);
        assert!(game.list_moves::<true>().contains(m));
        assert_eq!(game.get_rev_move(m), *rev);
        self.moves += 1;
    }
    fn on_undo_move(&mut self, _: &Move, _: Encode) {
        self.undone += 1;
    }
    fn on_start(&mut self) {
        self.started = true;
    }
    fn on_finish(&mut self, res: &TraverseResult) {
        self.finished = Some(*res);
    }
}

fn counter(limit: usize) -> Counter {
    Counter { visits: 0, wins: 0, moves: 0, undone: 0, started: false, finished: None, limit }
}

#[test]
fn a_walk_undoes_every_move_and_leaves_the_state() {
    let mut game = Solitaire::new(&deal(21), 3).unwrap();
    let before = game.encode();
    let mut tp = TpTable::new();
    let mut cb = counter(usize::MAX);
    let res = traverse_game(&mut game, &mut tp, &mut cb, None);
    assert_eq!(res, TraverseResult::Proceed);
    assert!(cb.started);
    assert_eq!(cb.finished, Some(TraverseResult::Proceed));
    assert_eq!(cb.moves, cb.undone);
    assert_eq!(cb.visits + cb.wins, cb.moves + 1);
    assert_eq!(cb.wins, 0);
    assert_eq!(game.encode(), before);
}

#[test]
fn a_hook_can_halt_the_walk() {
    let mut game = Solitaire::new(&deal(21), 3).unwrap();
    let before = game.encode();
    let mut tp = TpTable::new();
    let mut cb = counter(100);
    let res = traverse_game(&mut game, &mut tp, &mut cb, None);
    assert_eq!(res, TraverseResult::Halted);
    assert_eq!(cb.finished, Some(TraverseResult::Halted));
    assert_eq!(cb.visits, 101);
    assert_eq!(cb.moves, cb.undone);
    assert_eq!(game.encode(), before);
}

#[test]
fn the_graph_has_an_edge_for_every_move_of_the_walk() {
    let mut game = Solitaire::new(&deal(28), 3).unwrap();
    let before = game.encode();
    let stats = AtomicSearchStats::new();
    let (res, graph) = graph_game_with_tracking(&mut game, &stats, &DefaultSearchSignal);
    assert_eq!(res, TraverseResult::Proceed);
    assert_eq!(game.encode(), before);
    assert_eq!(graph.len(), stats.total_visit());
    assert_eq!(graph[0].0, before);
    assert_eq!(graph[0].1, before);
    assert!(graph.iter().all(|e| e.1 != WIN_KEY));
    let (res2, graph2) = graph_game(&mut game);
    assert_eq!(res2, TraverseResult::Proceed);
    assert_eq!(graph2.len(), graph.len());
    // a deal that can be won has edges to the win
    let mut game = Solitaire::new(&deal(5), 3).unwrap();
    let (_, graph) = graph_game(&mut game);
    assert!(graph.iter().any(|e| e.1 == WIN_KEY));
}

struct SkipAll;

impl TraverseCallback for SkipAll {
    fn on_win(&mut self, _: &Solitaire, _: &Option<Move>) -> TraverseResult {
        TraverseResult::Proceed
    }
    fn on_visit(&mut self, _: &Solitaire, _: Encode) -> TraverseResult {
        TraverseResult::Skip
    }
    fn on_move_gen(&mut self, _: &MoveVec, _: Encode) {
        panic!("a state that is skipped offers no moves");
    }
    fn on_do_move(&mut self, _: &Solitaire, _: &Move, _: Encode, _: &Option<Move>) {}
    fn on_undo_move(&mut self, _: &Move, _: Encode) {}
    fn on_start(&mut self) {}
    fn on_finish(&mut self, _: &TraverseResult) {}
}

#[test]
fn a_hook_can_skip_a_state() {
    let mut game = Solitaire::new(&deal(3), 3).unwrap();
    let mut tp = TpTable::new();
    assert_eq!(traverse_game(&mut game, &mut tp, &mut SkipAll, None), TraverseResult::Skip);
    // the state was not recorded
    assert!(tp.insert(lonelybot::mixer::mix(game.encode())));
}

#[test]
fn what_a_walk_decides_at_a_state() {
    assert_eq!(after_visit(TraverseResult::Proceed), None);
    assert_eq!(after_visit(TraverseResult::Skip), Some(TraverseResult::Skip));
    assert_eq!(after_visit(TraverseResult::Halted), Some(TraverseResult::Halted));
    assert_eq!(after_insert(false, 0), Some(TraverseResult::Proceed));
    assert_eq!(after_insert(false, N_PLY_MAX), Some(TraverseResult::Proceed));
    assert_eq!(after_insert(true, N_PLY_MAX), Some(TraverseResult::Halted));
    assert_eq!(after_insert(true, N_PLY_MAX - 1), None);
    assert!(after_child(TraverseResult::Halted));
    assert!(!after_child(TraverseResult::Skip));
    assert!(!after_child(TraverseResult::Proceed));
}

#[test]
fn the_graph_of_a_won_state_is_its_edge_to_the_win() {
    let mut game = Solitaire::new(&deal(5), 3).unwrap();
    let (res, history) = solve_game(&mut game, &EmptySearchStats, &DefaultSearchSignal);
    assert_eq!(res, SearchResult::Solved);
    for m in history.unwrap().iter() {
        game.do_move(m);
    }
    assert!(game.is_win());
    let key = game.encode();
    let (res, graph) = graph_game(&mut game);
    assert_eq!(res, TraverseResult::Proceed);
    assert_eq!(graph, vec![(key, WIN_KEY, EdgeType::DeckPile)]);
}

#[test]
fn the_graph_begins_with_the_edge_of_the_first_state() {
    let mut game = Solitaire::new(&deal(28), 3).unwrap();
    let key = game.encode();
    let (_, graph) = graph_game(&mut game);
    assert_eq!(graph[0], (key, key, EdgeType::DeckPile));
    // every later edge leaves from a key that an earlier edge led to
    for (k, e) in graph.iter().enumerate().skip(1).take(300) {
        assert!(graph[..k].iter().any(|f| f.1 == e.0));
    }
}
