use lonelybot::card::Card;
use lonelybot::engine::Solitaire;
use lonelybot::moves::Move;
use lonelybot::solver::{
    child_verdict, entry_verdict, expand_verdict, moves_of, solve_game, solve_with, SearchResult,
    N_PLY_MAX,
};
use lonelybot::tracking::{AtomicSearchStats, DefaultSearchSignal, EmptySearchStats, SearchStatistics};
use rand::rngs::StdRng;
use rand::seq::SliceRandom;
use rand::SeedableRng;

fn deal(seed: u64) -> [Card; 52] {
    let mut cards = [Card::from_value(0); 52];
    for (i, c) in cards.iter_mut().enumerate() {
        *c = Card::from_value(i as u8);
    }
    let mut rng = StdRng::seed_from_u64(seed);
    cards.shuffle(&mut rng);
    cards
}

#[test]
fn solved_games_replay_to_a_win() {
    let mut solved = 0;
    for seed in 12..20u64 {
        let start = std::time::Instant::now();
        let mut game = Solitaire::new(&deal(seed), 3).unwrap();
        let before = game.encode();
        let stats = AtomicSearchStats::new();
        let (res, history) = solve_game(&mut game, &stats, &DefaultSearchSignal);
        println!("seed {} {:?} visits {} in {:?}", seed, res, stats.total_visit(), start.elapsed());
        assert_eq!(game.encode(), before);
        match res {
            SearchResult::Solved => {
                solved += 1;
                let history = history.unwrap();
                for m in history.iter() {
                    assert!(game.list_moves::<false>().contains(m));
                    game.do_move(m);
                }
                assert!(game.is_win());
            }
            _ => assert!(history.is_none()),
        }
    }
    println!("solved {}", solved);
}

#[test]
fn the_same_deal_gives_the_same_result() {
    let mut a = Solitaire::new(&deal(12), 3).unwrap();
    let mut b = Solitaire::new(&deal(12), 3).unwrap();
    let ra = solve_game(&mut a, &EmptySearchStats, &DefaultSearchSignal);
    let rb = solve_game(&mut b, &EmptySearchStats, &DefaultSearchSignal);
    assert_eq!(ra.0, rb.0);
    assert_eq!(ra.1.map(|h| h.to_vec()), rb.1.map(|h| h.to_vec()));
}

#[test]
fn the_pruner_changes_no_result() {
    for seed in 0..20u64 {
        if seed == 11 {
            continue;
        }
        let mut a = Solitaire::new(&deal(seed), 3).unwrap();
        let mut b = Solitaire::new(&deal(seed), 3).unwrap();
        let ra = solve_with(&mut a, &EmptySearchStats, &DefaultSearchSignal, true);
        let rb = solve_with(&mut b, &EmptySearchStats, &DefaultSearchSignal, false);
        assert_eq!(ra.0, rb.0, "seed {}", seed);
        for (mut game, history) in [(a, ra.1), (b, rb.1)] {
            if let Some(history) = history {
                for m in history.iter() {
                    assert!(game.list_moves::<false>().contains(m));
                    game.do_move(m);
                }
                assert!(game.is_win());
            }
        }
    }
}

#[test]
fn some_deals_are_solved_and_some_are_not() {
    let mut solved = 0;
    let mut unsolvable = 0;
    for seed in 20..40u64 {
        if seed == 31 {
            continue;
        }
        let mut game = Solitaire::new(&deal(seed), 3).unwrap();
        match solve_game(&mut game, &EmptySearchStats, &DefaultSearchSignal).0 {
            SearchResult::Solved => solved += 1,
            SearchResult::Unsolvable => unsolvable += 1,
            other => panic!("{:?}", other),
        }
    }
    assert!(solved > 0);
    assert!(unsolvable > 0);
}

#[test]
fn a_won_game_is_solved_with_no_move() {
    let mut game = Solitaire::new(&deal(5), 3).unwrap();
    let (res, history) = solve_game(&mut game, &EmptySearchStats, &DefaultSearchSignal);
    assert_eq!(res, SearchResult::Solved);
    for m in history.unwrap().iter() {
        game.do_move(m);
    }
    assert!(game.is_win());
    let stats = AtomicSearchStats::new();
    let (res, history) = solve_game(&mut game, &stats, &DefaultSearchSignal);
    assert_eq!(res, SearchResult::Solved);
    assert_eq!(history.unwrap().len(), 0);
    assert_eq!(stats.total_visit(), 1);
    assert_eq!(stats.unique_visit(), 0);
}

struct StopAtOnce;

impl lonelybot::tracking::SearchSignal for StopAtOnce {
    fn terminate(&self) {}
    fn is_terminated(&self) -> bool {
        true
    }
    fn search_finish(&self) {}
}

struct StopAfter(std::cell::Cell<u32>);

impl lonelybot::tracking::SearchSignal for StopAfter {
    fn terminate(&self) {
        self.0.set(0);
    }
    fn is_terminated(&self) -> bool {
        let left = self.0.get();
        if left == 0 {
            true
        } else {
            self.0.set(left - 1);
            false
        }
    }
    fn search_finish(&self) {}
}

#[test]
fn a_signal_stops_the_search_and_the_state_is_as_before() {
    let mut game = Solitaire::new(&deal(21), 3).unwrap();
    let before = game.encode();
    let (res, history) = solve_game(&mut game, &EmptySearchStats, &StopAtOnce);
    assert_eq!(res, SearchResult::Terminated);
    assert!(history.is_none());
    assert_eq!(game.encode(), before);
    let (res, history) = solve_game(&mut game, &EmptySearchStats, &StopAfter(std::cell::Cell::new(500)));
    assert_eq!(res, SearchResult::Terminated);
    assert!(history.is_none());
    assert_eq!(game.encode(), before);
}

#[test]
fn the_cache_keeps_the_search_from_states_it_has_been_to() {
    let mut game = Solitaire::new(&deal(21), 3).unwrap();
    let stats = AtomicSearchStats::new();
    let (res, _) = solve_game(&mut game, &stats, &DefaultSearchSignal);
    assert_eq!(res, SearchResult::Unsolvable);
    assert!(stats.unique_visit() > 1000);
    assert!(stats.total_visit() > stats.unique_visit());
    assert!(stats.max_depth() > 10);
    assert!(stats.max_depth() < 1024);
    assert_eq!(stats.progress(9), (0, 0));
    let (done, offered) = stats.progress(0);
    assert!(offered > 0);
    assert!(done <= offered);
}

#[test]
fn what_a_search_decides_at_a_state() {
    assert_eq!(entry_verdict(true, true), Some(SearchResult::Terminated));
    assert_eq!(entry_verdict(true, false), Some(SearchResult::Terminated));
    assert_eq!(entry_verdict(false, true), Some(SearchResult::Solved));
    assert_eq!(entry_verdict(false, false), None);
    assert_eq!(expand_verdict(true, 0), Some(SearchResult::Unsolvable));
    assert_eq!(expand_verdict(true, N_PLY_MAX), Some(SearchResult::Unsolvable));
    assert_eq!(expand_verdict(false, N_PLY_MAX), Some(SearchResult::Crashed));
    assert_eq!(expand_verdict(false, N_PLY_MAX - 1), None);
    assert_eq!(child_verdict(SearchResult::Unsolvable), None);
    assert_eq!(child_verdict(SearchResult::Solved), Some(SearchResult::Solved));
    assert_eq!(child_verdict(SearchResult::Terminated), Some(SearchResult::Terminated));
    assert_eq!(child_verdict(SearchResult::Crashed), Some(SearchResult::Crashed));
}

#[test]
fn the_progress_tells_the_place_of_the_last_move_done_with() {
    for seed in 20..40u64 {
        if seed == 31 {
            continue;
        }
        let mut game = Solitaire::new(&deal(seed), 3).unwrap();
        let n = game.list_moves::<true>().len();
        let stats = AtomicSearchStats::new();
        let (res, _) = solve_with(&mut game, &stats, &DefaultSearchSignal, false);
        if res == SearchResult::Unsolvable && n > 0 {
            // every move of the first state was tried, the last at place n - 1
            assert_eq!(stats.progress(0), ((n - 1) as u8, n as u8));
            return;
        }
    }
    panic!("no deal without a solution among the seeds");
}

#[test]
fn a_state_one_move_from_the_win_is_solved_by_that_move() {
    let mut game = Solitaire::new(&deal(5), 3).unwrap();
    let (res, history) = solve_game(&mut game, &EmptySearchStats, &DefaultSearchSignal);
    assert_eq!(res, SearchResult::Solved);
    let history = history.unwrap();
    let line = moves_of(&history);
    assert!(line.len() <= N_PLY_MAX);
    for m in &line[..line.len() - 1] {
        game.do_move(m);
    }
    let offered = game.list_moves::<true>();
    let wins = |m: &Move| {
        let mut after = game.duplicate();
        after.do_move(m);
        after.is_win()
    };
    assert!(offered.iter().any(wins));
    let first_wins = wins(&offered[0]);
    for pruned in [false, true] {
        let (res, history) = solve_with(&mut game, &EmptySearchStats, &DefaultSearchSignal, pruned);
        assert_eq!(res, SearchResult::Solved);
        let history = history.unwrap();
        let found = moves_of(&history);
        assert!(offered.contains(&found[0]));
        if first_wins {
            // the first move that is tried fills the foundations
            assert_eq!(found, &[offered[0]]);
        }
    }
}
