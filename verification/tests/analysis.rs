use lonelybot::analysis::{
    count_empty_columns, evaluate_move, ranked_moves, HeuristicConfig, PlayStyle,
};
use lonelybot::card::Card;
use lonelybot::engine::Solitaire;
use lonelybot::moves::Move;
use lonelybot::standard::StandardSolitaire;
use lonelybot::table::engine_of;
use rand::rngs::StdRng;
use rand::seq::SliceRandom;
use rand::SeedableRng;

fn default_shuffle(seed: u64) -> [Card; 52] {
    let mut cards = [Card::from_value(0); 52];
    for (i, c) in cards.iter_mut().enumerate() {
        *c = Card::from_value(i as u8);
    }
    let mut rng = StdRng::seed_from_u64(seed);
    cards.shuffle(&mut rng);
    cards
}

#[test]
fn test_style_coefficient_scales_total_score() {
    let deck = default_shuffle(0);
    let game = StandardSolitaire::new(&deck, 3).unwrap();
    let engine = engine_of(&game).unwrap();

    let mut cfg1 = HeuristicConfig::default();
    cfg1.neutral_coef = 1;
    let moves1 = ranked_moves(&engine, PlayStyle::Neutral, &cfg1);

    let mut cfg2 = cfg1.clone();
    cfg2.neutral_coef = 2;
    let moves2 = ranked_moves(&engine, PlayStyle::Neutral, &cfg2);

    assert_eq!(moves1.len(), moves2.len());
    assert!(!moves1.is_empty());
    for (a, b) in moves1.iter().zip(moves2.iter()) {
        assert_eq!(b.heuristic_score, a.heuristic_score * 2);
    }
}

#[test]
fn twice_the_factor_gives_twice_the_score_of_every_move() {
    for seed in 0..10u64 {
        let engine = Solitaire::new(&default_shuffle(seed), 3).unwrap();
        let mut cfg1 = HeuristicConfig::default();
        cfg1.neutral_coef = 1;
        let mut cfg2 = cfg1.clone();
        cfg2.neutral_coef = 2;
        let moves: Vec<Move> = engine.list_moves::<false>();
        assert!(!moves.is_empty());
        for m in moves {
            let a = evaluate_move(PlayStyle::Neutral, &engine, m, &cfg1);
            let b = evaluate_move(PlayStyle::Neutral, &engine, m, &cfg2);
            assert_eq!(b, a * 2);
        }
    }
}

#[test]
fn the_ranked_moves_are_the_offered_moves_best_first() {
    for seed in 0..10u64 {
        let mut engine = Solitaire::new(&default_shuffle(seed), 3).unwrap();
        let cfg = HeuristicConfig { neutral_coef: 3, ..HeuristicConfig::default() };
        for _ in 0..12 {
            let offered = engine.list_moves::<true>();
            let ranked = ranked_moves(&engine, PlayStyle::Neutral, &cfg);
            assert_eq!(ranked.len(), offered.len());
            for m in &offered {
                assert_eq!(ranked.iter().filter(|x| x.mv == *m).count(), 1);
            }
            for w in ranked.windows(2) {
                assert!(w[0].heuristic_score >= w[1].heuristic_score);
            }
            for x in &ranked {
                assert_eq!(x.heuristic_score, evaluate_move(PlayStyle::Neutral, &engine, x.mv, &cfg));
                assert!(!x.will_block);
                let mut next = engine.duplicate();
                let undo = next.do_move(&x.mv);
                assert_eq!(x.revealed, undo.revealed);
                let freed = count_empty_columns(&next).saturating_sub(count_empty_columns(&engine));
                assert_eq!(x.columns_freed, freed);
            }
            let Some(best) = ranked.first() else {
                break;
            };
            engine.do_move(&best.mv);
        }
    }
}

#[test]
fn a_reveal_ranks_before_a_card_that_goes_up_early() {
    // in the ordered deal the ace of the first suit heads pile 0
    let engine = Solitaire::new(&default_shuffle(3), 3).unwrap();
    let ranked = ranked_moves(&engine, PlayStyle::Neutral, &HeuristicConfig::default());
    let reveals = ranked.iter().take_while(|x| matches!(x.mv, Move::Reveal(_))).count();
    assert!(ranked.iter().skip(reveals).all(|x| !matches!(x.mv, Move::Reveal(_))));
    for x in ranked.iter().take(reveals) {
        assert_eq!(x.heuristic_score, 5);
    }
}

#[test]
fn the_score_is_the_weight_times_the_factor() {
    let engine = Solitaire::new(&default_shuffle(1), 3).unwrap();
    let cfg = HeuristicConfig {
        reveal_bonus: 5,
        empty_column_bonus: 2,
        early_foundation_penalty: -3,
        keep_king_bonus: 7,
        deadlock_penalty: -10,
        aggressive_coef: 3,
        conservative_coef: -1,
        neutral_coef: 2,
    };
    let low = Card::new(2, 0);
    let high = Card::new(8, 0);
    let king = Card::new(12, 1);
    assert_eq!(evaluate_move(PlayStyle::Aggressive, &engine, Move::Reveal(low), &cfg), 15);
    assert_eq!(evaluate_move(PlayStyle::Conservative, &engine, Move::Reveal(low), &cfg), -5);
    assert_eq!(evaluate_move(PlayStyle::Neutral, &engine, Move::PileStack(low), &cfg), -6);
    assert_eq!(evaluate_move(PlayStyle::Neutral, &engine, Move::PileStack(high), &cfg), 0);
    assert_eq!(evaluate_move(PlayStyle::Neutral, &engine, Move::DeckStack(low), &cfg), 0);
    // the last pile is not empty: a king earns nothing
    assert_eq!(evaluate_move(PlayStyle::Neutral, &engine, Move::DeckPile(king), &cfg), 0);
    let huge = HeuristicConfig { reveal_bonus: i32::MAX, neutral_coef: 2, ..cfg };
    assert_eq!(evaluate_move(PlayStyle::Neutral, &engine, Move::Reveal(low), &huge), i32::MAX);
    let huge = HeuristicConfig { reveal_bonus: i32::MAX, neutral_coef: -2, ..cfg };
    assert_eq!(evaluate_move(PlayStyle::Neutral, &engine, Move::Reveal(low), &huge), i32::MIN);
    let d = HeuristicConfig::default();
    assert_eq!(
        (d.reveal_bonus, d.empty_column_bonus, d.early_foundation_penalty, d.keep_king_bonus),
        (5, 2, -3, 1)
    );
    assert_eq!((d.deadlock_penalty, d.aggressive_coef, d.conservative_coef, d.neutral_coef), (-10, 1, 1, 1));
}
