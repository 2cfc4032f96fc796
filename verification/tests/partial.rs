use lonelybot::card::Card;
use lonelybot::engine::Solitaire;
use lonelybot::partial::{mobility, PartialColumn, PartialState};
use lonelybot::standard::{PileVec, StandardSolitaire};
use rand::rngs::SmallRng;
use rand::rngs::StdRng;
use rand::seq::SliceRandom;
use rand::Rng;
use rand::SeedableRng;

fn default_shuffle(seed: u64) -> [Card; 52] {
    let mut cards = [Card::from_value(0); 52];
    for (i, c) in cards.iter_mut().enumerate() {
        *c = Card::from_value(i as u8);
    }
    let mut rng = StdRng::seed_from_u64(seed);
    cards.shuffle(&mut rng);
    cards
}

fn aces_state() -> PartialState {
    let col = PartialColumn {
        hidden: vec![None],
        visible: {
            let mut p = PileVec::new();
            p.push(Card::new(0, 0));
            p
        },
    };
    PartialState {
        columns: [
            col.clone(),
            col.clone(),
            col.clone(),
            col.clone(),
            col.clone(),
            col.clone(),
            col,
        ],
        deck: vec![None],
        draw_step: 1,
    }
}

#[test]
fn test_fill_unknown() {
    let state = aces_state();
    let mut rng = SmallRng::seed_from_u64(0);
    let g = state.fill_unknowns_randomly(&mut rng).unwrap();
    assert_eq!(g.get_deck().len(), 24);
}

#[test]
fn unknown_places_are_counted() {
    let state = aces_state();
    let mut unknown = state.deck.iter().filter(|c| c.is_none()).count();
    for col in &state.columns {
        assert_eq!(col.hidden_len(), 1);
        unknown += col.hidden_len();
    }
    assert_eq!(unknown, 8);
    let col = PartialColumn {
        hidden: vec![None, Some(Card::new(3, 1)), None],
        visible: PileVec::new(),
    };
    assert_eq!(col.hidden_len(), 2);
}

#[test]
fn the_cards_that_are_not_named_come_in_bitboard_order() {
    let state = aces_state();
    let rest = state.remaining_cards();
    assert_eq!(rest.len(), 51);
    assert_eq!(rest[0], Card::new(0, 1));
    assert_eq!(rest[2], Card::new(0, 3));
    // rank 1 lies with the colours swapped
    assert_eq!(rest[3], Card::new(1, 2));
    assert_eq!(rest[5], Card::new(1, 0));
    assert!(!rest.contains(&Card::new(0, 0)));
}

#[test]
fn fill_with_keeps_the_known_cards_and_takes_the_others_in_turn() {
    let state = aces_state();
    let rest = state.remaining_cards();
    let g = state.fill_with(&rest).unwrap();
    // the deal is [r0, A, r1, A, r2, A, ...]: the first pile takes r0 face up,
    // the second the ace face down and r1 face up, the third r2, the ace, r3
    assert_eq!(g.get_pile(0), &vec![rest[0]]);
    assert_eq!(g.get_hidden_pile(0), &Vec::<Card>::new());
    assert_eq!(g.get_hidden_pile(1), &vec![Card::new(0, 0)]);
    assert_eq!(g.get_pile(1), &vec![rest[1]]);
    assert_eq!(g.get_hidden_pile(2), &vec![Card::new(0, 0), rest[2]]);
    assert_eq!(g.get_pile(2), &vec![Card::new(0, 0)]);
    let deck = g.get_deck().iter();
    assert_eq!(deck.len(), 24);
    for c in &deck {
        assert!(rest.contains(c));
    }
    // too few cards to fill in
    assert!(state.fill_with(&rest[..40].to_vec()).is_err());
}

#[test]
fn the_generator_decides_the_order() {
    let state = aces_state();
    let a = state.fill_unknowns_randomly(&mut SmallRng::seed_from_u64(0)).unwrap();
    let b = state.fill_unknowns_randomly(&mut SmallRng::seed_from_u64(0)).unwrap();
    let c = state.fill_unknowns_randomly(&mut SmallRng::seed_from_u64(1)).unwrap();
    let plain = state.fill_with(&state.remaining_cards()).unwrap();
    assert_eq!(a.get_deck().iter(), b.get_deck().iter());
    assert_ne!(a.get_deck().iter(), c.get_deck().iter());
    assert_ne!(a.get_deck().iter(), plain.get_deck().iter());
}

#[test]
fn a_known_game_has_no_unknown_place() {
    let cards = default_shuffle(4);
    let g = StandardSolitaire::new(&cards, 3).unwrap();
    let state = PartialState::from_standard(&g);
    assert_eq!(state.draw_step, 3);
    assert_eq!(state.deck.len(), 24);
    assert!(state.deck.iter().all(|c| c.is_some()));
    for (i, col) in state.columns.iter().enumerate() {
        assert_eq!(col.hidden_len(), 0);
        assert_eq!(col.hidden.len(), i);
        assert_eq!(col.visible.len(), 1);
    }
    assert!(state.remaining_cards().is_empty());
    let again = state.fill_with(&Vec::new()).unwrap();
    for p in 0..7u8 {
        assert_eq!(again.get_pile(p), g.get_pile(p));
        assert_eq!(again.get_hidden_pile(p), g.get_hidden_pile(p));
    }
    assert_eq!(again.get_deck().iter(), g.get_deck().iter());
}

#[test]
fn a_blind_game_shows_the_table_and_the_cards_in_reach() {
    let cards = default_shuffle(9);
    let sol = Solitaire::new(&cards, 3).unwrap();
    let state = PartialState::from_blind(&sol);
    assert_eq!(state.draw_step, 3);
    for (i, col) in state.columns.iter().enumerate() {
        assert_eq!(col.hidden.len(), i);
        assert_eq!(col.hidden_len(), i);
        assert_eq!(col.visible, vec![cards[i * (i + 1) / 2 + i]]);
    }
    assert_eq!(state.deck.len(), 24);
    for (j, c) in state.deck.iter().enumerate() {
        if (j + 1) % 3 == 0 {
            assert_eq!(*c, Some(cards[28 + j]));
        } else {
            assert_eq!(*c, None);
        }
    }
}

fn pick(remaining: &[Card], probs: &[(Card, f64)], rng: &mut SmallRng) -> usize {
    let weights: Vec<f64> = remaining
        .iter()
        .map(|c| probs.iter().find(|(cc, _)| cc == c).map(|(_, p)| *p).unwrap_or(0.0))
        .collect();
    let sum: f64 = weights.iter().sum();
    if sum == 0.0 {
        return rng.random_range(0..remaining.len());
    }
    let mut r = rng.random::<f64>() * sum;
    for (i, w) in weights.iter().enumerate() {
        if r <= *w {
            return i;
        }
        r -= *w;
    }
    0
}

fn fill_weighted(state: &PartialState, probs: &[Vec<(Card, f64)>], rng: &mut SmallRng) -> StandardSolitaire {
    let mut dealer = state.dealer();
    for idx in state.unknown_columns() {
        dealer.take(pick(&dealer.remaining, &probs[idx], rng)).unwrap();
    }
    while !dealer.remaining.is_empty() {
        dealer.take(rng.random_range(0..dealer.remaining.len())).unwrap();
    }
    state.fill_with(&dealer.order).unwrap()
}

#[test]
fn test_fill_unknown_weighted_zero_sum() {
    let state = aces_state();
    let probs: Vec<Vec<(Card, f64)>> = vec![Vec::new(); 7];
    let mut rng = SmallRng::seed_from_u64(0);
    let g = fill_weighted(&state, &probs, &mut rng);
    let expected = Card::new(4, 1);
    assert_eq!(g.get_piles()[0][0], expected);
}

#[test]
fn the_counts_of_a_game_of_seven_aces() {
    let state = aces_state();
    assert_eq!(state.unknown_cards(), 8);
    // no ace goes on an ace, and no column is empty for a king
    assert_eq!(state.blocked_columns(), 7);
    for i in 0..7 {
        assert!(state.is_blocked(i));
    }
    // the game filled in holds the ace of hearts seven times: the engine has
    // no state for it
    let mut rng = SmallRng::seed_from_u64(0);
    let g = state.fill_unknowns_randomly(&mut rng).unwrap();
    assert_eq!(mobility(&g), 0);
}

#[test]
fn the_mobility_of_a_deal_is_the_number_of_moves_offered() {
    for seed in 0..20u64 {
        let cards = default_shuffle(seed);
        let g = StandardSolitaire::new(&cards, 3).unwrap();
        let engine = Solitaire::new(&cards, 3).unwrap();
        let n = engine.list_moves::<true>().len();
        assert_eq!(mobility(&g), n);
        let state = PartialState::from_standard(&g);
        assert_eq!(state.unknown_cards(), 0);
        let mut rng = SmallRng::seed_from_u64(seed);
        let filled = state.fill_unknowns_randomly(&mut rng).unwrap();
        assert_eq!(mobility(&filled), n);
    }
    // seed 0 offers moves
    let g = StandardSolitaire::new(&default_shuffle(0), 3).unwrap();
    assert!(mobility(&g) >= 1);
}

#[test]
fn a_column_is_blocked_when_no_other_takes_its_last_card() {
    let column = |hidden: usize, visible: &[Card]| PartialColumn {
        hidden: vec![None; hidden],
        visible: visible.to_vec(),
    };
    let state = PartialState {
        columns: [
            // the red six goes on the black seven of column 1
            column(0, &[Card::new(5, 0)]),
            // the black seven goes nowhere
            column(1, &[Card::new(6, 2)]),
            // nothing face up, cards face down: blocked
            column(2, &[]),
            // nothing at all: not blocked
            column(0, &[]),
            // a king goes to the empty column
            column(3, &[Card::new(12, 1)]),
            // of a run only the last card counts: the red five goes on the black six of column 6
            column(0, &[Card::new(10, 2), Card::new(4, 1)]),
            // the black six goes nowhere
            column(2, &[Card::new(5, 3)]),
        ],
        deck: vec![None, Some(Card::new(0, 0)), None],
        draw_step: 3,
    };
    let blocked: Vec<bool> = (0..7).map(|i| state.is_blocked(i)).collect();
    assert_eq!(blocked, vec![false, true, true, false, false, false, true]);
    assert_eq!(state.blocked_columns(), 3);
    assert_eq!(state.unknown_cards(), 2 + 1 + 2 + 3 + 2);
}

#[test]
fn the_cards_are_given_out_one_by_one() {
    let state = aces_state();
    // one face-down place without a card in each column
    assert_eq!(state.unknown_columns(), vec![0, 1, 2, 3, 4, 5, 6]);
    let mut dealer = state.dealer();
    let all = state.remaining_cards();
    assert_eq!(dealer.remaining, all);
    assert_eq!(dealer.remaining.len(), 51);
    assert!(dealer.order.is_empty());
    assert_eq!(dealer.take(51), None);
    assert_eq!(dealer.take(17), Some(all[17]));
    assert_eq!(dealer.take(17), Some(all[18]));
    assert_eq!(dealer.take(0), Some(all[0]));
    assert_eq!(dealer.order, vec![all[17], all[18], all[0]]);
    assert_eq!(dealer.remaining.len(), 48);
    assert_eq!(dealer.remaining[0], all[1]);
    assert_eq!(dealer.remaining[16], all[19]);
    let column = |hidden: Vec<Option<Card>>| PartialColumn { hidden, visible: vec![Card::new(3, 1)] };
    let state = PartialState {
        columns: [
            column(vec![]),
            column(vec![None]),
            column(vec![Some(Card::new(1, 1)), None]),
            column(vec![]),
            column(vec![None, None, Some(Card::new(2, 2)), None]),
            column(vec![Some(Card::new(5, 0))]),
            column(vec![None]),
        ],
        deck: vec![None, None],
        draw_step: 3,
    };
    assert_eq!(state.unknown_columns(), vec![1, 2, 4, 4, 4, 6]);
}
