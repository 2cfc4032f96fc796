use lonelybot::card::Card;
use lonelybot::engine::Solitaire;
use lonelybot::moves::Move;
use rand::rngs::StdRng;
use rand::seq::SliceRandom;
use rand::Rng;
use rand::SeedableRng;

fn shuffled(seed: u64) -> [Card; 52] {
    let mut cards = [Card::from_value(0); 52];
    for (i, c) in cards.iter_mut().enumerate() {
        *c = Card::from_value(i as u8);
    }
    let mut rng = StdRng::seed_from_u64(seed);
    cards.shuffle(&mut rng);
    cards
}

#[test]
fn undo_restores_encoding_along_random_games() {
    for seed in 0..30u64 {
        let cards = shuffled(seed);
        let mut game = Solitaire::new(&cards, 3).unwrap();
        let mut rng = StdRng::seed_from_u64(seed);
        for _ in 0..200 {
            let moves: Vec<Move> = game.list_moves::<false>();
            if moves.is_empty() {
                break;
            }
            let before = game.encode();
            for m in &moves {
                let undo = game.do_move(m);
                game.undo_move(m, &undo);
                assert_eq!(game.encode(), before);
            }
            let m = moves[rng.random_range(0..moves.len())];
            game.do_move(&m);
        }
    }
}

#[test]
fn new_rejects_what_is_no_deal() {
    let mut cards = shuffled(1);
    assert!(Solitaire::new(&cards, 0).is_err());
    assert!(Solitaire::new(&cards, 25).is_err());
    assert!(Solitaire::new(&cards, 24).is_ok());
    cards[3] = cards[4];
    assert!(Solitaire::new(&cards, 3).is_err());
    cards[3] = Card::from_value(52);
    assert!(Solitaire::new(&cards, 3).is_err());
}

#[test]
fn decode_of_a_key_gives_an_equivalent_state() {
    for seed in 0..30u64 {
        let cards = shuffled(seed);
        let mut game = Solitaire::new(&cards, 3).unwrap();
        let mut rng = StdRng::seed_from_u64(seed + 100);
        for _ in 0..60 {
            let mut fresh = Solitaire::new(&cards, 3).unwrap();
            fresh.decode(game.encode());
            assert!(fresh.equivalent_to(&game));
            assert_eq!(fresh.encode(), game.encode());
            assert_eq!(fresh.get_visible_mask(), game.get_visible_mask());
            assert_eq!(fresh.get_top_mask(), game.get_top_mask());
            let moves: Vec<Move> = game.list_moves::<false>();
            if moves.is_empty() {
                break;
            }
            let m = moves[rng.random_range(0..moves.len())];
            game.do_move(&m);
        }
    }
}

#[test]
fn states_that_differ_have_keys_that_differ() {
    let cards = shuffled(3);
    let mut game = Solitaire::new(&cards, 3).unwrap();
    let start = game.encode();
    let mut seen = vec![start];
    for m in game.list_moves::<false>() {
        let undo = game.do_move(&m);
        let e = game.encode();
        assert!(!seen.contains(&e), "{:?}", m);
        seen.push(e);
        game.undo_move(&m, &undo);
    }
    assert!(game.equivalent_to(&Solitaire::new(&cards, 3).unwrap()));
    assert!(!game.equivalent_to(&Solitaire::new(&shuffled(4), 3).unwrap()));
}

#[test]
fn the_first_state_of_an_ordered_deal() {
    // piles get the cards 0..28 in order, the deck 28..52
    let mut cards = [Card::from_value(0); 52];
    for (i, c) in cards.iter_mut().enumerate() {
        *c = Card::from_value(i as u8);
    }
    let game = Solitaire::new(&cards, 3).unwrap();
    assert!(!game.is_win());
    assert_eq!(game.get_stack(), &[0, 0, 0, 0]);
    // the face-up cards are 0, 2, 5, 9, 14, 20, 27
    let mut vis = 0u64;
    for v in [0u8, 2, 5, 9, 14, 20, 27] {
        vis |= lonelybot::card::card_mask(&Card::from_value(v));
    }
    assert_eq!(game.get_visible_mask(), vis);
    assert_eq!(game.get_top_mask(), vis);
    // key: foundations 0, piles 40319, deck 24 << 24
    assert_eq!(game.encode(), (40319u64 << 16) | ((24u64 << 24) << 32));
    let moves: Vec<Move> = game.list_moves::<false>();
    // two aces go to the foundation, the ace of clubs (2) goes on the two of
    // diamonds (5), the three of diamonds (9) on the four of clubs (14), the six
    // of hearts (20) on the seven of spades (27); of the deck the cards 30, 33,
    // ..., 51 can be drawn, and none of them can be laid
    assert_eq!(
        moves,
        vec![
            Move::PileStack(Card::from_value(0)),
            Move::PileStack(Card::from_value(2)),
            Move::Reveal(Card::from_value(2)),
            Move::Reveal(Card::from_value(9)),
            Move::Reveal(Card::from_value(20)),
        ]
    );
    // with dominance only the ace goes up
    let dom: Vec<Move> = game.list_moves::<true>();
    assert_eq!(dom, vec![Move::PileStack(Card::from_value(0))]);
}

#[test]
fn a_reveal_turns_up_the_card_under_it() {
    let mut cards = [Card::from_value(0); 52];
    for (i, c) in cards.iter_mut().enumerate() {
        *c = Card::from_value(i as u8);
    }
    let mut game = Solitaire::new(&cards, 3).unwrap();
    let before = game.encode();
    let m = Move::Reveal(Card::from_value(9));
    assert_eq!(game.get_rev_move(&m), None);
    let undo = game.do_move(&m);
    assert_eq!(undo.info, 3);
    assert_eq!(undo.revealed, Some(Card::from_value(8)));
    assert_eq!(game.get_hidden().len(3), 3);
    let bit5 = lonelybot::card::card_mask(&Card::from_value(9));
    let bit4 = lonelybot::card::card_mask(&Card::from_value(8));
    assert_eq!(game.get_top_mask() & bit5, 0);
    assert_eq!(game.get_top_mask() & bit4, bit4);
    assert_eq!(game.get_visible_mask() & (bit4 | bit5), bit4 | bit5);
    game.undo_move(&m, &undo);
    assert_eq!(game.encode(), before);
    // a card that goes to the foundation from under nothing can come back
    let up = Move::PileStack(Card::from_value(0));
    assert_eq!(game.get_rev_move(&up), None);
    let undo = game.do_move(&up);
    assert_eq!(undo.info, 1);
    assert_eq!(undo.revealed, None);
    assert_eq!(game.get_stack(), &[1, 0, 0, 0]);
    assert_eq!(
        game.get_rev_move(&Move::StackPile(Card::from_value(0))),
        Some(Move::PileStack(Card::from_value(0)))
    );
    game.undo_move(&up, &undo);
    assert_eq!(game.encode(), before);
}

#[test]
fn dominance_offers_a_part_of_the_legal_moves() {
    for seed in 0..20u64 {
        let cards = shuffled(seed);
        let mut game = Solitaire::new(&cards, 3).unwrap();
        let mut rng = StdRng::seed_from_u64(seed);
        for _ in 0..100 {
            let all: Vec<Move> = game.list_moves::<false>();
            let dom: Vec<Move> = game.list_moves::<true>();
            for m in &dom {
                assert!(all.contains(m));
            }
            for (i, m) in all.iter().enumerate() {
                assert!(!all[..i].contains(m));
            }
            if all.is_empty() {
                break;
            }
            let m = all[rng.random_range(0..all.len())];
            game.do_move(&m);
        }
    }
}

#[test]
fn the_columns_can_be_read_off_the_state() {
    for seed in 0..20u64 {
        let cards = shuffled(seed);
        let mut game = Solitaire::new(&cards, 3).unwrap();
        let mut rng = StdRng::seed_from_u64(seed);
        for _ in 0..80 {
            let piles = game.compute_visible_piles();
            assert_eq!(piles.len(), 7);
            let mut seen = 0u64;
            for pile in &piles {
                for (j, c) in pile.iter().enumerate() {
                    let bit = lonelybot::card::card_mask(c);
                    assert_eq!(seen & bit, 0);
                    seen |= bit;
                    if j > 0 {
                        assert!(pile[j - 1].go_before(c));
                    }
                }
            }
            // every face-up card lies in a column
            assert_eq!(seen, game.get_visible_mask());
            let all: Vec<Move> = game.list_moves::<false>();
            if all.is_empty() {
                break;
            }
            let m = all[rng.random_range(0..all.len())];
            game.do_move(&m);
        }
    }
}

#[test]
fn the_masks_of_the_generator_on_an_ordered_deal() {
    let mut cards = [Card::from_value(0); 52];
    for (i, c) in cards.iter_mut().enumerate() {
        *c = Card::from_value(i as u8);
    }
    let mut game = Solitaire::new(&cards, 3).unwrap();
    let bit = |v: u8| lonelybot::card::card_mask(&Card::from_value(v));
    // the next card for every foundation is its ace
    assert_eq!(game.get_stack_mask(), 0xF);
    assert_eq!(game.get_top_stack_mask(), 0);
    // every face-up card has nothing on it: both bits of each of their pairs
    let mut pairs = 0u64;
    for v in [0u8, 2, 5, 9, 14, 20, 27] {
        pairs |= bit(v) | bit(v ^ 1);
    }
    assert_eq!(game.get_bottom_mask(), pairs);
    // the deck offers the end of every deal, with or without a redeal
    let mut deck = 0u64;
    for v in (30..52u8).step_by(3) {
        deck |= bit(v);
    }
    assert_eq!(game.get_deck_mask(false), deck);
    assert_eq!(game.get_deck_mask(true), deck);
    assert!(!game.has_safe_draw());
    let f = game.gen_moves::<false>();
    assert_eq!(f, [bit(0) | bit(2), 0, 0, 0, bit(2) | bit(9) | bit(20)]);
    assert_eq!(game.gen_moves::<true>(), [bit(0), 0, 0, 0, 0]);
    // with the three of diamonds on the four of clubs, the pair of the fours has
    // nothing open: one four lies face up and one card lies on it
    game.do_move(&Move::Reveal(Card::from_value(9)));
    let bm = game.get_bottom_mask();
    assert_eq!(bm & (bit(14) | bit(15)), 0);
    assert_eq!(bm & (bit(9) | bit(8)), bit(9) | bit(8));
    // the ace of hearts on the foundation can come back on a black two; none is
    // open, so it cannot
    game.do_move(&Move::PileStack(Card::from_value(0)));
    assert_eq!(game.get_top_stack_mask(), bit(0));
    assert_eq!(game.get_stack_mask(), bit(4) | bit(1) | bit(2) | bit(3));
    assert!(!game.list_moves::<false>().contains(&Move::StackPile(Card::from_value(0))));
}

#[test]
fn the_moves_stand_in_the_order_of_kind_and_bit() {
    let key = |m: &Move| {
        let v = m.card().value();
        (m.kind(), v ^ ((v >> 1) & 2))
    };
    for seed in 0..20u64 {
        let mut game = Solitaire::new(&shuffled(seed), 3).unwrap();
        let mut rng = StdRng::seed_from_u64(seed);
        for _ in 0..80 {
            for list in [game.list_moves::<true>(), game.list_moves::<false>()] {
                for w in list.windows(2) {
                    assert!(key(&w[0]) < key(&w[1]));
                }
            }
            assert_eq!(game.list_moves::<true>(), game.duplicate().list_moves::<true>());
            let moves = game.list_moves::<true>();
            if moves.is_empty() {
                break;
            }
            let m = moves[rng.random_range(0..moves.len())];
            game.do_move(&m);
        }
    }
}
