use lonelybot::card::Card;
use lonelybot::convert::{convert_move, convert_moves};
use lonelybot::engine::Solitaire;
use lonelybot::moves::Move;
use lonelybot::solver::{moves_of, solve_game, SearchResult};
use lonelybot::standard::{InvalidMove, Pos, StandardHistoryVec, StandardMove, StandardSolitaire};
use lonelybot::table::{engine_of, table_of};
use lonelybot::tracking::{DefaultSearchSignal, EmptySearchStats};
use rand::rngs::StdRng;
use rand::seq::SliceRandom;
use rand::SeedableRng;

fn default_shuffle(seed: u64) -> [Card; 52] {
    let mut cards = [Card::from_value(0); 52];
    for (i, c) in cards.iter_mut().enumerate() {
        *c = Card::from_value(i as u8);
    }
    let mut rng = StdRng::seed_from_u64(seed);
    cards.shuffle(&mut rng);
    cards
}

fn do_test_convert(seed: u64) -> bool {
    let cards = default_shuffle(seed);
    let mut game = StandardSolitaire::new(&cards, 3).unwrap();

    let res = {
        let mut game_1 = engine_of(&game).unwrap();
        let mut game_2 = Solitaire::new(&cards, 3).unwrap();
        let res1 = solve_game(&mut game_1, &EmptySearchStats, &DefaultSearchSignal);
        let res2 = solve_game(&mut game_2, &EmptySearchStats, &DefaultSearchSignal);
        assert_eq!(res1.0, res2.0);
        assert_eq!(
            res1.1.as_ref().map(|h| h.to_vec()),
            res2.1.as_ref().map(|h| h.to_vec())
        );
        res1
    };

    let Some(moves) = res.1 else {
        return false;
    };
    assert_eq!(res.0, SearchResult::Solved);
    let moves: Vec<Move> = moves_of(&moves).to_vec();

    let mut his = StandardHistoryVec::new();
    let mut game_x = engine_of(&game).unwrap();
    for pos in 0..moves.len() {
        his.clear();
        convert_move(&game, moves[pos], &mut his).unwrap();
        for m in &his {
            assert!(game.do_move(m).is_ok());
        }
        assert!(game_x.list_moves::<false>().contains(&moves[pos]));
        game_x.do_move(&moves[pos]);
        let mut game_c = engine_of(&game).unwrap();
        assert!(game_c.get_hidden().is_valid());
        assert!(game_x.equivalent_to(&game_c));

        let mut game_cc = table_of(&game_c);
        for m in moves[pos + 1..].iter() {
            assert!(game_c.list_moves::<false>().contains(m));
            game_c.do_move(m);
        }
        convert_moves(&mut game_cc, &moves[pos + 1..]).unwrap();
        assert!(game_c.is_win());
        assert!(game_cc.is_win());
    }
    true
}

#[test]
fn test_convert() {
    let mut solved = 0;
    for seed in 12..20 {
        if do_test_convert(seed) {
            solved += 1;
        }
    }
    assert!(solved > 0);
}

#[test]
fn a_move_that_the_table_does_not_allow_is_refused() {
    let mut cards = [Card::from_value(0); 52];
    for (i, c) in cards.iter_mut().enumerate() {
        *c = Card::from_value(i as u8);
    }
    let mut game = StandardSolitaire::new(&cards, 3).unwrap();
    let mut his = StandardHistoryVec::new();
    // the king of spades is in the deck, but no column is empty
    assert_eq!(convert_move(&game, Move::DeckPile(Card::from_value(51)), &mut his), Err(InvalidMove {}));
    // the two of hearts is not the next card for its foundation
    assert_eq!(convert_move(&game, Move::PileStack(Card::from_value(5)), &mut his), Err(InvalidMove {}));
    assert_eq!(convert_move(&game, Move::StackPile(Card::from_value(0)), &mut his), Err(InvalidMove {}));
    assert_eq!(convert_move(&game, Move::Reveal(Card::from_value(27)), &mut his), Err(InvalidMove {}));
    assert_eq!(convert_move(&game, Move::DeckStack(Card::from_value(30)), &mut his), Err(InvalidMove {}));
    assert!(his.is_empty());
    // the ace of hearts goes up
    assert_eq!(convert_move(&game, Move::PileStack(Card::from_value(0)), &mut his), Ok(()));
    assert_eq!(
        his,
        vec![StandardMove::new(Pos::Pile(0), Pos::Stack(0), Card::from_value(0))]
    );
    // a card of the deck is dealt to first: 33 is two deals away
    his.clear();
    assert_eq!(convert_move(&game, Move::DeckPile(Card::from_value(32)), &mut his), Err(InvalidMove {}));
    // steps on the table
    assert_eq!(
        game.do_move(&StandardMove::new(Pos::Pile(0), Pos::Stack(1), Card::from_value(0))),
        Err(InvalidMove {})
    );
    assert_eq!(
        game.do_move(&StandardMove::new(Pos::Stack(0), Pos::Stack(1), Card::from_value(0))),
        Err(InvalidMove {})
    );
    assert_eq!(game.do_move(&StandardMove::new(Pos::Pile(0), Pos::Stack(0), Card::from_value(0))), Ok(()));
    assert_eq!(game.get_stack(), &[1, 0, 0, 0]);
    assert!(game.get_pile(0).is_empty());
    assert_eq!(game.do_move(&StandardMove::draw_next()), Ok(()));
    assert_eq!(game.get_deck().get_offset(), 6);
    assert_eq!(game.find_deck_card(Card::from_value(33)), Some(0));
    assert_eq!(game.find_deck_card(Card::from_value(36)), Some(1));
    assert_eq!(game.find_deck_card(Card::from_value(30)), Some(8));
    assert_eq!(game.find_deck_card(Card::from_value(34)), None);
    assert_eq!(game.find_top_card(Card::from_value(9)), Some(3));
    assert_eq!(game.find_top_card(Card::from_value(8)), None);
    assert_eq!(game.find_free_pile(Card::from_value(48)), Some(0));
    assert_eq!(game.find_card(Card::from_value(14)).map(|x| x.0), Some(4));
    // convert_moves stops at the move that cannot be made
    let moves = [Move::Reveal(Card::from_value(9)), Move::DeckStack(Card::from_value(30))];
    assert_eq!(game.get_hidden_pile(3).len(), 3);
    assert_eq!(convert_moves(&mut game, &moves), Err(InvalidMove {}));
    // the three of diamonds lies on the four of clubs now
    assert_eq!(game.get_hidden_pile(3).len(), 2);
    assert_eq!(game.get_pile(3), &vec![Card::from_value(8)]);
    assert_eq!(game.get_pile(4), &vec![Card::from_value(14), Card::from_value(9)]);
    assert!(!game.is_win());
}

#[test]
fn a_table_is_dealt_from_real_cards_with_a_deck_without_doubles() {
    let mut cards = [Card::from_value(0); 52];
    for (i, c) in cards.iter_mut().enumerate() {
        *c = Card::from_value(i as u8);
    }
    assert!(StandardSolitaire::new(&cards, 0).is_err());
    assert!(StandardSolitaire::new(&cards, 25).is_err());
    let game = StandardSolitaire::new(&cards, 24).unwrap();
    assert_eq!(game.get_deck().get_offset(), 24);
    assert!(!game.is_win());
    for p in 0..7u8 {
        let start = (p * (p + 1) / 2) as usize;
        assert_eq!(game.get_hidden_pile(p)[..], cards[start..start + p as usize]);
        assert_eq!(game.get_pile(p), &vec![cards[start + p as usize]]);
        assert!(game.pile_accepts(p, &cards[start + p as usize]) == false);
    }
    // a card twice in the piles is taken, a card twice in the deck is not
    let mut twice = cards;
    twice[3] = twice[4];
    assert!(StandardSolitaire::new(&twice, 3).is_ok());
    let mut twice = cards;
    twice[30] = twice[40];
    assert!(StandardSolitaire::new(&twice, 3).is_err());
    let mut unreal = cards;
    unreal[3] = Card::from_value(52);
    assert!(StandardSolitaire::new(&unreal, 3).is_err());
}
