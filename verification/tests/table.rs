use lonelybot::card::Card;
use lonelybot::convert::convert_moves;
use lonelybot::engine::Solitaire;
use lonelybot::standard::{Pos, StandardMove, StandardSolitaire};
use lonelybot::table::{engine_of, table_of};
use rand::rngs::StdRng;
use rand::seq::SliceRandom;
use rand::Rng;
use rand::SeedableRng;

fn shuffled(seed: u64) -> [Card; 52] {
    let mut cards = [Card::from_value(0); 52];
    for (i, c) in cards.iter_mut().enumerate() {
        *c = Card::from_value(i as u8);
    }
    let mut rng = StdRng::seed_from_u64(seed);
    cards.shuffle(&mut rng);
    cards
}

#[test]
fn the_engine_of_a_fresh_table_is_the_engine_of_the_deal() {
    for seed in 0..30u64 {
        let cards = shuffled(seed);
        let table = StandardSolitaire::new(&cards, 3).unwrap();
        let engine = engine_of(&table).unwrap();
        let direct = Solitaire::new(&cards, 3).unwrap();
        assert!(engine.equivalent_to(&direct));
        assert_eq!(engine.encode(), direct.encode());
        assert_eq!(engine.get_visible_mask(), direct.get_visible_mask());
        assert_eq!(engine.get_top_mask(), direct.get_top_mask());
        assert_eq!(engine.get_hidden().to_piles(), direct.get_hidden().to_piles());
        assert_eq!(engine.list_moves::<true>(), direct.list_moves::<true>());
    }
}

#[test]
fn the_table_of_an_engine_holds_its_cards() {
    for seed in 0..30u64 {
        let cards = shuffled(seed);
        let mut engine = Solitaire::new(&cards, 3).unwrap();
        let mut rng = StdRng::seed_from_u64(seed);
        for _ in 0..60 {
            let table = table_of(&engine);
            assert_eq!(table.get_stack(), engine.get_stack());
            assert_eq!(table.get_deck().iter(), engine.get_deck().iter());
            assert_eq!(table.get_deck().get_offset(), engine.get_deck().get_offset());
            assert_eq!(*table.get_hidden(), engine.get_hidden().to_piles());
            assert_eq!(*table.get_piles(), engine.compute_visible_piles());
            // and back
            let back = engine_of(&table).unwrap();
            assert_eq!(back.get_visible_mask(), engine.get_visible_mask());
            assert_eq!(back.get_stack(), engine.get_stack());
            assert_eq!(back.get_hidden().to_piles(), engine.get_hidden().to_piles());
            assert_eq!(back.list_moves::<false>(), engine.list_moves::<false>());
            let moves = engine.list_moves::<true>();
            if moves.is_empty() {
                break;
            }
            let m = moves[rng.random_range(0..moves.len())];
            // the move can be made on the table too
            let mut played = table_of(&engine);
            convert_moves(&mut played, &[m]).unwrap();
            engine.do_move(&m);
            assert_eq!(played.get_stack(), engine.get_stack());
            let again = engine_of(&played).unwrap();
            assert_eq!(again.get_visible_mask(), engine.get_visible_mask());
            assert_eq!(again.list_moves::<false>(), engine.list_moves::<false>());
        }
    }
}

#[test]
fn a_table_with_a_card_twice_has_no_engine() {
    let mut cards = shuffled(4);
    // the first card of the deal once more in place of the second
    cards[1] = cards[0];
    let table = StandardSolitaire::new(&cards, 3).unwrap();
    assert!(engine_of(&table).is_none());
}

#[test]
fn a_table_after_a_deal_of_the_stock_has_an_engine() {
    let cards = shuffled(9);
    let mut table = StandardSolitaire::new(&cards, 3).unwrap();
    assert!(table.do_move(&StandardMove::new(Pos::Deck, Pos::Deck, Card::fake())).is_ok());
    let engine = engine_of(&table).unwrap();
    assert_eq!(engine.get_deck().get_offset(), table.get_deck().get_offset());
    assert_eq!(engine.get_deck().iter(), table.get_deck().iter());
}
