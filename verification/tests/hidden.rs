use lonelybot::card::{card_mask, Card};
use lonelybot::hidden::Hidden;

fn ordered() -> Hidden {
    let mut cards = [Card::from_value(0); 28];
    for (i, c) in cards.iter_mut().enumerate() {
        *c = Card::from_value(i as u8);
    }
    Hidden::new(cards)
}

#[test]
fn pile_i_holds_i_plus_one_cards() {
    let h = ordered();
    for i in 0..7u8 {
        assert_eq!(h.len(i), i + 1);
        let start = i * (i + 1) / 2;
        assert_eq!(h.get(i).len(), (i + 1) as usize);
        assert_eq!(h.get(i)[0], Card::from_value(start));
        assert_eq!(h.peek(i), Some(&Card::from_value(start + i)));
        for c in h.get(i) {
            assert_eq!(h.find(c), i);
        }
    }
    assert!(h.is_valid());
    assert!(!h.all_turn_up());
    assert_eq!(h.total_down_cards(), 21);
}

#[test]
fn encode_is_mixed_radix() {
    let mut h = ordered();
    // 1 + 2 * (2 + 3 * (3 + 4 * (4 + 5 * (5 + 6 * (6 + 7 * 7)))))
    assert_eq!(h.encode(), 40319);
    let e = h.encode();
    while h.len(6) > 0 {
        h.pop(6);
    }
    assert_eq!(h.encode(), 40319 - 7 * 5040);
    h.pop(0);
    assert_eq!(h.encode(), 40319 - 7 * 5040 - 1);
    let small = h.encode();
    h.decode(e);
    for i in 0..7u8 {
        assert_eq!(h.len(i), i + 1);
    }
    h.decode(small);
    assert_eq!(h.len(0), 0);
    assert_eq!(h.len(6), 0);
    assert_eq!(h.len(5), 6);
}

#[test]
fn pop_shows_the_next_card_and_unpop_puts_it_back() {
    let mut h = ordered();
    assert_eq!(h.pop(2), Some(&Card::from_value(4)));
    assert_eq!(h.len(2), 2);
    assert_eq!(h.pop(2), Some(&Card::from_value(3)));
    assert_eq!(h.pop(2), None);
    assert_eq!(h.peek(2), None);
    h.unpop(2);
    assert_eq!(h.peek(2), Some(&Card::from_value(3)));
    assert_eq!(h.total_down_cards(), 19);
}

#[test]
fn masks_tell_the_cards() {
    let h = ordered();
    let mut first = 0u64;
    let mut down = 0u64;
    for i in 0..7u8 {
        let pile = h.get(i);
        first |= card_mask(&pile[0]);
        for c in &pile[..pile.len() - 1] {
            down |= card_mask(c);
        }
    }
    assert_eq!(h.first_layer_mask(), first);
    assert_eq!(h.mask(), down);
}

#[test]
fn normalize_takes_a_king_alone_for_an_empty_pile() {
    let mut cards = [Card::from_value(0); 28];
    for (i, c) in cards.iter_mut().enumerate() {
        *c = Card::from_value(i as u8);
    }
    cards[0] = Card::new(12, 0);
    cards[1] = Card::new(12, 1);
    let mut h = Hidden::new(cards);
    assert_eq!(h.normalize(), [0, 2, 3, 4, 5, 6, 7]);
    h.pop(1);
    assert_eq!(h.normalize(), [0, 0, 3, 4, 5, 6, 7]);
    h.pop(2);
    h.pop(2);
    assert_eq!(h.normalize(), [0, 0, 1, 4, 5, 6, 7]);
}

#[test]
fn piles_can_be_taken_apart_and_put_together() {
    let mut h = ordered();
    h.pop(3);
    h.pop(0);
    let piles = h.to_piles();
    assert_eq!(piles.len(), 7);
    assert!(piles[0].is_empty());
    assert_eq!(piles[3], vec![Card::from_value(6), Card::from_value(7)]);
    assert_eq!(piles[6].len(), 6);
    let top: Vec<Option<Card>> = (0..7u8).map(|i| h.peek(i).copied()).collect();
    let again = Hidden::from_piles(&piles, &top);
    for i in 0..7u8 {
        assert_eq!(again.len(i), h.len(i));
        assert_eq!(again.get(i), h.get(i));
    }
    assert!(again.is_valid());
    assert_eq!(again.encode(), h.encode());
    assert_eq!(again.mask(), h.mask());
}

#[test]
fn clear_sorts_the_face_down_cards() {
    let mut cards = [Card::from_value(0); 28];
    for (i, c) in cards.iter_mut().enumerate() {
        *c = Card::from_value((27 - i) as u8);
    }
    let mut h = Hidden::new(cards);
    h.pop(6);
    h.pop(6);
    let tops: Vec<Option<Card>> = (0..7u8).map(|i| h.peek(i).copied()).collect();
    let down = h.mask();
    let key = h.encode();
    h.clear();
    assert_eq!(h.mask(), down);
    assert_eq!(h.encode(), key);
    assert!(h.is_valid());
    let mut last: Option<u8> = None;
    for i in 0..7u8 {
        assert_eq!(h.peek(i).copied(), tops[i as usize]);
        let pile = h.get(i);
        for c in &pile[..pile.len() - 1] {
            let index = card_mask(c).trailing_zeros() as u8;
            assert!(last.map_or(true, |l| l < index));
            last = Some(index);
            assert_eq!(h.find(c), i);
        }
    }
    // the deepest cards have changed, and the mask with them
    let mut first = 0u64;
    for i in 0..7u8 {
        first |= card_mask(&h.get(i)[0]);
    }
    assert_eq!(h.first_layer_mask(), first);
}

#[test]
fn shuffle_keeps_the_cards_that_lie_face_down() {
    use_rng_shuffle(3, 4);
}

fn use_rng_shuffle(seed_a: u64, seed_b: u64) {
    let mut a = ordered();
    let mut b = ordered();
    let plain = ordered();
    let down = plain.mask();
    a.shuffle(&mut rand::SeedableRng::seed_from_u64(seed_a));
    b.shuffle(&mut rand::SeedableRng::seed_from_u64(seed_b));
    assert_eq!(a.mask(), down);
    assert_eq!(b.mask(), down);
    assert!(a.is_valid());
    let flat = |h: &Hidden| -> Vec<Card> { (0..7u8).flat_map(|i| h.get(i).to_vec()).collect() };
    assert_ne!(flat(&a), flat(&plain));
    assert_ne!(flat(&a), flat(&b));
    for i in 0..7u8 {
        assert_eq!(a.peek(i), plain.peek(i));
        assert_eq!(a.len(i), plain.len(i));
        for c in a.get(i) {
            assert_eq!(a.find(c), i);
        }
    }
}

#[test]
fn a_card_is_written_at_one_place_of_a_pile() {
    let cards: Vec<Card> = (0..28u8).map(Card::from_value).collect();
    let flat: [Card; 28] = cards.clone().try_into().unwrap();
    let mut hidden = Hidden::new(flat);
    let before = hidden.to_piles();
    let mask = hidden.first_layer_mask();
    // pile 3 holds the cards 6, 7, 8 and 9: 9 lies face up
    assert_eq!(hidden.get(3), &cards[6..10]);
    hidden.set_card(3, 1, Card::from_value(40));
    assert_eq!(hidden.get(3), &[cards[6], Card::from_value(40), cards[8], cards[9]]);
    for i in 0..7u8 {
        assert_eq!(hidden.len(i), i + 1);
        if i != 3 {
            assert_eq!(hidden.to_piles()[i as usize], before[i as usize]);
        }
    }
    // the reverse index and the first layer are as they were
    assert_eq!(hidden.find(&cards[7]), 3);
    assert_eq!(hidden.first_layer_mask(), mask);
    assert_eq!(hidden.find(&Card::from_value(40)), 0);
    assert!(!hidden.is_valid());
}
