use lonelybot::card::Card;
use std::cell::RefCell;
use std::ops::ControlFlow;
use lonelybot::deck::{Deck, Drawable, N_FULL_DECK};
use rand::rngs::StdRng;
use rand::seq::SliceRandom;
use rand::Rng;
use rand::SeedableRng;

fn default_shuffle(seed: u64) -> [Card; 52] {
    let mut cards = [Card::from_value(0); 52];
    for (i, c) in cards.iter_mut().enumerate() {
        *c = Card::from_value(i as u8);
    }
    let mut rng = StdRng::seed_from_u64(seed);
    cards.shuffle(&mut rng);
    cards
}

fn ordered_deck(step: u8) -> Deck {
    let mut cards = [Card::from_value(0); N_FULL_DECK];
    for (i, c) in cards.iter_mut().enumerate() {
        *c = Card::from_value(i as u8);
    }
    Deck::new(&cards, step)
}

#[test]
fn test_draw() {
    let mut rng = StdRng::seed_from_u64(14);

    for i in 0..100 {
        let deck = default_shuffle(12 + i);
        let deck: &[Card; N_FULL_DECK] = deck[..N_FULL_DECK].try_into().unwrap();

        let draw_step = rng.random_range(1..5);
        let mut deck = Deck::new(deck, draw_step);

        while !deck.is_empty() {
            assert_eq!(deck.offset_once(), deck.offset(1));
            let step = rng.random_range(1..100);
            let offset = deck.offset(step);

            for _ in 0..step {
                deck.deal_once();
            }

            assert_eq!(offset, deck.get_offset());

            for (pos, card, _) in deck.iter_all() {
                assert_eq!(deck.peek(pos), &card);
            }

            for filter in [false, true] {
                let _ = deck.iter_callback::<(), _>(filter, |pos, card| {
                    assert_eq!(deck.peek(pos), card);
                    ControlFlow::<()>::Continue(())
                });
                for (pos, card) in deck.iter_drawable(filter) {
                    assert_eq!(deck.peek(pos), &card);
                }
            }

            if deck.get_offset() < deck.len() && rng.random_bool(0.5) {
                deck.pop_next();
            }
        }
    }
}

#[test]
fn a_new_deck_has_its_first_deal_turned() {
    let deck = ordered_deck(3);
    assert_eq!(deck.len(), 24);
    assert_eq!(deck.draw_step(), 3);
    assert_eq!(deck.get_offset(), 3);
    assert_eq!(deck.get_waste().len(), 3);
    assert_eq!(deck.get_deck().len(), 21);
    assert_eq!(deck.peek_current(), Some(&Card::from_value(2)));
    assert_eq!(deck.peek_last(), Some(&Card::from_value(23)));
    assert_eq!(deck.encode(), 24 << 24);
    assert!(deck.is_pure());
    assert_eq!(deck.normalized_offset(), 24);
    assert_eq!(deck.find_card(Card::from_value(7)), Some(7));
    assert_eq!(deck.find_card(Card::from_value(30)), None);
    assert_eq!(deck.iter().len(), 24);
    assert_eq!(deck.peek_waste(2), vec![Card::from_value(1), Card::from_value(2)]);
    assert_eq!(deck.peek_waste(9).len(), 3);
}

#[test]
fn offset_follows_the_closed_form() {
    // L = 24, k = 3, cursor 3: seven deals to the end, then the wrap, then 0, 3, 6, ...
    let deck = ordered_deck(3);
    assert_eq!(deck.offset(0), 3);
    assert_eq!(deck.offset(1), 6);
    assert_eq!(deck.offset(7), 24);
    assert_eq!(deck.offset(8), 0);
    assert_eq!(deck.offset(9), 3);
    assert_eq!(deck.offset(16), 24);
    assert_eq!(deck.offset(17), 0);
    // a deck of 23 cards with cursor 2 and k = 3
    let mut deck = ordered_deck(3);
    let c = deck.draw(2);
    assert_eq!(c, Card::from_value(2));
    assert_eq!(deck.len(), 23);
    assert_eq!(deck.get_offset(), 2);
    assert_eq!(deck.offset(1), 5);
    assert_eq!(deck.offset(7), 23);
    assert_eq!(deck.offset(8), 0);
    assert_eq!(deck.offset(9), 3);
    assert_eq!(deck.offset(15), 21);
    assert_eq!(deck.offset(16), 23);
    assert_eq!(deck.offset(17), 0);
    assert!(!deck.is_pure());
    assert_eq!(deck.normalized_offset(), 2);
}

#[test]
fn offset_stays_in_range_and_cycles_from_pure_cursors() {
    let mut rng = StdRng::seed_from_u64(5);
    for k in 1..=24u8 {
        let mut deck = ordered_deck(k);
        for _ in 0..30 {
            let len = deck.len();
            for n in 0..=255u8 {
                assert!(deck.offset(n) <= len);
            }
            if deck.is_pure() {
                let cycle = len.div_ceil(k) + 1;
                assert_eq!(deck.offset(cycle), deck.offset(0));
            }
            if len == 0 {
                break;
            }
            let pos = rng.random_range(0..len);
            deck.draw(pos);
        }
    }
}

#[test]
fn draw_and_push_give_the_deck_back() {
    let mut deck = ordered_deck(3);
    deck.deal_once();
    let before = deck.encode();
    let offset = deck.get_offset();
    let cards = deck.iter();
    let c = deck.draw(10);
    assert_ne!(deck.encode(), before);
    assert_eq!(deck.encode() & (1 << 10), 1 << 10);
    deck.push(c);
    deck.set_offset(offset);
    assert_eq!(deck.encode(), before);
    assert_eq!(deck.iter(), cards);
    let mut other = ordered_deck(3);
    other.deal_once();
    assert!(deck.equivalent_to(&other));
}

#[test]
fn draw_current_takes_the_top_of_the_waste() {
    let mut deck = ordered_deck(1);
    assert_eq!(deck.draw_current(), Some(Card::from_value(0)));
    assert_eq!(deck.draw_current(), None);
    assert_eq!(deck.len(), 23);
    assert_eq!(deck.peek_current(), None);
}

#[test]
fn decode_gives_an_equivalent_deck() {
    let mut rng = StdRng::seed_from_u64(3);
    for seed in 0..50u64 {
        let cards = default_shuffle(seed);
        let cards: &[Card; N_FULL_DECK] = cards[28..].try_into().unwrap();
        let k = rng.random_range(1..5);
        let mut deck = Deck::new(cards, k);
        for _ in 0..12 {
            for _ in 0..rng.random_range(0..5) {
                deck.deal_once();
            }
            if deck.get_offset() < deck.len() {
                deck.pop_next();
            }
            let mut fresh = Deck::new(cards, k);
            fresh.decode(deck.encode());
            assert!(fresh.equivalent_to(&deck));
            assert_eq!(fresh.encode(), deck.encode());
            assert_eq!(fresh.get_offset(), deck.normalized_offset());
        }
    }
}

#[test]
fn the_filter_leaves_out_what_only_a_redeal_reaches() {
    // cursor 5 of 24 with k = 3: waste position 2 ends a full deal
    let mut deck = ordered_deck(3);
    deck.set_offset(5);
    let all: Vec<u8> = deck.iter_drawable(false).iter().map(|x| x.0).collect();
    let near: Vec<u8> = deck.iter_drawable(true).iter().map(|x| x.0).collect();
    assert_eq!(all, vec![2, 4, 23, 7, 10, 13, 16, 19, 22, 5, 8, 11, 14, 17, 20]);
    assert_eq!(near, vec![4, 23, 7, 10, 13, 16, 19, 22]);
    assert_eq!(deck.drawable(4), Drawable::Current);
    assert_eq!(deck.drawable(2), Drawable::Next);
    assert_eq!(deck.drawable(3), Drawable::Blocked);
    assert_eq!(deck.drawable(7), Drawable::Current);
    assert_eq!(deck.drawable(8), Drawable::Next);
    assert_eq!(deck.drawable(23), Drawable::Current);
    assert_eq!(deck.iter_waste().len(), 5);
    assert_eq!(deck.iter_deck().len(), 19);
}

#[test]
fn the_callback_is_shown_the_cards_in_turn_until_it_breaks_off() {
    let mut deck = ordered_deck(3);
    deck.set_offset(5);
    for filter in [false, true] {
        let list = deck.iter_drawable(filter);
        // to the end
        let seen = RefCell::new(Vec::new());
        let r = deck.iter_callback::<u8, _>(filter, |pos, card| {
            seen.borrow_mut().push((pos, *card));
            ControlFlow::Continue(())
        });
        assert_eq!(r, ControlFlow::Continue(()));
        assert_eq!(*seen.borrow(), list);
        // until the fourth card
        let seen = RefCell::new(Vec::new());
        let stop = list[3].0;
        let r = deck.iter_callback(filter, |pos, card| {
            seen.borrow_mut().push((pos, *card));
            if pos == stop {
                ControlFlow::Break(card.value())
            } else {
                ControlFlow::Continue(())
            }
        });
        assert_eq!(r, ControlFlow::Break(list[3].1.value()));
        assert_eq!(*seen.borrow(), list[..4].to_vec());
    }
}
