use lonelybot::card::{card_mask, from_mask, Card, ALT_MASK, KING_MASK, KING_RANK, N_CARDS, N_RANKS, N_SUITS};

#[test]
fn card_is_rank_times_four_plus_suit() {
    for rank in 0..N_RANKS {
        for suit in 0..N_SUITS {
            let c = Card::new(rank, suit);
            assert_eq!(c.value(), rank * 4 + suit);
            assert_eq!(c.rank(), rank);
            assert_eq!(c.suit(), suit);
            assert_eq!(c.split(), (rank, suit));
            assert_eq!(Card::from_value(c.value()), c);
        }
    }
    assert_eq!(Card::fake().rank(), N_RANKS);
    assert_eq!(Card::fake().value(), N_CARDS);
    assert_eq!(KING_RANK, 12);
}

#[test]
fn swaps_flip_one_bit_of_the_suit() {
    let c = Card::new(7, 2);
    assert_eq!(c.swap_suit(), Card::new(7, 3));
    assert_eq!(c.swap_color(), Card::new(7, 0));
    assert_eq!(c.swap_suit().swap_suit(), c);
    assert_eq!(c.swap_color().swap_color(), c);
    assert_eq!(Card::new(5, 1).reduce_rank(), Card::new(4, 1));
    assert_eq!(Card::new(0, 3).reduce_rank(), Card::from_value(0));
}

#[test]
fn go_before_wants_the_next_rank_and_the_other_colour() {
    let eight_spades = Card::new(7, 3);
    let seven_hearts = Card::new(6, 0);
    let seven_diamonds = Card::new(6, 1);
    let seven_clubs = Card::new(6, 2);
    assert!(eight_spades.go_before(&seven_hearts));
    assert!(eight_spades.go_before(&seven_diamonds));
    assert!(!eight_spades.go_before(&seven_clubs));
    assert!(!seven_hearts.go_before(&eight_spades));
    assert!(!eight_spades.go_before(&Card::new(5, 0)));
    // the sentinel goes before every king
    for suit in 0..4 {
        assert!(Card::fake().go_before(&Card::new(12, suit)));
    }
}

#[test]
fn mask_layout_is_one_shifted_by_value_xor_rank_parity() {
    assert_eq!(card_mask(&Card::new(0, 0)), 1 << 0);
    assert_eq!(card_mask(&Card::new(0, 3)), 1 << 3);
    // odd ranks have the colour bit flipped
    assert_eq!(card_mask(&Card::new(1, 0)), 1 << 6);
    assert_eq!(card_mask(&Card::new(1, 1)), 1 << 7);
    assert_eq!(card_mask(&Card::new(1, 2)), 1 << 4);
    assert_eq!(card_mask(&Card::new(12, 2)), 1 << 50);
    for v in 0..52u8 {
        let expected = 1u64 << (v ^ ((v >> 1) & 2));
        assert_eq!(card_mask(&Card::from_value(v)), expected);
    }
}

#[test]
fn from_mask_undoes_card_mask() {
    let mut all = 0u64;
    for v in 0..52u8 {
        let c = Card::from_value(v);
        assert_eq!(from_mask(&card_mask(&c)), c);
        all |= card_mask(&c);
    }
    assert_eq!(all, (1u64 << 52) - 1);
    // the lowest bit decides
    let two = card_mask(&Card::new(3, 1)) | card_mask(&Card::new(9, 0));
    assert_eq!(from_mask(&two), Card::new(3, 1));
}

#[test]
fn constant_masks() {
    let mut kings = 0u64;
    for suit in 0..4 {
        kings |= card_mask(&Card::new(12, suit));
    }
    assert_eq!(KING_MASK, kings);
    assert_eq!(ALT_MASK, 0x5555_5555_5555_5555);
}

#[test]
fn a_card_and_what_lies_on_it_are_four_bits_apart() {
    for v in 4..52u8 {
        let c = Card::from_value(v);
        for w in 0..52u8 {
            let d = Card::from_value(w);
            if c.go_before(&d) {
                let shifted = card_mask(&d) << 4;
                let pair = card_mask(&c) | card_mask(&c.swap_suit());
                assert!(shifted & pair != 0, "{:?} {:?}", c, d);
            }
        }
    }
}

#[test]
fn suit_letters() {
    assert_eq!(Card::new(3, 0).suit_letter::<false>(), 'H');
    assert_eq!(Card::new(3, 1).suit_letter::<false>(), 'D');
    assert_eq!(Card::new(3, 2).suit_letter::<true>(), 'c');
    assert_eq!(Card::new(3, 3).suit_letter::<true>(), 's');
}
