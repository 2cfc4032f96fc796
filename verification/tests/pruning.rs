use lonelybot::card::{card_mask, Card, KING_MASK};
use lonelybot::engine::Solitaire;
use lonelybot::moves::Move;
use lonelybot::pruning::PruneInfo;

fn ordered() -> Solitaire {
    let mut cards = [Card::from_value(0); 52];
    for (i, c) in cards.iter_mut().enumerate() {
        *c = Card::from_value(i as u8);
    }
    Solitaire::new(&cards, 3).unwrap()
}

#[test]
fn nothing_is_filtered_at_the_start() {
    let game = ordered();
    let p = PruneInfo::default();
    assert_eq!(p.rev_move(), None);
    assert_eq!(p.last_move(), Move::fake());
    assert_eq!(p.last_draw(), None);
    assert_eq!(p.prune_moves(&game), [0; 5]);
    assert!(p.emits(&Move::Reveal(Card::from_value(5))));
}

#[test]
fn a_draw_is_remembered_until_a_card_is_laid_on_it() {
    let game = ordered();
    let start = PruneInfo::default();
    let d = Card::new(7, 3);
    let drawn = PruneInfo::new(&game, &start, &Move::DeckPile(d));
    assert_eq!(drawn.last_draw(), Some(d));
    assert_eq!(drawn.last_move(), Move::DeckPile(d));
    // tableau to foundation and deck to foundation keep it
    let kept = PruneInfo::new(&game, &drawn, &Move::PileStack(Card::new(0, 0)));
    assert_eq!(kept.last_draw(), Some(d));
    let kept = PruneInfo::new(&game, &drawn, &Move::DeckStack(Card::new(0, 1)));
    assert_eq!(kept.last_draw(), Some(d));
    // a reveal forgets it
    let gone = PruneInfo::new(&game, &drawn, &Move::Reveal(Card::new(6, 0)));
    assert_eq!(gone.last_draw(), None);
    // a card from the foundation forgets it if it can lie on the draw
    let gone = PruneInfo::new(&game, &drawn, &Move::StackPile(Card::new(6, 0)));
    assert_eq!(gone.last_draw(), None);
    let kept = PruneInfo::new(&game, &drawn, &Move::StackPile(Card::new(6, 2)));
    assert_eq!(kept.last_draw(), Some(d));
    // another draw replaces it
    let next = PruneInfo::new(&game, &drawn, &Move::DeckPile(Card::new(2, 2)));
    assert_eq!(next.last_draw(), Some(Card::new(2, 2)));
    // without a draw only a draw is remembered
    let none = PruneInfo::new(&game, &start, &Move::StackPile(Card::new(6, 0)));
    assert_eq!(none.last_draw(), None);
}

#[test]
fn moves_are_skipped_while_a_draw_is_remembered() {
    let game = ordered();
    let d = Card::new(7, 3);
    let drawn = PruneInfo::new(&game, &PruneInfo::default(), &Move::DeckPile(d));
    assert!(!drawn.emits(&Move::PileStack(Card::new(7, 2))));
    assert!(drawn.emits(&Move::PileStack(Card::new(7, 0))));
    assert!(drawn.emits(&Move::PileStack(Card::new(6, 2))));
    assert!(drawn.emits(&Move::Reveal(Card::new(6, 0))));
    assert!(drawn.emits(&Move::Reveal(Card::new(6, 1))));
    assert!(!drawn.emits(&Move::Reveal(Card::new(6, 2))));
    assert!(!drawn.emits(&Move::Reveal(Card::new(5, 0))));
    assert!(drawn.emits(&Move::StackPile(Card::new(1, 1))));
    assert!(drawn.emits(&Move::DeckStack(Card::new(1, 1))));
    assert!(drawn.emits(&Move::DeckPile(Card::new(1, 1))));
}

#[test]
fn the_filter_after_a_draw() {
    let game = ordered();
    let first_layer = game.get_hidden().first_layer_mask();
    let d = Card::new(7, 3);
    let drawn = PruneInfo::new(&game, &PruneInfo::default(), &Move::DeckPile(d));
    let f = drawn.prune_moves(&game);
    assert_eq!(f[0], card_mask(&Card::new(7, 2)));
    assert_eq!(f[1], 0);
    assert_eq!(f[2], 0);
    assert_eq!(f[3], 0);
    let fits = card_mask(&Card::new(6, 0)) | card_mask(&Card::new(6, 1));
    assert_eq!(f[4], !(fits | first_layer));
}

#[test]
fn the_filter_after_a_reveal_of_a_deepest_card() {
    let mut game = ordered();
    // card 0 is the deepest card of the first pile
    let m = Move::Reveal(Card::from_value(0));
    let p = PruneInfo::new(&game, &PruneInfo::default(), &m);
    game.do_move(&m);
    let f = p.prune_moves(&game);
    assert_eq!(f, [0, 0, KING_MASK, KING_MASK, KING_MASK]);
    // card 2 is not a deepest card
    let m = Move::Reveal(Card::from_value(2));
    let p = PruneInfo::new(&game, &PruneInfo::default(), &m);
    assert_eq!(p.prune_moves(&game), [0; 5]);
}

#[test]
fn the_last_move_is_not_taken_back() {
    let mut game = ordered();
    let c = Card::from_value(0);
    let up = Move::PileStack(c);
    let undo = game.do_move(&up);
    game.undo_move(&up, &undo);
    // the ace heads its pile: the move turns a card up and has no reverse
    let p = PruneInfo::new(&game, &PruneInfo::default(), &up);
    assert_eq!(p.rev_move(), None);
    game.do_move(&up);
    let down = Move::StackPile(c);
    let p = PruneInfo::new(&game, &PruneInfo::default(), &down);
    assert_eq!(p.rev_move(), Some(up));
    assert_eq!(p.prune_moves(&game), [card_mask(&c), 0, 0, 0, 0]);
}
