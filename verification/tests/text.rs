use lonelybot::card::Card;
use lonelybot::moves::Move;
use lonelybot::text::{parse_card, parse_card_bytes, parse_move_bytes, parse_move_str};
use serde_json::Value;

#[test]
fn cards_are_read_by_rank_and_suit() {
    assert_eq!(parse_card("AH"), Some(Card::new(0, 0)));
    assert_eq!(parse_card("10d"), Some(Card::new(9, 1)));
    assert_eq!(parse_card(" kS \n"), Some(Card::new(12, 3)));
    assert_eq!(parse_card("2c"), Some(Card::new(1, 2)));
    assert_eq!(parse_card("9♥"), Some(Card::new(8, 0)));
    assert_eq!(parse_card("J♦"), Some(Card::new(10, 1)));
    assert_eq!(parse_card("q♣"), Some(Card::new(11, 2)));
    assert_eq!(parse_card("A♠"), Some(Card::new(0, 3)));
    for rank in 0..13u8 {
        for suit in 0..4u8 {
            let c = Card::new(rank, suit);
            let upper = c.print_solvitaire::<false>();
            let lower = c.print_solvitaire::<true>();
            assert_eq!(parse_card(upper.trim_matches('"')), Some(c));
            assert_eq!(parse_card(lower.trim_matches('"')), Some(c));
        }
    }
    assert_eq!(Card::new(9, 0).print_solvitaire::<false>(), "\"10H\"");
    assert_eq!(Card::new(0, 3).print_solvitaire::<true>(), "\"As\"");
}

#[test]
fn what_is_no_card_is_refused() {
    for text in ["", " ", "H", "ZZ", "1H", "11H", "AX", "A H", "10", "0d", "AHH", "A♥♥x"] {
        assert_eq!(parse_card(text), None, "{:?}", text);
    }
    assert_eq!(parse_card_bytes(&[0x41, 0xE2, 0x99]), None);
    assert_eq!(parse_card_bytes(&[0x41, 0xE2, 0x99, 0xA7]), None);
}

#[test]
fn moves_are_read_by_kind_and_card() {
    let c = Card::new(4, 2);
    assert_eq!(parse_move_str("DS 5C"), Some(Move::DeckStack(c)));
    assert_eq!(parse_move_str("ps 5c"), Some(Move::PileStack(c)));
    assert_eq!(parse_move_str("  Dp\t5♣  "), Some(Move::DeckPile(c)));
    assert_eq!(parse_move_str("SP 5C and more"), Some(Move::StackPile(c)));
    assert_eq!(parse_move_str("r 5C"), Some(Move::Reveal(c)));
    assert_eq!(parse_move_str("R"), None);
    assert_eq!(parse_move_str("XX 5C"), None);
    assert_eq!(parse_move_str("DS 5X"), None);
    assert_eq!(parse_move_str("DS5C"), None);
    assert_eq!(parse_move_bytes(b"R\n10h"), Some(Move::Reveal(Card::new(9, 0))));
}

fn hidden_cards_of(txt: &str) -> Result<Vec<Option<Card>>, String> {
    let v: Value = serde_json::from_str(txt).map_err(|e| e.to_string())?;
    let mut out = Vec::new();
    if let Some(cols) = v.get("columns").and_then(|c| c.as_array()) {
        for col in cols {
            if let Some(hid) = col.get("hidden").and_then(|h| h.as_array()) {
                for c in hid {
                    if c == "unknown" || c.as_i64() == Some(-1) {
                        out.push(None);
                    } else if let Some(s) = c.as_str() {
                        out.push(Some(parse_card(s).ok_or("invalid card")?));
                    } else {
                        out.push(None);
                    }
                }
            }
        }
    }
    Ok(out)
}

#[test]
fn invalid_card_in_json_returns_error() {
    let data = r#"{"columns":[{"hidden":["ZZ"],"visible":[]}],"deck":[]}"#;
    assert!(hidden_cards_of(data).is_err());
    let good = r#"{"columns":[{"hidden":["10H", "unknown", -1],"visible":[]}],"deck":[]}"#;
    assert_eq!(hidden_cards_of(good), Ok(vec![Some(Card::new(9, 0)), None, None]));
}
