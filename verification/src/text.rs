//! Cards and moves read from text.

use crate::card::{Card, N_SUITS};
use crate::moves::Move;
use vstd::prelude::*;
use vstd::string::StringSliceAdditionalSpecFns;

verus! {

/// A blank: a space, a tab, a line feed, a vertical tab, a form feed or a
/// carriage return.
pub open spec fn is_blank(b: u8) -> bool {
    b == 32 || (9 <= b <= 13)
}

/// An upper-case letter made lower case; other bytes as they are.
pub open spec fn lower(b: u8) -> u8 {
    if 65 <= b <= 90 {
        (b + 32) as u8
    } else {
        b
    }
}

/// The index of the first byte of `b` from `from` on that is blank, if `blank`,
/// or that is not; the length of `b` if there is none.
pub open spec fn scan(b: Seq<u8>, from: int, blank: bool) -> int
    decreases b.len() - from,
{
    if from >= b.len() || from < 0 {
        b.len() as int
    } else if is_blank(b[from]) == blank {
        from
    } else {
        scan(b, from + 1, blank)
    }
}

/// The end of `b` when the blanks at its end are left out, but not below
/// `from`.
pub open spec fn scan_back(b: Seq<u8>, from: int, end: int) -> int
    decreases end,
{
    if end <= from || end <= 0 {
        from
    } else if !is_blank(b[end - 1]) {
        end
    } else {
        scan_back(b, from, end - 1)
    }
}

/// The rank that `name` names: `a`, `2` to `10`, `j`, `q`, `k`, in either case.
pub open spec fn rank_named(name: Seq<u8>) -> Option<u8> {
    if name.len() == 1 {
        let c = lower(name[0]);
        if c == 97 {
            Some(0u8)
        } else if 50 <= c <= 57 {
            Some((c - 49) as u8)
        } else if c == 106 {
            Some(10u8)
        } else if c == 113 {
            Some(11u8)
        } else if c == 107 {
            Some(12u8)
        } else {
            None
        }
    } else if name.len() == 2 && name[0] == 49 && name[1] == 48 {
        Some(9u8)
    } else {
        None
    }
}

/// The suit that `b` ends with, and the number of bytes that name it: a
/// letter `h`, `d`, `c`, `s` in either case, or the symbol of the suit.
pub open spec fn suit_at_end(b: Seq<u8>) -> Option<(u8, int)> {
    let n = b.len() as int;
    if n >= 1 && lower(b[n - 1]) == 104 {
        Some((0u8, 1int))
    } else if n >= 1 && lower(b[n - 1]) == 100 {
        Some((1u8, 1int))
    } else if n >= 1 && lower(b[n - 1]) == 99 {
        Some((2u8, 1int))
    } else if n >= 1 && lower(b[n - 1]) == 115 {
        Some((3u8, 1int))
    } else if n >= 3 && b[n - 3] == 0xE2 && b[n - 2] == 0x99 {
        if b[n - 1] == 0xA5 {
            Some((0u8, 3int))
        } else if b[n - 1] == 0xA6 {
            Some((1u8, 3int))
        } else if b[n - 1] == 0xA3 {
            Some((2u8, 3int))
        } else if b[n - 1] == 0xA0 {
            Some((3u8, 3int))
        } else {
            None
        }
    } else {
        None
    }
}

/// The card that the bytes `b` name: the name of a rank, then the suit.
pub open spec fn card_named(b: Seq<u8>) -> Option<Card> {
    match suit_at_end(b) {
        Some((suit, n)) => match rank_named(b.subrange(0, b.len() - n)) {
            Some(rank) => Some(Card((rank * N_SUITS + suit) as u8)),
            None => None,
        },
        None => None,
    }
}

/// The card that the text `b` names, blanks before and after it left out.
pub open spec fn spec_parse_card(b: Seq<u8>) -> Option<Card> {
    let from = scan(b, 0, false);
    let to = scan_back(b, from, b.len() as int);
    card_named(b.subrange(from, to))
}

/// The kind of move that `tag` names: `ds`, `ps`, `dp`, `sp`, `r`, in either
/// case, as a place in the order of [`Move::kind`].
pub open spec fn kind_named(tag: Seq<u8>) -> Option<usize> {
    if tag.len() == 1 && lower(tag[0]) == 114 {
        Some(4usize)
    } else if tag.len() == 2 && lower(tag[0]) == 112 && lower(tag[1]) == 115 {
        Some(0usize)
    } else if tag.len() == 2 && lower(tag[0]) == 100 && lower(tag[1]) == 115 {
        Some(1usize)
    } else if tag.len() == 2 && lower(tag[0]) == 115 && lower(tag[1]) == 112 {
        Some(2usize)
    } else if tag.len() == 2 && lower(tag[0]) == 100 && lower(tag[1]) == 112 {
        Some(3usize)
    } else {
        None
    }
}

/// The move that the text `b` names: the first word is the kind, the second
/// the card; what follows them is not read.
pub open spec fn spec_parse_move(b: Seq<u8>) -> Option<Move> {
    let a = scan(b, 0, false);
    let a_end = scan(b, a, true);
    let c = scan(b, a_end, false);
    let c_end = scan(b, c, true);
    match kind_named(b.subrange(a, a_end)) {
        Some(kind) => match card_named(b.subrange(c, c_end)) {
            Some(card) => Some(crate::movegen::spec_make_move(kind, card)),
            None => None,
        },
        None => None,
    }
}

fn to_lower(b: u8) -> (r: u8)
    ensures
        r == lower(b),
{
    if 65 <= b && b <= 90 {
        b + 32
    } else {
        b
    }
}

fn blank(b: u8) -> (r: bool)
    ensures
        r == is_blank(b),
{
    b == 32 || (9 <= b && b <= 13)
}

fn find(b: &[u8], from: usize, want_blank: bool) -> (r: usize)
    requires
        from <= b@.len(),
    ensures
        r == scan(b@, from as int, want_blank),
        from <= r <= b@.len(),
{
    let mut i = from;
    while i < b.len() && blank(b[i]) != want_blank
        invariant
            from <= i <= b@.len(),
            scan(b@, i as int, want_blank) == scan(b@, from as int, want_blank),
        decreases b@.len() - i,
    {
        i += 1;
    }
    i
}

fn find_back(b: &[u8], from: usize) -> (r: usize)
    requires
        from <= b@.len(),
    ensures
        r == scan_back(b@, from as int, b@.len() as int),
        from <= r <= b@.len(),
{
    let mut end = b.len();
    while end > from && blank(b[end - 1])
        invariant
            from <= end <= b@.len(),
            scan_back(b@, from as int, end as int) == scan_back(
                b@,
                from as int,
                b@.len() as int,
            ),
        decreases end,
    {
        end -= 1;
    }
    end
}

fn rank_of(b: &[u8], from: usize, to: usize) -> (r: Option<u8>)
    requires
        from <= to <= b@.len(),
    ensures
        r == rank_named(b@.subrange(from as int, to as int)),
        r.is_some() ==> r.unwrap() < 13,
{
    let ghost name = b@.subrange(from as int, to as int);
    if to - from == 1 {
        assert(name[0] == b@[from as int]);
        let c = to_lower(b[from]);
        if c == 97 {
            Some(0)
        } else if 50 <= c && c <= 57 {
            Some(c - 49)
        } else if c == 106 {
            Some(10)
        } else if c == 113 {
            Some(11)
        } else if c == 107 {
            Some(12)
        } else {
            None
        }
    } else if to - from == 2 {
        assert(name[0] == b@[from as int]);
        assert(name[1] == b@[from + 1]);
        if b[from] == 49 && b[from + 1] == 48 {
            Some(9)
        } else {
            None
        }
    } else {
        None
    }
}

fn suit_of(b: &[u8], from: usize, to: usize) -> (r: Option<(u8, usize)>)
    requires
        from <= to <= b@.len(),
    ensures
        match r {
            Some((suit, n)) => suit_at_end(b@.subrange(from as int, to as int)) == Some(
                (suit, n as int),
            ) && suit < 4 && 1 <= n <= to - from,
            None => suit_at_end(b@.subrange(from as int, to as int)).is_none(),
        },
{
    let ghost t = b@.subrange(from as int, to as int);
    let n = to - from;
    if n >= 1 {
        assert(t[n - 1] == b@[to - 1]);
        let c = to_lower(b[to - 1]);
        if c == 104 {
            return Some((0, 1));
        } else if c == 100 {
            return Some((1, 1));
        } else if c == 99 {
            return Some((2, 1));
        } else if c == 115 {
            return Some((3, 1));
        }
    }
    if n >= 3 {
        assert(t[n - 1] == b@[to - 1]);
        assert(t[n - 2] == b@[to - 2]);
        assert(t[n - 3] == b@[to - 3]);
        if b[to - 3] == 0xE2 && b[to - 2] == 0x99 {
            let last = b[to - 1];
            if last == 0xA5 {
                return Some((0, 3));
            } else if last == 0xA6 {
                return Some((1, 3));
            } else if last == 0xA3 {
                return Some((2, 3));
            } else if last == 0xA0 {
                return Some((3, 3));
            }
        }
    }
    None
}

fn card_of(b: &[u8], from: usize, to: usize) -> (r: Option<Card>)
    requires
        from <= to <= b@.len(),
    ensures
        r == card_named(b@.subrange(from as int, to as int)),
{
    let ghost t = b@.subrange(from as int, to as int);
    match suit_of(b, from, to) {
        Some((suit, n)) => {
            proof {
                assert(t.subrange(0, t.len() - n) =~= b@.subrange(from as int, to - n));
            }
            match rank_of(b, from, to - n) {
                Some(rank) => Some(Card::new(rank, suit)),
                None => None,
            }
        },
        None => None,
    }
}

fn kind_of(b: &[u8], from: usize, to: usize) -> (r: Option<usize>)
    requires
        from <= to <= b@.len(),
    ensures
        r == kind_named(b@.subrange(from as int, to as int)),
        r.is_some() ==> r.unwrap() < 5,
{
    let ghost tag = b@.subrange(from as int, to as int);
    if to - from == 1 {
        assert(tag[0] == b@[from as int]);
        if to_lower(b[from]) == 114 {
            Some(4)
        } else {
            None
        }
    } else if to - from == 2 {
        assert(tag[0] == b@[from as int]);
        assert(tag[1] == b@[from + 1]);
        let x = to_lower(b[from]);
        let y = to_lower(b[from + 1]);
        if x == 112 && y == 115 {
            Some(0)
        } else if x == 100 && y == 115 {
            Some(1)
        } else if x == 115 && y == 112 {
            Some(2)
        } else if x == 100 && y == 112 {
            Some(3)
        } else {
            None
        }
    } else {
        None
    }
}

/// The card that the text names: the name of a rank and the letter or the
/// symbol of a suit, as in `10h`, `Ks` or `A♥`.
pub fn parse_card_bytes(b: &[u8]) -> (r: Option<Card>)
    ensures
        r == spec_parse_card(b@),
{
    let from = find(b, 0, false);
    let to = find_back(b, from);
    card_of(b, from, to)
}

/// The move that the text names: a kind `DS`, `PS`, `DP`, `SP` or `R`, blanks,
/// and a card.
pub fn parse_move_bytes(b: &[u8]) -> (r: Option<Move>)
    ensures
        r == spec_parse_move(b@),
{
    let a = find(b, 0, false);
    let a_end = find(b, a, true);
    let c = find(b, a_end, false);
    let c_end = find(b, c, true);
    match kind_of(b, a, a_end) {
        Some(kind) => match card_of(b, c, c_end) {
            Some(card) => Some(crate::movegen::make_move(kind, card)),
            None => None,
        },
        None => None,
    }
}

/// [`parse_card_bytes`] on the bytes of `s`.
pub fn parse_card(s: &str) -> (r: Option<Card>)
    ensures
        r == spec_parse_card(s.spec_bytes()),
{
    parse_card_bytes(s.as_bytes())
}

/// [`parse_move_bytes`] on the bytes of `s`.
pub fn parse_move_str(s: &str) -> (r: Option<Move>)
    ensures
        r == spec_parse_move(s.spec_bytes()),
{
    parse_move_bytes(s.as_bytes())
}

} // verus!
