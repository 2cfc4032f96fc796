//! Cards as small integers, and the bitboard layout that the engine's
//! shift-and-mask arithmetic relies on.

use crate::bits::{bit64, lemma_bit64_ext, lemma_bit64_ops, lemma_bit64_single, lemma_bit64_test};
use vstd::prelude::*;
use vstd::string::StringExecFns;
use vstd::std_specs::bits::{axiom_u64_trailing_zeros, u64_trailing_zeros};

verus! {

pub const N_SUITS: u8 = 4;

pub const N_RANKS: u8 = 13;

pub const N_CARDS: u8 = 52;

pub const KING_RANK: u8 = 12;

/// Every second bit of a bitboard: one bit for each pair of same-coloured suits.
pub const ALT_MASK: u64 = 0x5555_5555_5555_5555;

/// The bits of the four kings.
pub const KING_MASK: u64 = 0x000F_0000_0000_0000;

/// A card is the integer `rank * 4 + suit`. Bit 1 of the suit is the colour,
/// bit 0 tells the two suits of a colour apart. Rank 0 is the ace, rank 12 the
/// king; rank 13 belongs to the sentinel [`Card::fake`].
#[derive(Debug, Clone, Copy, PartialEq, Eq, Structural)]
pub struct Card(pub u8);

/// Position of the card with value `v` on a bitboard: on odd ranks the colour
/// bit is flipped, so that a card and the cards it may be stacked on occupy the
/// same columns of neighbouring nibbles.
pub open spec fn mask_index(v: u8) -> u8 {
    v ^ ((v >> 1) & 2)
}

/// The bitboard bit of card `c`, for `c.0 < 64`.
pub open spec fn mask_of(c: Card) -> u64 {
    1u64 << (mask_index(c.0) as u64)
}

impl Card {
    /// Sentinel one rank above the kings.
    pub open spec fn spec_fake() -> Card {
        Card(52)
    }

    /// Sentinel one rank above the kings.
    #[verifier::when_used_as_spec(spec_fake)]
    pub fn fake() -> (c: Card)
        ensures
            c == Card::spec_fake(),
    {
        Card(52)
    }

    /// A real card: one of the 52 values.
    pub open spec fn is_real(self) -> bool {
        self.0 < N_CARDS
    }

    pub open spec fn spec_rank(&self) -> u8 {
        self.0 / N_SUITS
    }

    pub open spec fn spec_suit(&self) -> u8 {
        self.0 % N_SUITS
    }

    /// `self` is one rank above `other` and of the other colour, or `self` is
    /// the sentinel and `other` a king.
    pub open spec fn spec_go_before(&self, other: &Card) -> bool {
        self.spec_rank() == other.spec_rank() + 1 && ((self.spec_suit() ^ other.spec_suit()) & 2 == 2
            || self.spec_rank() == N_RANKS)
    }

    #[must_use]
    pub fn new(rank: u8, suit: u8) -> (c: Card)
        requires
            rank <= N_RANKS,
            suit < N_SUITS,
        ensures
            c.0 == rank * N_SUITS + suit,
            c.spec_rank() == rank,
            c.spec_suit() == suit,
    {
        Card(rank * N_SUITS + suit)
    }

    #[must_use]
    pub fn from_value(value: u8) -> (c: Card)
        ensures
            c.0 == value,
    {
        Card(value)
    }

    #[must_use]
    #[verifier::when_used_as_spec(spec_rank)]
    pub fn rank(&self) -> (r: u8)
        ensures
            r == self.spec_rank(),
    {
        self.0 / N_SUITS
    }

    #[must_use]
    #[verifier::when_used_as_spec(spec_suit)]
    pub fn suit(&self) -> (s: u8)
        ensures
            s == self.spec_suit(),
    {
        self.0 % N_SUITS
    }

    #[must_use]
    pub fn value(&self) -> (v: u8)
        ensures
            v == self.0,
    {
        self.0
    }

    #[must_use]
    pub fn split(&self) -> (p: (u8, u8))
        ensures
            p.0 == self.spec_rank(),
            p.1 == self.spec_suit(),
    {
        (self.rank(), self.suit())
    }

    /// The other suit of the same colour and rank.
    #[must_use]
    pub fn swap_suit(&self) -> (c: Card)
        ensures
            c.0 == self.0 ^ 1,
            c.spec_rank() == self.spec_rank(),
            c.spec_suit() == self.spec_suit() ^ 1,
    {
        proof {
            lemma_xor_low_bits(self.0, 1);
        }
        Card(self.0 ^ 1)
    }

    /// The same rank in the other colour.
    #[must_use]
    pub fn swap_color(&self) -> (c: Card)
        ensures
            c.0 == self.0 ^ 2,
            c.spec_rank() == self.spec_rank(),
            c.spec_suit() == self.spec_suit() ^ 2,
    {
        proof {
            lemma_xor_low_bits(self.0, 2);
        }
        Card(self.0 ^ 2)
    }

    /// One rank down in the same suit; an ace stays an ace of some suit.
    #[must_use]
    pub fn reduce_rank(&self) -> (c: Card)
        ensures
            self.0 >= N_SUITS ==> c.0 == self.0 - N_SUITS && c.spec_rank() == self.spec_rank() - 1
                && c.spec_suit() == self.spec_suit(),
            self.0 < N_SUITS ==> c.0 == 0,
    {
        Card(self.0.saturating_sub(N_SUITS))
    }

    #[must_use]
    #[verifier::when_used_as_spec(spec_go_before)]
    pub fn go_before(&self, other: &Card) -> (b: bool)
        ensures
            b == self.spec_go_before(other),
    {
        let card_a = self.split();
        let card_b = other.split();
        card_a.0 == card_b.0 + 1 && ((card_a.1 ^ card_b.1) & 2 == 2 || card_a.0 == N_RANKS)
    }

    /// The card as a deck listing writes it: in double quotes, the name of the
    /// rank and the letter of the suit, in lower case if `LOWER`.
    pub fn print_solvitaire<const LOWER: bool>(&self) -> (s: String)
        requires
            self.is_real(),
        ensures
            s@ == "\""@ + rank_text(self.spec_rank()) + suit_text(self.spec_suit(), LOWER) + "\""@,
    {
        let mut s = String::from_str("\"");
        s.append(rank_name(self.rank()));
        s.append(suit_name(self.suit(), LOWER));
        s.append("\"");
        s
    }

    /// The letter of a suit as a deck listing writes it: `H`, `D`, `C`, `S`,
    /// in lower case if `LOWER`.
    #[must_use]
    pub fn suit_letter<const LOWER: bool>(&self) -> (ch: char)
        ensures
            ch == spec_suit_letter(self.spec_suit(), LOWER),
    {
        let s = self.suit();
        if LOWER {
            if s == 0 {
                'h'
            } else if s == 1 {
                'd'
            } else if s == 2 {
                'c'
            } else {
                's'
            }
        } else {
            if s == 0 {
                'H'
            } else if s == 1 {
                'D'
            } else if s == 2 {
                'C'
            } else {
                'S'
            }
        }
    }
}

/// The name of a rank: `A`, `2` to `10`, `J`, `Q`, `K`.
pub open spec fn rank_text(rank: u8) -> Seq<char> {
    if rank == 0 {
        "A"@
    } else if rank == 1 {
        "2"@
    } else if rank == 2 {
        "3"@
    } else if rank == 3 {
        "4"@
    } else if rank == 4 {
        "5"@
    } else if rank == 5 {
        "6"@
    } else if rank == 6 {
        "7"@
    } else if rank == 7 {
        "8"@
    } else if rank == 8 {
        "9"@
    } else if rank == 9 {
        "10"@
    } else if rank == 10 {
        "J"@
    } else if rank == 11 {
        "Q"@
    } else {
        "K"@
    }
}

/// The letter of a suit as text.
pub open spec fn suit_text(suit: u8, lower: bool) -> Seq<char> {
    if lower {
        if suit == 0 {
            "h"@
        } else if suit == 1 {
            "d"@
        } else if suit == 2 {
            "c"@
        } else {
            "s"@
        }
    } else {
        if suit == 0 {
            "H"@
        } else if suit == 1 {
            "D"@
        } else if suit == 2 {
            "C"@
        } else {
            "S"@
        }
    }
}

/// The name of a rank.
pub fn rank_name(rank: u8) -> (s: &'static str)
    ensures
        s@ == rank_text(rank),
{
    if rank == 0 {
        "A"
    } else if rank == 1 {
        "2"
    } else if rank == 2 {
        "3"
    } else if rank == 3 {
        "4"
    } else if rank == 4 {
        "5"
    } else if rank == 5 {
        "6"
    } else if rank == 6 {
        "7"
    } else if rank == 7 {
        "8"
    } else if rank == 8 {
        "9"
    } else if rank == 9 {
        "10"
    } else if rank == 10 {
        "J"
    } else if rank == 11 {
        "Q"
    } else {
        "K"
    }
}

fn suit_name(suit: u8, lower: bool) -> (s: &'static str)
    ensures
        s@ == suit_text(suit, lower),
{
    if lower {
        if suit == 0 {
            "h"
        } else if suit == 1 {
            "d"
        } else if suit == 2 {
            "c"
        } else {
            "s"
        }
    } else {
        if suit == 0 {
            "H"
        } else if suit == 1 {
            "D"
        } else if suit == 2 {
            "C"
        } else {
            "S"
        }
    }
}

pub open spec fn spec_suit_letter(suit: u8, lower: bool) -> char {
    if lower {
        if suit == 0 {
            'h'
        } else if suit == 1 {
            'd'
        } else if suit == 2 {
            'c'
        } else {
            's'
        }
    } else {
        if suit == 0 {
            'H'
        } else if suit == 1 {
            'D'
        } else if suit == 2 {
            'C'
        } else {
            'S'
        }
    }
}

/// Flipping bits below bit 2 keeps the rank and flips the same bits of the suit.
pub proof fn lemma_xor_low_bits(v: u8, b: u8)
    requires
        b < 4,
    ensures
        (v ^ b) / 4 == v / 4,
        (v ^ b) % 4 == (v % 4) ^ b,
{
    assert(b < 4 ==> (v ^ b) / 4 == v / 4 && (v ^ b) % 4 == (v % 4) ^ b) by (bit_vector);
}

/// The bitboard position is an involution on values below 64, and keeps ranks.
pub proof fn lemma_mask_index(v: u8)
    requires
        v < 64,
    ensures
        mask_index(v) < 64,
        mask_index(mask_index(v)) == v,
        mask_index(v) / 4 == v / 4,
        v < 56 <==> mask_index(v) < 56,
        v < 52 <==> mask_index(v) < 52,
{
    assert(v < 64 ==> (v ^ ((v >> 1) & 2)) < 64 && ((v ^ ((v >> 1) & 2)) ^ (((v ^ ((v >> 1) & 2))
        >> 1) & 2)) == v && (v ^ ((v >> 1) & 2)) / 4 == v / 4) by (bit_vector);
}

/// A word with one bit set has that bit's position as its count of trailing zeros.
pub proof fn lemma_trailing_zeros_of_bit(i: u64)
    requires
        i < 64,
    ensures
        u64_trailing_zeros(1u64 << i) == i,
{
    let x = 1u64 << i;
    axiom_u64_trailing_zeros(x);
    let t = u64_trailing_zeros(x) as u64;
    assert(i < 64 ==> (1u64 << i) != 0 && ((1u64 << i) >> i) & 1 == 1) by (bit_vector);
    assert(t < 64 && i < 64 && ((1u64 << i) >> t) & 1 == 1 ==> t == i) by (bit_vector);
}

/// The bitboard bit of a card.
#[must_use]
pub fn card_mask(c: &Card) -> (m: u64)
    requires
        c.0 < 64,
    ensures
        m == mask_of(*c),
        m != 0,
{
    let v = c.value();
    proof {
        lemma_mask_index(v);
        let i = mask_index(v) as u64;
        assert(i < 64 ==> (1u64 << i) != 0) by (bit_vector);
    }
    1u64 << (v ^ ((v >> 1) & 2))
}

/// The card of the lowest bit that is set in `v`.
#[must_use]
pub fn from_mask(v: &u64) -> (c: Card)
    requires
        u64_trailing_zeros(*v) < 56,
    ensures
        c.0 == mask_index(u64_trailing_zeros(*v) as u8),
        c.0 < 56,
{
    let t = v.trailing_zeros() as u8;
    proof {
        lemma_mask_index(t);
    }
    let i = t ^ ((t >> 1) & 2);
    Card::new(i / N_SUITS, i % N_SUITS)
}

/// Each card is recovered from its own bitboard bit.
pub proof fn lemma_from_mask_of_card(c: Card)
    requires
        c.0 < 56,
    ensures
        u64_trailing_zeros(mask_of(c)) == mask_index(c.0),
        mask_index(u64_trailing_zeros(mask_of(c)) as u8) == c.0,
{
    lemma_mask_index(c.0);
    lemma_trailing_zeros_of_bit(mask_index(c.0) as u64);
}

/// The bitboard `m` has the bit of card `c`.
pub open spec fn in_mask(m: u64, c: Card) -> bool {
    bit64(m, mask_index(c.0) as u64)
}

/// Membership of a card in a bitboard after the usual updates.
pub proof fn lemma_in_mask_ops(a: u64, b: u64, c: Card)
    requires
        c.0 < 64,
    ensures
        in_mask(a | b, c) == (in_mask(a, c) || in_mask(b, c)),
        in_mask(a & b, c) == (in_mask(a, c) && in_mask(b, c)),
        in_mask(a ^ b, c) == (in_mask(a, c) != in_mask(b, c)),
        in_mask(!a, c) == !in_mask(a, c),
        !in_mask(0, c),
{
    lemma_mask_index(c.0);
    lemma_bit64_ops(a, b, mask_index(c.0) as u64);
}

/// The bit of a card is the bit of no other card.
pub proof fn lemma_in_mask_single(x: Card, c: Card)
    requires
        x.0 < 64,
        c.0 < 64,
    ensures
        in_mask(mask_of(x), c) == (x == c),
        mask_of(x) != 0,
{
    lemma_mask_index(c.0);
    lemma_mask_index(x.0);
    lemma_bit64_single(mask_index(x.0) as u64, mask_index(c.0) as u64);
    let i = mask_index(x.0) as u64;
    assert(i < 64 ==> (1u64 << i) != 0) by (bit_vector);
}

/// Masking with the bit of a card tests membership.
pub proof fn lemma_in_mask_test(a: u64, c: Card)
    requires
        c.0 < 64,
    ensures
        (a & mask_of(c) != 0) == in_mask(a, c),
{
    lemma_mask_index(c.0);
    lemma_bit64_test(a, mask_index(c.0) as u64);
}

/// Bitboards with the same members are equal.
pub proof fn lemma_mask_ext(a: u64, b: u64)
    requires
        forall|c: Card| c.0 < 64 ==> #[trigger] in_mask(a, c) == in_mask(b, c),
    ensures
        a == b,
{
    assert forall|i: u64| i < 64 implies bit64(a, i) == bit64(b, i) by {
        let c = Card(mask_index(i as u8));
        lemma_mask_index(i as u8);
        assert(in_mask(a, c) == in_mask(b, c));
    }
    lemma_bit64_ext(a, b);
}

/// The other card of the rank and colour of `c`.
pub open spec fn partner(c: Card) -> Card {
    Card(c.0 ^ 1)
}

/// A card that `c` may lie on in the tableau: one rank up, in the other colour.
pub open spec fn below(c: Card) -> Card {
    Card(((c.0 + 4) as u8) ^ 2)
}

/// A card that may lie on `c` in the tableau: one rank down, in the other
/// colour.
pub open spec fn above(c: Card) -> Card {
    Card(((c.0 - 4) as u8) ^ 2)
}

/// On the bitboard the two cards of a rank and colour are neighbours, and a
/// card lies four bits below the cards that it may lie on.
pub proof fn lemma_mask_neighbours(c: Card)
    requires
        c.0 < 64,
    ensures
        partner(c).0 < 64,
        mask_index(partner(c).0) == mask_index(c.0) ^ 1,
        partner(c).spec_rank() == c.spec_rank(),
        partner(partner(c)) == c,
        partner(c) != c,
        c.0 < 60 ==> below(c).0 < 64 && mask_index(below(c).0) == mask_index(c.0) + 4 && below(
            c,
        ).spec_rank() == c.spec_rank() + 1 && above(below(c)) == c && below(partner(c)) == partner(
            below(c),
        ),
        c.0 >= 4 ==> above(c).0 < 60 && mask_index(above(c).0) == mask_index(c.0) - 4 && above(
            c,
        ).spec_rank() == c.spec_rank() - 1 && below(above(c)) == c && above(partner(c)) == partner(
            above(c),
        ),
        c.0 < 4 <==> mask_index(c.0) < 4,
{
    let v = c.0;
    assert(v < 64 ==> (v ^ 1) < 64 && ((v ^ 1) ^ (((v ^ 1) >> 1) & 2)) == (v ^ ((v >> 1) & 2)) ^ 1
        && (v ^ 1) / 4 == v / 4 && (v ^ 1) ^ 1 == v && (v ^ 1) != v) by (bit_vector);
    assert(v < 60 ==> (((v + 4) as u8) ^ 2) < 64 && ((((v + 4) as u8) ^ 2) ^ (((((v + 4) as u8) ^ 2)
        >> 1) & 2)) == (v ^ ((v >> 1) & 2)) + 4 && (((v + 4) as u8) ^ 2) / 4 == v / 4 + 1 && ((((((v
        + 4) as u8) ^ 2) - 4) as u8) ^ 2) == v && ((((v ^ 1) + 4) as u8) ^ 2) == ((((v + 4) as u8) ^ 2)
        ^ 1)) by (bit_vector);
    assert(4 <= v < 64 ==> (((v - 4) as u8) ^ 2) < 60 && ((((v - 4) as u8) ^ 2) ^ (((((v - 4) as u8)
        ^ 2) >> 1) & 2)) == (v ^ ((v >> 1) & 2)) - 4 && (((v - 4) as u8) ^ 2) / 4 == v / 4 - 1 && ((
    (((((v - 4) as u8) ^ 2) + 4) as u8)) ^ 2) == v && ((((v ^ 1) - 4) as u8) ^ 2) == ((((v - 4) as u8)
        ^ 2) ^ 1)) by (bit_vector);
    lemma_mask_index(v);
}

} // verus!
