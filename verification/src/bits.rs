//! Facts about single bits of machine words, each proved once by bit-blasting
//! and used wherever a bitboard is updated.

use vstd::prelude::*;
use vstd::std_specs::bits::{axiom_u64_trailing_zeros, u64_trailing_zeros};

verus! {

/// Bit `i` of `m` is set.
pub open spec fn bit32(m: u32, i: u32) -> bool {
    (m >> i) & 1 == 1
}

/// Bit `i` of `m` is set.
pub open spec fn bit64(m: u64, i: u64) -> bool {
    (m >> i) & 1 == 1
}

/// All bits of `m` from bit `n` upwards are clear.
pub open spec fn below32(m: u32, n: u32) -> bool {
    m >> n == 0
}

/// Flipping a bit changes that bit and no other, and flipping it again gives
/// the word back.
pub proof fn lemma_bit32_flip(m: u32, s: u32, t: u32)
    requires
        s < 32,
        t < 32,
    ensures
        bit32(m ^ (1u32 << s), t) == (bit32(m, t) != (s == t)),
        (m ^ (1u32 << s)) ^ (1u32 << s) == m,
        s < 24 && below32(m, 24) ==> below32(m ^ (1u32 << s), 24),
{
    assert(s < 32 && t < 32 ==> {
        &&& (((m ^ (1u32 << s)) >> t) & 1 == 1) == (((m >> t) & 1 == 1) != (s == t))
        &&& (m ^ (1u32 << s)) ^ (1u32 << s) == m
        &&& (s < 24 && (m >> 24) == 0 ==> ((m ^ (1u32 << s)) >> 24) == 0)
    }) by (bit_vector);
}

/// The word zero has no bit set.
pub proof fn lemma_bit32_zero(t: u32)
    ensures
        !bit32(0, t),
        below32(0, 24),
{
    assert(!(((0u32 >> t) & 1) == 1) && (0u32 >> 24) == 0) by (bit_vector);
}

/// How the bits of a word read after the usual updates.
pub proof fn lemma_bit64_ops(a: u64, b: u64, i: u64)
    requires
        i < 64,
    ensures
        bit64(a | b, i) == (bit64(a, i) || bit64(b, i)),
        bit64(a & b, i) == (bit64(a, i) && bit64(b, i)),
        bit64(a ^ b, i) == (bit64(a, i) != bit64(b, i)),
        bit64(!a, i) == !bit64(a, i),
        !bit64(0, i),
{
    assert(i < 64 ==> {
        &&& (((a | b) >> i) & 1 == 1) == (((a >> i) & 1 == 1) || ((b >> i) & 1 == 1))
        &&& (((a & b) >> i) & 1 == 1) == (((a >> i) & 1 == 1) && ((b >> i) & 1 == 1))
        &&& (((a ^ b) >> i) & 1 == 1) == (((a >> i) & 1 == 1) != ((b >> i) & 1 == 1))
        &&& (((!a) >> i) & 1 == 1) == !((a >> i) & 1 == 1)
        &&& !((0u64 >> i) & 1 == 1)
    }) by (bit_vector);
}

/// A word with one bit set reads as set at that bit and nowhere else.
pub proof fn lemma_bit64_single(j: u64, i: u64)
    requires
        i < 64,
        j < 64,
    ensures
        bit64(1u64 << j, i) == (i == j),
{
    assert(i < 64 && j < 64 ==> ((((1u64 << j) >> i) & 1 == 1) == (i == j))) by (bit_vector);
}

/// Testing a word against a one-bit word reads that bit.
pub proof fn lemma_bit64_test(a: u64, j: u64)
    requires
        j < 64,
    ensures
        (a & (1u64 << j) != 0) == bit64(a, j),
{
    assert(j < 64 ==> ((a & (1u64 << j) != 0) == ((a >> j) & 1 == 1))) by (bit_vector);
}

/// Two words with the same bits are the same word.
pub proof fn lemma_bit64_ext(a: u64, b: u64)
    requires
        forall|i: u64| i < 64 ==> bit64(a, i) == bit64(b, i),
    ensures
        a == b,
{
    let x = a ^ b;
    if x != 0 {
        axiom_u64_trailing_zeros(x);
        let t = u64_trailing_zeros(x) as u64;
        assert(bit64(x, t));
        lemma_bit64_ops(a, b, t);
        assert(bit64(a, t) == bit64(b, t));
        assert(false);
    }
    assert((a ^ b) == 0 ==> a == b) by (bit_vector);
}

/// How the bits of a word read after a shift by one or by four.
pub proof fn lemma_bit64_shifts(a: u64, i: u64)
    requires
        i < 64,
    ensures
        bit64(a >> 1, i) == (i < 63 && bit64(a, (i + 1) as u64)),
        bit64(a << 1, i) == (i >= 1 && bit64(a, (i - 1) as u64)),
        bit64(a >> 4, i) == (i < 60 && bit64(a, (i + 4) as u64)),
        bit64(a << 4, i) == (i >= 4 && bit64(a, (i - 4) as u64)),
{
    assert(i < 64 ==> {
        &&& (((a >> 1) >> i) & 1 == 1) == (i < 63 && ((a >> ((i + 1) as u64)) & 1 == 1))
        &&& (((a << 1) >> i) & 1 == 1) == (i >= 1 && ((a >> ((i - 1) as u64)) & 1 == 1))
        &&& (((a >> 4) >> i) & 1 == 1) == (i < 60 && ((a >> ((i + 4) as u64)) & 1 == 1))
        &&& (((a << 4) >> i) & 1 == 1) == (i >= 4 && ((a >> ((i - 4) as u64)) & 1 == 1))
    }) by (bit_vector);
}

/// The bits of the constant masks of the bitboard layout.
pub proof fn lemma_bit64_consts(i: u64)
    requires
        i < 64,
    ensures
        bit64(0x5555_5555_5555_5555, i) == (i % 2 == 0),
        bit64(0x000F_0000_0000_0000, i) == (48 <= i < 52),
        bit64(0x000F_FFFF_FFFF_FFFF, i) == (i < 52),
        bit64(0xFF, i) == (i < 8),
        (i ^ 1) == (if i % 2 == 0 {
            i + 1
        } else {
            i - 1
        }),
{
    assert(i < 64 ==> {
        &&& ((0x5555_5555_5555_5555u64 >> i) & 1 == 1) == (i % 2 == 0)
        &&& ((0x000F_0000_0000_0000u64 >> i) & 1 == 1) == (48 <= i < 52)
        &&& ((0x000F_FFFF_FFFF_FFFFu64 >> i) & 1 == 1) == (i < 52)
        &&& ((0xFFu64 >> i) & 1 == 1) == (i < 8)
        &&& (i ^ 1) == (if i % 2 == 0 {
            (i + 1) as u64
        } else {
            (i - 1) as u64
        })
    }) by (bit_vector);
}

/// Clearing a bit that is set makes a word smaller.
pub proof fn lemma_bit64_clear_less(a: u64, i: u64)
    requires
        i < 64,
        bit64(a, i),
    ensures
        a ^ (1u64 << i) < a,
        a != 0,
{
    assert(i < 64 && ((a >> i) & 1 == 1) ==> (a ^ (1u64 << i)) < a && a != 0) by (bit_vector);
}

/// Number of bits that are set in `m`: the lowest one, and those of what is
/// left when it is cleared.
pub open spec fn count_ones(m: u64) -> nat
    decreases m,
    via lemma_count_ones_decreases
{
    if m == 0 {
        0
    } else {
        1 + count_ones(m & ((m - 1) as u64))
    }
}

#[via_fn]
proof fn lemma_count_ones_decreases(m: u64) {
    if m != 0 {
        lemma_clear_lowest(m);
    }
}

/// Clearing the lowest bit that is set makes a word smaller.
pub proof fn lemma_clear_lowest(m: u64)
    requires
        m != 0,
    ensures
        m & ((m - 1) as u64) < m,
{
    assert(m != 0 ==> (m & ((m - 1) as u64)) < m) by (bit_vector);
}

/// Number of bits that are set in `m`.
pub fn popcount(m: u64) -> (n: u64)
    ensures
        n == count_ones(m),
{
    let mut rest = m;
    let mut n: u64 = 0;
    while rest != 0
        invariant
            n + count_ones(rest) == count_ones(m),
            n + rest <= m,
        decreases rest,
    {
        proof {
            lemma_clear_lowest(rest);
        }
        rest = rest & (rest - 1);
        n += 1;
    }
    n
}

} // verus!
