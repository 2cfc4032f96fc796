//! Bit mixers that spread the keys of states over a table.

use vstd::arithmetic::div_mod::{lemma_mul_mod_noop_general, lemma_small_mod};
use vstd::prelude::*;

verus! {

/// One round of a mixer: fold the high bits down, then multiply.
pub open spec fn fold_mul(h: u64, shift: u64, factor: u64) -> u64 {
    ((h ^ (h >> shift)) as int * factor as int % 0x1_0000_0000_0000_0000) as u64
}

/// A variant of the 64-bit finalizer of MurmurHash3, with shifts 31, 27, 33.
pub open spec fn spec_mix(h: u64) -> u64 {
    let a = fold_mul(h, 31, 0x7fb5_d329_728e_a185);
    let b = fold_mul(a, 27, 0x81da_def4_bc2d_d44d);
    b ^ (b >> 33)
}

/// The 64-bit finalizer of MurmurHash3, with shifts 33, 33, 33.
pub open spec fn spec_murmur64(h: u64) -> u64 {
    let a = fold_mul(h, 33, 0xff51_afd7_ed55_8ccd);
    let b = fold_mul(a, 33, 0xc4ce_b9fe_1a85_ec53);
    b ^ (b >> 33)
}

/// A short mixer: one multiplication between two folds.
pub open spec fn spec_fast_hash(h: u64) -> u64 {
    let a = fold_mul(h, 23, 0x2127_599b_f432_5c37);
    a ^ (a >> 47)
}

/// `v` turned right by `n` bits.
pub open spec fn turned_right(v: u64, n: u64) -> u64 {
    (v >> n) | (v << ((64 - n) as u64))
}

/// A mixer of two turns and two multiplications.
pub open spec fn spec_rrmxmx(v: u64) -> u64 {
    let a = v ^ turned_right(v, 49) ^ turned_right(v, 24);
    let b = (a as int * 0x9fb2_1c65_1e98_df25 % 0x1_0000_0000_0000_0000) as u64;
    let c = fold_mul(b, 28, 0x9fb2_1c65_1e98_df25);
    c ^ (c >> 28)
}

fn round(h: u64, shift: u32, factor: u64) -> (r: u64)
    requires
        shift < 64,
    ensures
        r == fold_mul(h, shift as u64, factor),
{
    let x = h ^ (h >> shift);
    x.wrapping_mul(factor)
}

/// The mixer that the searches use on the key of a state.
#[verifier::when_used_as_spec(spec_mix)]
pub fn mix(h: u64) -> (r: u64)
    ensures
        r == spec_mix(h),
{
    let a = round(h, 31, 0x7fb5_d329_728e_a185);
    let b = round(a, 27, 0x81da_def4_bc2d_d44d);
    b ^ (b >> 33)
}

#[verifier::when_used_as_spec(spec_murmur64)]
pub fn murmur64(h: u64) -> (r: u64)
    ensures
        r == spec_murmur64(h),
{
    let a = round(h, 33, 0xff51_afd7_ed55_8ccd);
    let b = round(a, 33, 0xc4ce_b9fe_1a85_ec53);
    b ^ (b >> 33)
}

#[verifier::when_used_as_spec(spec_fast_hash)]
pub fn fast_hash(h: u64) -> (r: u64)
    ensures
        r == spec_fast_hash(h),
{
    let a = round(h, 23, 0x2127_599b_f432_5c37);
    a ^ (a >> 47)
}

#[verifier::when_used_as_spec(spec_rrmxmx)]
pub fn rrmxmx(v: u64) -> (r: u64)
    ensures
        r == spec_rrmxmx(v),
{
    let a = v ^ ((v >> 49) | (v << 15)) ^ ((v >> 24) | (v << 40));
    let b = a.wrapping_mul(0x9fb2_1c65_1e98_df25);
    let c = round(b, 28, 0x9fb2_1c65_1e98_df25);
    c ^ (c >> 28)
}

/// Folding the high bits of a word down loses nothing.
proof fn lemma_fold_one_to_one(a: u64, b: u64)
    ensures
        (a ^ (a >> 31)) == (b ^ (b >> 31)) ==> a == b,
        (a ^ (a >> 27)) == (b ^ (b >> 27)) ==> a == b,
        (a ^ (a >> 33)) == (b ^ (b >> 33)) ==> a == b,
{
    assert((a ^ (a >> 31)) == (b ^ (b >> 31)) ==> a == b) by (bit_vector);
    assert((a ^ (a >> 27)) == (b ^ (b >> 27)) ==> a == b) by (bit_vector);
    assert((a ^ (a >> 33)) == (b ^ (b >> 33)) ==> a == b) by (bit_vector);
}

/// Multiplying by a factor that has an inverse modulo 2^64 loses nothing.
proof fn lemma_mul_one_to_one(x: u64, y: u64, factor: u64, inverse: u64)
    requires
        (factor as int * inverse as int) % 0x1_0000_0000_0000_0000 == 1,
        (x as int * factor as int) % 0x1_0000_0000_0000_0000 == (y as int * factor as int)
            % 0x1_0000_0000_0000_0000,
    ensures
        x == y,
{
    let m = 0x1_0000_0000_0000_0000int;
    let f = factor as int;
    let i = inverse as int;
    lemma_mul_back(x as int, f, i, m);
    lemma_mul_back(y as int, f, i, m);
}

/// Multiplying by a factor and then by its inverse gives a number back.
proof fn lemma_mul_back(x: int, f: int, i: int, m: int)
    requires
        0 <= x < m,
        (f * i) % m == 1,
    ensures
        (((x * f) % m) * i) % m == x,
{
    lemma_mul_mod_noop_general(x * f, i, m);
    assert(x * f * i == x * (f * i)) by (nonlinear_arith);
    lemma_mul_mod_noop_general(x, f * i, m);
    assert(x * 1 == x);
    lemma_small_mod(x as nat, m as nat);
}

/// No two keys are mixed to the same value.
pub proof fn lemma_mix_one_to_one(a: u64, b: u64)
    requires
        spec_mix(a) == spec_mix(b),
    ensures
        a == b,
{
    let a1 = fold_mul(a, 31, 0x7fb5_d329_728e_a185);
    let b1 = fold_mul(b, 31, 0x7fb5_d329_728e_a185);
    let a2 = fold_mul(a1, 27, 0x81da_def4_bc2d_d44d);
    let b2 = fold_mul(b1, 27, 0x81da_def4_bc2d_d44d);
    lemma_fold_one_to_one(a2, b2);
    assert(a2 == b2);
    lemma_mul_one_to_one(
        a1 ^ (a1 >> 27),
        b1 ^ (b1 >> 27),
        0x81da_def4_bc2d_d44d,
        0x4d6d_ff26_c61d_8485,
    );
    lemma_fold_one_to_one(a1, b1);
    assert(a1 == b1);
    lemma_mul_one_to_one(
        a ^ (a >> 31),
        b ^ (b >> 31),
        0x7fb5_d329_728e_a185,
        0x4c5f_f459_6f4a_2f4d,
    );
    lemma_fold_one_to_one(a, b);
}

} // verus!
