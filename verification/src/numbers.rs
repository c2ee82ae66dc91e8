//! What the bytes of a number come to.

use vstd::arithmetic::power2::{
    lemma2_to64, lemma2_to64_rest, lemma_pow2_adds, lemma_pow2_strictly_increases, pow2,
};
use vstd::bits::{lemma_u32_shl_is_mul, lemma_u64_shl_is_mul};
use vstd::prelude::*;

use crate::wire::{var_bits_u32, var_bits_u64};

verus! {

/// The first `n` bytes of `s` as the digits of a number to the base 128, the lowest first; the
/// highest bit of a byte does not count.
pub open spec fn base_128(s: Seq<u8>, n: nat) -> nat
    decreases n,
{
    if n == 0 {
        0
    } else {
        base_128(s, (n - 1) as nat) + (s[n - 1] % 128) as nat * pow2((7 * (n - 1)) as nat)
    }
}

/// A digit more: the bits of the number so far and those of the digit do not meet.
proof fn lemma_digit_u64(x: u64, b: u8, k: u64)
    requires
        k <= 56,
        x < pow2(k as nat),
    ensures
        x | (((b & 0x7f) as u64) << k) == x + (b % 128) * pow2(k as nat),
        x + (b % 128) * pow2(k as nat) < pow2((k + 7) as nat),
{
    let one = 1u64;
    let d = (b % 128) as u64;
    lemma_pow2_strictly_increases(k as nat, 63);
    lemma2_to64();
    lemma2_to64_rest();
    lemma_pow2_adds(k as nat, 7);
    assert(d * pow2(k as nat) <= 127 * pow2(k as nat)) by (nonlinear_arith)
        requires
            d <= 127,
    ;
    assert(pow2(k as nat) * 128 <= pow2(63)) by {
        if k < 56 {
            lemma_pow2_strictly_increases((k + 7) as nat, 63);
        }
    }
    lemma_u64_shl_is_mul(one, k);
    lemma_u64_shl_is_mul(d, k);
    assert((b & 0x7f) as u64 == (b % 128) as u64) by (bit_vector);
    assert(x | (d << k) == x + (d << k)) by (bit_vector)
        requires
            k <= 56,
            d < 128,
            x < (1u64 << k),
    ;
    assert(x + d * pow2(k as nat) < pow2(k as nat) * 128);
}

/// A 64-bit number of at most nine bytes is what its digits come to.
pub proof fn law_wide_numbers_are_to_the_base_128(s: Seq<u8>, n: nat)
    requires
        n <= s.len(),
        n <= 9,
    ensures
        var_bits_u64(s, n) == base_128(s, n),
        base_128(s, n) < pow2(7 * n),
    decreases n,
{
    lemma2_to64();
    if n > 0 {
        law_wide_numbers_are_to_the_base_128(s, (n - 1) as nat);
        let k = (7 * (n - 1)) as u64;
        lemma_digit_u64(var_bits_u64(s, (n - 1) as nat), s[n - 1], k);
    }
}

proof fn lemma_digit_u32(x: u32, b: u8, k: u32)
    requires
        k <= 21,
        x < pow2(k as nat),
    ensures
        x | (((b & 0x7f) as u32) << k) == x + (b % 128) * pow2(k as nat),
        x + (b % 128) * pow2(k as nat) < pow2((k + 7) as nat),
{
    let one = 1u32;
    let d = (b % 128) as u32;
    lemma2_to64();
    lemma_pow2_adds(k as nat, 7);
    assert(d * pow2(k as nat) <= 127 * pow2(k as nat)) by (nonlinear_arith)
        requires
            d <= 127,
    ;
    assert(pow2(k as nat) * 128 <= pow2(28)) by {
        if k < 21 {
            lemma_pow2_strictly_increases((k + 7) as nat, 28);
        }
    }
    lemma_u32_shl_is_mul(one, k);
    lemma_u32_shl_is_mul(d, k);
    assert((b & 0x7f) as u32 == (b % 128) as u32) by (bit_vector);
    assert(x | (d << k) == x + (d << k)) by (bit_vector)
        requires
            k <= 21,
            d < 128,
            x < (1u32 << k),
    ;
    assert(x + d * pow2(k as nat) < pow2(k as nat) * 128);
}

/// A 32-bit number of at most four bytes is what its digits come to.
pub proof fn law_numbers_are_to_the_base_128(s: Seq<u8>, n: nat)
    requires
        n <= s.len(),
        n <= 4,
    ensures
        var_bits_u32(s, n) == base_128(s, n),
        base_128(s, n) < pow2(7 * n),
    decreases n,
{
    lemma2_to64();
    if n > 0 {
        law_numbers_are_to_the_base_128(s, (n - 1) as nat);
        let k = (7 * (n - 1)) as u32;
        lemma_digit_u32(var_bits_u32(s, (n - 1) as nat), s[n - 1], k);
    }
}

} // verus!
