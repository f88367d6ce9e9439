//! The two readings of a 32-bit word: as a number, and as a row of 32 bits.

use vstd::prelude::*;
use vstd::arithmetic::power2::{pow2, lemma_pow2_pos, lemma_pow2_strictly_increases, lemma2_to64};
use vstd::bits::{lemma_u32_shr_is_div, lemma_u32_shl_is_mul, lemma_u32_pow2_no_overflow};

verus! {

/// Number of bits in a word.
pub const INT_BITS: i32 = 32;

/// Largest signed word.
pub const INT_MAX: i32 = 0x7fff_ffff;

/// Smallest signed word: the sign bit alone.
pub const INT_MIN: i32 = -0x8000_0000;

/// The smallest signed word is the largest with every bit flipped.
pub proof fn lemma_int_min_is_complement()
    ensures
        INT_MIN == !INT_MAX,
        INT_MIN == i32::MIN,
        INT_MAX == i32::MAX,
{
    assert(!0x7fff_ffffi32 == -0x8000_0000i32) by (bit_vector);
}

/// Bit `i` of `v`, bit 0 being the least significant. From position 32 on no
/// bit is set.
pub open spec fn bit(v: u32, i: u32) -> bool {
    (v >> i) & 1 == 1
}

/// The unsigned word that has the same 32 bits as the two's-complement word `v`.
pub open spec fn unsigned(v: i32) -> u32 {
    if v >= 0 {
        v as u32
    } else {
        (v + 0x1_0000_0000) as u32
    }
}

/// Bit `i` is the binary digit of weight `2^i`.
pub proof fn lemma_bit_is_binary_digit(v: u32, i: u32)
    requires
        i < 32,
    ensures
        bit(v, i) <==> (v as nat / pow2(i as nat)) % 2 == 1,
{
    let shifted = v >> i;
    assert(shifted & 1 == shifted % 2) by (bit_vector);
    lemma_u32_shr_is_div(v, i);
}

spec fn agree_below(a: u32, b: u32, n: u32) -> bool
    decreases n,
{
    n == 0 || (bit(a, (n - 1) as u32) == bit(b, (n - 1) as u32) && agree_below(a, b, (n - 1) as u32))
}

proof fn lemma_agree_below(a: u32, b: u32, n: u32)
    requires
        n <= 32,
        forall|i: u32| i < n ==> bit(a, i) == bit(b, i),
    ensures
        agree_below(a, b, n),
    decreases n,
{
    if n > 0 {
        lemma_agree_below(a, b, (n - 1) as u32);
    }
}

proof fn lemma_agreeing_words(a: u32, b: u32)
    by (bit_vector)
    requires
        agree_below(a, b, 32),
    ensures
        a == b,
{
}

/// Two words with the same 32 bits are the same word.
pub proof fn lemma_equal_bits(a: u32, b: u32)
    requires
        forall|i: u32| i < 32 ==> #[trigger] bit(a, i) == bit(b, i),
    ensures
        a == b,
{
    lemma_agree_below(a, b, 32);
    lemma_agreeing_words(a, b);
}

/// The word with bit `i` alone set is `2^i`; below the sign bit the signed
/// word is the same number.
pub proof fn lemma_single_bit_is_pow2(i: u32)
    requires
        i < 32,
    ensures
        1u32 << i == pow2(i as nat),
        i < 31 ==> 1i32 << i == pow2(i as nat),
        0 < pow2(i as nat) <= 0x8000_0000,
{
    lemma_u32_pow2_no_overflow(i as nat);
    lemma_u32_shl_is_mul(1, i);
    lemma2_to64();
    if i < 31 {
        lemma_pow2_strictly_increases(i as nat, 31);
        assert(1i32 << i == 1u32 << i) by (bit_vector)
            requires
                i < 31,
        ;
    }
    lemma_pow2_pos(i as nat);
}

} // verus!
