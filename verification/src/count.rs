//! Counting bits: how many are set, how many zeros stand below the lowest set
//! bit, and whether the number of set bits is odd.

use vstd::prelude::*;
use vstd::arithmetic::power2::{pow2, lemma_pow2_unfold, lemma_pow2_pos, lemma2_to64};
use crate::word::{unsigned, lemma_single_bit_is_pow2};

verus! {

/// The number of ones among the binary digits of `v`.
pub open spec fn bit_count(v: nat) -> nat
    decreases v,
{
    if v == 0 {
        0
    } else {
        v % 2 + bit_count(v / 2)
    }
}

/// How often 2 divides `v`; 0 for `v == 0`.
pub open spec fn twos_in(v: nat) -> nat
    decreases v,
{
    if v == 0 || v % 2 == 1 {
        0
    } else {
        1 + twos_in(v / 2)
    }
}

/// The number of zero bits below the lowest set bit of `v`; the full width,
/// 32, for the word without a set bit.
pub open spec fn trailing_zeros(v: u32) -> nat {
    if v == 0 {
        32
    } else {
        twos_in(v as nat)
    }
}

// The ones among the `n` lowest bits of `v`, on words, so that the bit-vector
// solver can unfold it.
pub(crate) open spec fn ones_below(v: u32, n: u32) -> u32
    decreases n,
{
    if n == 0 {
        0
    } else {
        ((v % 2) + ones_below(v / 2, (n - 1) as u32)) as u32
    }
}

// The zeros below the lowest set bit, looking at the `n` lowest bits only.
pub(crate) open spec fn zeros_below(v: u32, n: u32) -> u32
    decreases n,
{
    if n == 0 || v % 2 == 1 {
        0
    } else {
        (1 + zeros_below(v / 2, (n - 1) as u32)) as u32
    }
}

pub(crate) proof fn lemma_ones_below(v: u32, n: u32)
    requires
        n <= 32,
        v < pow2(n as nat),
    ensures
        ones_below(v, n) == bit_count(v as nat),
        ones_below(v, n) <= n,
    decreases n,
{
    if n > 0 {
        lemma_pow2_unfold(n as nat);
        lemma_ones_below(v / 2, (n - 1) as u32);
    } else {
        lemma2_to64();
    }
}

pub(crate) proof fn lemma_zeros_below(v: u32, n: u32)
    requires
        n <= 32,
        v < pow2(n as nat),
    ensures
        v != 0 ==> zeros_below(v, n) == twos_in(v as nat),
        v == 0 ==> zeros_below(v, n) == n,
        zeros_below(v, n) <= n,
    decreases n,
{
    if n > 0 {
        lemma_pow2_unfold(n as nat);
        lemma_zeros_below(v / 2, (n - 1) as u32);
    } else {
        lemma2_to64();
    }
}

// The stages of the parallel sum: every field of 2, 4, 8, 16 and at last 32
// bits holds the number of ones that `v` has in that field.
pub(crate) open spec fn pair_sums(v: u32) -> u32 {
    (v - ((v >> 1) & 0x5555_5555)) as u32
}

pub(crate) open spec fn nibble_sums(v: u32) -> u32 {
    (((pair_sums(v) >> 2) & 0x3333_3333) + (pair_sums(v) & 0x3333_3333)) as u32
}

pub(crate) open spec fn byte_sums(v: u32) -> u32 {
    (((nibble_sums(v) >> 4) + nibble_sums(v)) as u32) & 0x0F0F_0F0F
}

pub(crate) open spec fn half_sums(v: u32) -> u32 {
    (((byte_sums(v) >> 8) + byte_sums(v)) as u32) & 0x00FF_00FF
}

pub(crate) open spec fn word_sum(v: u32) -> u32 {
    (((half_sums(v) >> 16) + half_sums(v)) as u32) & 0x0000_FFFF
}

pub(crate) proof fn lemma_parallel_sums(v: u32)
    by (bit_vector)
    ensures
        (v >> 1) & 0x5555_5555 <= v,
        ((pair_sums(v) >> 2) & 0x3333_3333) + (pair_sums(v) & 0x3333_3333) <= u32::MAX,
        (nibble_sums(v) >> 4) + nibble_sums(v) <= u32::MAX,
        (byte_sums(v) >> 8) + byte_sums(v) <= u32::MAX,
        (half_sums(v) >> 16) + half_sums(v) <= u32::MAX,
        word_sum(v) == ones_below(v, 32),
{
}

/// Counts the set bits of `v` by summing neighbouring fields in parallel.
pub fn pop_count(v: u32) -> (r: u32)
    ensures
        r == bit_count(v as nat),
        r <= 32,
{
    proof {
        lemma_parallel_sums(v);
        lemma2_to64();
        lemma_ones_below(v, 32);
    }
    let pairs = v - ((v >> 1) & 0x5555_5555);
    let nibbles = ((pairs >> 2) & 0x3333_3333) + (pairs & 0x3333_3333);
    let bytes = ((nibbles >> 4) + nibbles) & 0x0F0F_0F0F;
    let halves = ((bytes >> 8) + bytes) & 0x00FF_00FF;
    ((halves >> 16) + halves) & 0x0000_FFFF
}

// One step of the search: where the bits under `mask` are all zero, drop them.
spec fn skip_zeros(v: u32, mask: u32, width: u32) -> u32 {
    if v & mask == 0 {
        v >> width
    } else {
        v
    }
}

spec fn skipped(v: u32, mask: u32, width: u32) -> u32 {
    if v & mask == 0 {
        width
    } else {
        0
    }
}

spec fn halving_search(v: u32) -> u32 {
    let v16 = skip_zeros(v, 0xffff, 16);
    let v8 = skip_zeros(v16, 0xff, 8);
    let v4 = skip_zeros(v8, 0xf, 4);
    let v2 = skip_zeros(v4, 0x3, 2);
    if v == 0 {
        32
    } else if v & 1 != 0 {
        0
    } else {
        (1 + skipped(v, 0xffff, 16) + skipped(v16, 0xff, 8) + skipped(v8, 0xf, 4)
            + skipped(v4, 0x3, 2) - (v2 & 1)) as u32
    }
}

proof fn lemma_halving_search(v: u32)
    by (bit_vector)
    ensures
        halving_search(v) == zeros_below(v, 32),
        skip_zeros(skip_zeros(skip_zeros(skip_zeros(v, 0xffff, 16), 0xff, 8), 0xf, 4), 0x3, 2) & 1
            <= 1,
{
}

/// Counts the zero bits below the lowest set bit of `v` by halving the range
/// in which that bit must lie. The word 0 has no set bit and gives 32.
pub fn count_trailing_zeros(v: u32) -> (c: u32)
    ensures
        c == trailing_zeros(v),
        c == 32 <==> v == 0,
        c <= 32,
{
    proof {
        lemma_halving_search(v);
        lemma2_to64();
        lemma_zeros_below(v, 32);
    }
    if v == 0 {
        return 32;
    }
    if v & 0x1 != 0 {
        return 0;
    }
    let mut v = v;
    let mut c: u32 = 1;
    if (v & 0xffff) == 0 {
        v >>= 16;
        c += 16;
    }
    if (v & 0xff) == 0 {
        v >>= 8;
        c += 8;
    }
    if (v & 0xf) == 0 {
        v >>= 4;
        c += 4;
    }
    if (v & 0x3) == 0 {
        v >>= 2;
        c += 2;
    }
    c - (v & 0x1)
}

// The word folded onto its lowest four bits: bit `i` of the result is the sum
// modulo 2 of the bits `i`, `i + 4`, .., `i + 28` of `v`.
spec fn folded(v: i32) -> i32 {
    let v = v ^ (v >> 16);
    let v = v ^ (v >> 8);
    let v = v ^ (v >> 4);
    v & 0xf
}

// The word whose bit `i` says whether `i` has an odd number of set bits, for
// `i` below 16.
const ODD_NIBBLES: i32 = 0x6996;

proof fn lemma_folded(v: i32)
    by (bit_vector)
    ensures
        0 <= folded(v) < 16,
        (ODD_NIBBLES >> (folded(v) as u32)) & 1 == word_sum(unsigned(v)) % 2,
{
}

/// The parity of `v`: 1 where the number of set bits is odd, 0 where it is
/// even. The sign bit counts like any other.
pub fn parity(v: i32) -> (r: i32)
    ensures
        r == bit_count(unsigned(v) as nat) % 2,
{
    proof {
        lemma_folded(v);
        lemma_parallel_sums(unsigned(v));
        lemma2_to64();
        lemma_ones_below(unsigned(v), 32);
    }
    let mut v = v;
    v ^= v >> 16;
    v ^= v >> 8;
    v ^= v >> 4;
    v &= 0xf;
    (ODD_NIBBLES >> (v as u32)) & 1
}

/// A power of two has one set bit.
pub proof fn lemma_bit_count_pow2(k: nat)
    ensures
        bit_count(pow2(k)) == 1,
    decreases k,
{
    lemma_pow2_pos(k);
    if k == 0 {
        lemma2_to64();
        assert(bit_count(1) == 1 + bit_count(0));
    } else {
        lemma_pow2_unfold(k);
        lemma_bit_count_pow2((k - 1) as nat);
    }
}

/// The number below a power of two, `2^k - 1`, has `k` set bits.
pub proof fn lemma_bit_count_below_pow2(k: nat)
    ensures
        bit_count((pow2(k) - 1) as nat) == k,
    decreases k,
{
    lemma_pow2_pos(k);
    if k == 0 {
        lemma2_to64();
    } else {
        lemma_pow2_unfold(k);
        lemma_bit_count_below_pow2((k - 1) as nat);
    }
}

/// 2 divides `2^k` exactly `k` times.
pub proof fn lemma_twos_in_pow2(k: nat)
    ensures
        twos_in(pow2(k)) == k,
    decreases k,
{
    lemma_pow2_pos(k);
    if k == 0 {
        lemma2_to64();
    } else {
        lemma_pow2_unfold(k);
        lemma_twos_in_pow2((k - 1) as nat);
    }
}

/// The word with bit `i` alone set has one set bit, and `i` zeros below it.
pub proof fn lemma_counts_of_single_bit(i: u32)
    requires
        i < 32,
    ensures
        bit_count((1u32 << i) as nat) == 1,
        trailing_zeros(1u32 << i) == i,
{
    lemma_single_bit_is_pow2(i);
    lemma_bit_count_pow2(i as nat);
    lemma_twos_in_pow2(i as nat);
}

/// The word with exactly the `i` lowest bits set has `i` set bits; where it is
/// not 0, no zero stands below its lowest set bit.
pub proof fn lemma_counts_of_low_bits(i: u32)
    requires
        i < 32,
    ensures
        bit_count(((1u32 << i) - 1) as nat) == i,
        i > 0 ==> trailing_zeros(((1u32 << i) - 1) as u32) == 0,
{
    lemma_single_bit_is_pow2(i);
    lemma_bit_count_below_pow2(i as nat);
    if i > 0 {
        lemma_pow2_unfold(i as nat);
    }
}

/// Where `v` is not 0, `trailing_zeros(v)` is the greatest `k` for which `2^k`
/// divides `v`: `2^k` divides it, and the quotient is odd.
pub proof fn lemma_trailing_zeros_divides(v: u32)
    requires
        v != 0,
    ensures
        trailing_zeros(v) < 32,
        v as nat % pow2(trailing_zeros(v)) == 0,
        (v as nat / pow2(trailing_zeros(v))) % 2 == 1,
{
    let k = trailing_zeros(v);
    lemma_twos_in_divides(v as nat);
    if k >= 32 {
        lemma2_to64();
        if k > 32 {
            vstd::arithmetic::power2::lemma_pow2_strictly_increases(32, k);
        }
        vstd::arithmetic::div_mod::lemma_small_mod(v as nat, pow2(k));
    }
}

proof fn lemma_twos_in_divides(v: nat)
    requires
        v != 0,
    ensures
        v % pow2(twos_in(v)) == 0,
        (v / pow2(twos_in(v))) % 2 == 1,
    decreases v,
{
    if v % 2 == 1 {
        lemma2_to64();
        assert(v / pow2(0) == v);
    } else {
        // with v == 2 * half and half == 2^k * q for an odd q, v == 2^(k + 1) * q
        let half = (v / 2) as int;
        let k = twos_in(v / 2);
        lemma_twos_in_divides(v / 2);
        lemma_pow2_unfold(k + 1);
        lemma_pow2_pos(k);
        let p = pow2(k) as int;
        let q = half / p;
        vstd::arithmetic::div_mod::lemma_fundamental_div_mod(half, p);
        assert(v == q * (2 * p) + 0) by (nonlinear_arith)
            requires
                v == 2 * half,
                half == p * q,
        ;
        vstd::arithmetic::div_mod::lemma_fundamental_div_mod_converse(v as int, 2 * p, q, 0);
        assert(pow2(twos_in(v)) == 2 * p);
    }
}

} // verus!
