//! Reversing the order of the bits of a word, a byte at a time through a
//! table.

use vstd::prelude::*;
use vstd::arithmetic::power2::{
    pow2,
    lemma_pow2_unfold,
    lemma_pow2_strictly_increases,
    lemma2_to64,
};
use crate::branchless::usz;
use crate::word::{bit, lemma_single_bit_is_pow2};

verus! {

/// For each byte, the byte with the same bits in reverse order: entry
/// `0b0000_0001` is `0b1000_0000`.
pub const REVERSE_TABLE: [u32; 256] = [
      0, 128,  64, 192,  32, 160,  96, 224,
     16, 144,  80, 208,  48, 176, 112, 240,
      8, 136,  72, 200,  40, 168, 104, 232,
     24, 152,  88, 216,  56, 184, 120, 248,
      4, 132,  68, 196,  36, 164, 100, 228,
     20, 148,  84, 212,  52, 180, 116, 244,
     12, 140,  76, 204,  44, 172, 108, 236,
     28, 156,  92, 220,  60, 188, 124, 252,
      2, 130,  66, 194,  34, 162,  98, 226,
     18, 146,  82, 210,  50, 178, 114, 242,
     10, 138,  74, 202,  42, 170, 106, 234,
     26, 154,  90, 218,  58, 186, 122, 250,
      6, 134,  70, 198,  38, 166, 102, 230,
     22, 150,  86, 214,  54, 182, 118, 246,
     14, 142,  78, 206,  46, 174, 110, 238,
     30, 158,  94, 222,  62, 190, 126, 254,
      1, 129,  65, 193,  33, 161,  97, 225,
     17, 145,  81, 209,  49, 177, 113, 241,
      9, 137,  73, 201,  41, 169, 105, 233,
     25, 153,  89, 217,  57, 185, 121, 249,
      5, 133,  69, 197,  37, 165, 101, 229,
     21, 149,  85, 213,  53, 181, 117, 245,
     13, 141,  77, 205,  45, 173, 109, 237,
     29, 157,  93, 221,  61, 189, 125, 253,
      3, 131,  67, 195,  35, 163,  99, 227,
     19, 147,  83, 211,  51, 179, 115, 243,
     11, 139,  75, 203,  43, 171, 107, 235,
     27, 155,  91, 219,  59, 187, 123, 251,
      7, 135,  71, 199,  39, 167, 103, 231,
     23, 151,  87, 215,  55, 183, 119, 247,
     15, 143,  79, 207,  47, 175, 111, 239,
     31, 159,  95, 223,  63, 191, 127, 255,
];

/// The number whose `n` binary digits are the `n` lowest digits of `v` in
/// reverse order: the lowest digit of `v` has the weight `2^(n - 1)`.
pub open spec fn reversed(v: nat, n: nat) -> nat
    decreases n,
{
    if n == 0 {
        0
    } else {
        (v % 2) * pow2((n - 1) as nat) + reversed(v / 2, (n - 1) as nat)
    }
}

// The same on words, so that the bit-vector solver can unfold it.
spec fn reversed_steps(v: u32, n: u32) -> u32
    decreases n,
{
    if n == 0 {
        0
    } else {
        (((v % 2) << ((n - 1) as u32)) + reversed_steps(v / 2, (n - 1) as u32)) as u32
    }
}

proof fn lemma_reversed_steps(v: u32, n: u32)
    requires
        n <= 32,
    ensures
        reversed_steps(v, n) == reversed(v as nat, n as nat),
        reversed(v as nat, n as nat) < pow2(n as nat),
    decreases n,
{
    lemma2_to64();
    if n > 0 {
        let top = (n - 1) as u32;
        lemma_reversed_steps(v / 2, top);
        lemma_single_bit_is_pow2(top);
        lemma_pow2_unfold(n as nat);
        let digit = v % 2;
        assert(digit * pow2(top as nat) == if digit == 0 { 0 } else { pow2(top as nat) })
            by (nonlinear_arith)
            requires
                digit == 0 || digit == 1,
        ;
        vstd::bits::lemma_u32_shl_is_mul(digit, top);
        if n < 32 {
            lemma_pow2_strictly_increases(n as nat, 32);
        }
    }
}

// The four bits of `x` in reverse order, for `x` below 16.
spec fn reversed_nibble(x: u32) -> u32 {
    if x == 0 {
        0
    } else if x == 1 {
        8
    } else if x == 2 {
        4
    } else if x == 3 {
        12
    } else if x == 4 {
        2
    } else if x == 5 {
        10
    } else if x == 6 {
        6
    } else if x == 7 {
        14
    } else if x == 8 {
        1
    } else if x == 9 {
        9
    } else if x == 10 {
        5
    } else if x == 11 {
        13
    } else if x == 12 {
        3
    } else if x == 13 {
        11
    } else if x == 14 {
        7
    } else {
        15
    }
}

// A byte in reverse order: its two halves change places, each reversed.
spec fn swapped_nibbles(b: u32) -> u32 {
    (16 * reversed_nibble(b % 16) + reversed_nibble(b / 16)) as u32
}

// The table, entry by entry: the 16 values of each nibble of `b` make the 256
// cases.
proof fn lemma_table_swaps_nibbles(b: u32)
    requires
        b < 256,
    ensures
        REVERSE_TABLE[b as int] == swapped_nibbles(b),
{
}

proof fn lemma_swapped_nibbles(b: u32)
    by (bit_vector)
    requires
        b < 256,
    ensures
        swapped_nibbles(b) == reversed_steps(b, 8),
{
}

proof fn lemma_table_entry(b: u32)
    requires
        b < 256,
    ensures
        REVERSE_TABLE[b as int] == reversed_steps(b, 8),
{
    lemma_table_swaps_nibbles(b);
    lemma_swapped_nibbles(b);
}

/// Every entry of the table is its index with the 8 bits in reverse order.
pub proof fn lemma_reverse_table(b: u32)
    requires
        b < 256,
    ensures
        REVERSE_TABLE[b as int] == reversed(b as nat, 8),
{
    lemma_table_entry(b);
    lemma_reversed_steps(b, 8);
}

// Whether the `n` lowest bits of `r` are the `n` highest bits of `v` in
// reverse order.
spec fn mirrored_below(r: u32, v: u32, n: u32) -> bool
    decreases n,
{
    n == 0 || {
        let i = (n - 1) as u32;
        bit(r, i) == bit(v, (31 - i) as u32) && mirrored_below(r, v, i)
    }
}

proof fn lemma_mirrored_below(r: u32, v: u32, n: u32, i: u32)
    requires
        mirrored_below(r, v, n),
        i < n <= 32,
    ensures
        bit(r, i) == bit(v, (31 - i) as u32),
    decreases n,
{
    if i + 1 < n {
        lemma_mirrored_below(r, v, (n - 1) as u32, i);
    }
}

proof fn lemma_reversed_bytes(v: u32)
    by (bit_vector)
    ensures
        v & 0xff < 256,
        (v >> 8) & 0xff < 256,
        (v >> 16) & 0xff < 256,
        (v >> 24) & 0xff < 256,
        (reversed_steps(v & 0xff, 8) << 24)
            | (reversed_steps((v >> 8) & 0xff, 8) << 16)
            | (reversed_steps((v >> 16) & 0xff, 8) << 8)
            | reversed_steps((v >> 24) & 0xff, 8) == reversed_steps(v, 32),
        mirrored_below(reversed_steps(v, 32), v, 32),
{
}

/// Reverses the order of the 32 bits of `v`: bit `i` of the result is bit
/// `31 - i` of `v`. Each byte is reversed through the table, and the four
/// bytes change places.
pub fn reverse(v: u32) -> (r: u32)
    ensures
        r == reversed(v as nat, 32),
        forall|i: u32| i < 32 ==> #[trigger] bit(r, i) == bit(v, (31 - i) as u32),
{
    proof {
        lemma_reversed_bytes(v);
        lemma_table_entry(v & 0xff);
        lemma_table_entry((v >> 8) & 0xff);
        lemma_table_entry((v >> 16) & 0xff);
        lemma_table_entry((v >> 24) & 0xff);
        lemma_reversed_steps(v, 32);
        let mirror = reversed_steps(v, 32);
        assert forall|i: u32| i < 32 implies bit(mirror, i) == bit(v, (31 - i) as u32) by {
            lemma_mirrored_below(mirror, v, 32, i);
        }
    }
    (REVERSE_TABLE[usz(v & 0xff)] << 24)
        | (REVERSE_TABLE[usz((v >> 8) & 0xff)] << 16)
        | (REVERSE_TABLE[usz((v >> 16) & 0xff)] << 8)
        | REVERSE_TABLE[usz((v >> 24) & 0xff)]
}

/// Reversing twice gives the word back.
pub proof fn lemma_reversed_twice(v: u32)
    ensures
        reversed(reversed(v as nat, 32), 32) == v,
{
    lemma_reversed_steps(v, 32);
    lemma_reversed_steps(reversed_steps(v, 32), 32);
    lemma_reversed_steps_twice(v);
}

proof fn lemma_reversed_steps_twice(v: u32)
    by (bit_vector)
    ensures
        reversed_steps(reversed_steps(v, 32), 32) == v,
{
}

/// The word without a set bit is its own reverse.
pub proof fn lemma_reversed_zero(n: nat)
    ensures
        reversed(0, n) == 0,
    decreases n,
{
    if n > 0 {
        lemma_reversed_zero((n - 1) as nat);
        vstd::arithmetic::mul::lemma_mul_basics(pow2((n - 1) as nat) as int);
    }
}

} // verus!
