//! Powers of two and logarithms: the test for a power of two, rounding up and
//! down to one, and the integer logarithms to the bases 2 and 10.

use vstd::prelude::*;
use vstd::arithmetic::power2::{
    pow2,
    lemma_pow2_unfold,
    lemma_pow2_pos,
    lemma_pow2_strictly_increases,
    lemma2_to64,
};
use crate::branchless::{bi32, bu32, flag};
use crate::count::{zeros_below, lemma_zeros_below, lemma_twos_in_pow2};
use crate::word::{unsigned, lemma_single_bit_is_pow2};

verus! {

/// `n` is one of 1, 2, 4, 8, ..
pub open spec fn is_power_of_two(n: nat) -> bool {
    exists|k: nat| n == pow2(k)
}

/// The integer logarithm to the base 2: the greatest `k` with `2^k <= v`; 0
/// for `v == 0`.
pub open spec fn floor_log2(v: nat) -> nat
    decreases v,
{
    if v <= 1 {
        0
    } else {
        1 + floor_log2(v / 2)
    }
}

/// The integer logarithm to the base 10: the greatest `k` with `10^k <= v`; 0
/// for `v < 1`.
pub open spec fn floor_log10(v: int) -> nat
    decreases v,
{
    if v < 10 {
        0
    } else {
        1 + floor_log10(v / 10)
    }
}

/// The smallest power of two that is not below `v`.
pub open spec fn ceil_pow2(v: nat) -> nat
    decreases v,
{
    if v <= 1 {
        1
    } else {
        2 * ceil_pow2((v + 1) / 2)
    }
}

/// The greatest power of two that is not above `v`; 0 for `v == 0`.
pub open spec fn floor_pow2(v: nat) -> nat
    decreases v,
{
    if v <= 1 {
        v
    } else {
        2 * floor_pow2(v / 2)
    }
}

// The three recursions once more on words, `n` steps deep, so that the
// bit-vector solver can unfold them.
spec fn log2_steps(v: u32, n: u32) -> u32
    decreases n,
{
    if n == 0 || v <= 1 {
        0
    } else {
        (1 + log2_steps(v / 2, (n - 1) as u32)) as u32
    }
}

spec fn ceil_steps(v: u32, n: u32) -> u32
    decreases n,
{
    if n == 0 || v <= 1 {
        1
    } else {
        (2 * ceil_steps(((v + 1) / 2) as u32, (n - 1) as u32)) as u32
    }
}

spec fn floor_steps(v: u32, n: u32) -> u32
    decreases n,
{
    if n == 0 || v <= 1 {
        v
    } else {
        (2 * floor_steps(v / 2, (n - 1) as u32)) as u32
    }
}

proof fn lemma_log2_steps(v: u32, n: u32)
    requires
        n <= 32,
        v < pow2(n as nat),
    ensures
        log2_steps(v, n) == floor_log2(v as nat),
        log2_steps(v, n) <= n,
    decreases n,
{
    if n > 0 {
        lemma_pow2_unfold(n as nat);
        lemma_log2_steps(v / 2, (n - 1) as u32);
    } else {
        lemma2_to64();
    }
}

proof fn lemma_ceil_steps(v: u32, n: u32)
    requires
        n <= 31,
        v <= pow2(n as nat),
    ensures
        ceil_steps(v, n) == ceil_pow2(v as nat),
        ceil_steps(v, n) <= pow2(n as nat),
    decreases n,
{
    lemma2_to64();
    lemma_pow2_pos(n as nat);
    if n > 0 {
        lemma_pow2_unfold(n as nat);
        lemma_pow2_strictly_increases(n as nat, 32);
        if v > 1 {
            lemma_ceil_steps(((v + 1) / 2) as u32, (n - 1) as u32);
        }
    }
}

proof fn lemma_floor_steps(v: u32, n: u32)
    requires
        n <= 32,
        v < pow2(n as nat),
    ensures
        floor_steps(v, n) == floor_pow2(v as nat),
        floor_steps(v, n) <= v,
    decreases n,
{
    if n > 0 {
        lemma_pow2_unfold(n as nat);
        lemma_floor_steps(v / 2, (n - 1) as u32);
    } else {
        lemma2_to64();
    }
}

/// The test on the bits: the word is not 0, and clearing its lowest set bit,
/// which is what `v & (v - 1)` does, leaves nothing. The subtraction wraps.
pub open spec fn one_bit_set(v: i32) -> bool {
    v != 0 && v & v.wrapping_sub(1) == 0
}

proof fn lemma_one_bit_set(v: i32)
    by (bit_vector)
    ensures
        one_bit_set(v) <==> unsigned(v) != 0 && unsigned(v) == 1u32 << zeros_below(unsigned(v), 32),
        unsigned(v) != 0 ==> zeros_below(unsigned(v), 32) < 32,
{
}

// The exponent of a word that is a power of two.
proof fn lemma_exponent_of_word(u: u32) -> (e: nat)
    requires
        is_power_of_two(u as nat),
    ensures
        e < 32,
        u == pow2(e),
{
    let e = choose|e: nat| u == pow2(e);
    lemma2_to64();
    if e > 32 {
        lemma_pow2_strictly_increases(32, e);
    }
    e
}

/// Whether the bits of `v`, read as an unsigned number, are a power of two:
/// whether exactly one of them is set. Among the signed words these are the
/// positive powers of two and the smallest word, which is the sign bit alone.
pub fn is_pow2(v: i32) -> (r: bool)
    ensures
        r <==> one_bit_set(v),
        r <==> is_power_of_two(unsigned(v) as nat),
        v > 0 ==> (r <==> is_power_of_two(v as nat)),
        v == i32::MIN ==> r,
        i32::MIN < v <= 0 ==> !r,
{
    proof {
        let u = unsigned(v);
        lemma_one_bit_set(v);
        lemma2_to64();
        lemma_zeros_below(u, 32);
        if one_bit_set(v) {
            // the word is its lowest set bit alone
            lemma_single_bit_is_pow2(zeros_below(u, 32));
        }
        if is_power_of_two(u as nat) {
            // the lowest set bit of 2^e is bit e
            let e = lemma_exponent_of_word(u);
            lemma_twos_in_pow2(e);
            lemma_single_bit_is_pow2(e as u32);
        }
        if v == i32::MIN {
            assert(u == pow2(31));
        }
    }
    (v != 0) && ((v & v.wrapping_sub(1)) == 0)
}

// The stages of the search for the highest set bit: at each, whether it lies
// in the upper half of what is left, and what is left after dropping the
// lower half if so.
spec fn upper(v: u32, bound: u32, width: u32) -> u32 {
    (flag(v > bound) as u32) << width
}

spec fn log2_stage4(v: u32) -> u32 {
    v >> upper(v, 0xFFFF, 4)
}

spec fn log2_stage3(v: u32) -> u32 {
    log2_stage4(v) >> upper(log2_stage4(v), 0xFF, 3)
}

spec fn log2_stage2(v: u32) -> u32 {
    log2_stage3(v) >> upper(log2_stage3(v), 0xF, 2)
}

spec fn log2_stage1(v: u32) -> u32 {
    log2_stage2(v) >> upper(log2_stage2(v), 0x3, 1)
}

spec fn log2_search(v: u32) -> u32 {
    let r = upper(v, 0xFFFF, 4);
    let r = r | upper(log2_stage4(v), 0xFF, 3);
    let r = r | upper(log2_stage3(v), 0xF, 2);
    let r = r | upper(log2_stage2(v), 0x3, 1);
    r | (log2_stage1(v) >> 1)
}

proof fn lemma_log2_search(v: u32)
    by (bit_vector)
    ensures
        upper(v, 0xFFFF, 4) < 32,
        upper(log2_stage4(v), 0xFF, 3) < 32,
        upper(log2_stage3(v), 0xF, 2) < 32,
        upper(log2_stage2(v), 0x3, 1) < 32,
        log2_search(v) == log2_steps(v, 32),
{
}

/// The integer logarithm of `v` to the base 2, found by halving the range in
/// which the highest set bit must lie. For `v == 0`, which has no logarithm,
/// the search ends at 0.
pub fn log2(v: u32) -> (r: u32)
    ensures
        r == floor_log2(v as nat),
        r < 32,
{
    proof {
        lemma_log2_search(v);
        lemma2_to64();
        lemma_log2_steps(v, 32);
        if v >= 1 {
            lemma_floor_log2_bounds(v as nat);
        }
    }
    let mut v = v;
    let mut r: u32 = bu32(v > 0xFFFF) << 4;
    v >>= r;
    let mut shift: u32 = bu32(v > 0xFF) << 3;
    v >>= shift;
    r |= shift;
    shift = bu32(v > 0xF) << 2;
    v >>= shift;
    r |= shift;
    shift = bu32(v > 0x3) << 1;
    v >>= shift;
    r |= shift;
    r | (v >> 1)
}

/// The integer logarithm of `v` to the base 10, found by comparing `v` with
/// the powers of ten that a word can hold. A `v` below 1 has no logarithm and
/// gives 0.
pub fn log10(v: i32) -> (r: i32)
    ensures
        r == floor_log10(v as int),
        0 <= r <= 9,
{
    proof {
        reveal_with_fuel(floor_log10, 11);
    }
    if v >= 1000000000 {
        9
    } else if v >= 100000000 {
        8
    } else if v >= 10000000 {
        7
    } else if v >= 1000000 {
        6
    } else if v >= 100000 {
        5
    } else if v >= 10000 {
        4
    } else if v >= 1000 {
        3
    } else if v >= 100 {
        2
    } else if v >= 10 {
        1
    } else {
        0
    }
}

// The word with every bit below the highest set bit of `v` set as well:
// arithmetic shifts, so a negative `v` fills up to -1.
spec fn smeared(v: i32) -> i32 {
    let v = v | (v >> 1);
    let v = v | (v >> 2);
    let v = v | (v >> 4);
    let v = v | (v >> 8);
    v | (v >> 16)
}

proof fn lemma_smeared_up(v: i32)
    by (bit_vector)
    ensures
        0 <= v <= 0x3FFF_FFFF ==> smeared(v) + 1 == ceil_steps((v + 1) as u32, 30),
        0x4000_0000 <= v ==> smeared(v) == i32::MAX,
        v < 0 ==> smeared(v) == -1,
{
}

/// Rounds `v` up to a power of two: the smallest one that is not below `v`, as
/// long as that is a signed word, that is for `v` from 0 to `2^30`. Above
/// that, and for the smallest word, the sum wraps to the smallest word; the
/// other negative words give 0.
pub fn next_pow2(v: i32) -> (r: i32)
    ensures
        0 <= v <= 0x4000_0000 ==> r == ceil_pow2(v as nat),
        v > 0x4000_0000 || v == i32::MIN ==> r == i32::MIN,
        i32::MIN < v < 0 ==> r == 0,
{
    let mut v = v;
    v += bi32(v == 0);
    v = v.wrapping_sub(1);
    proof {
        lemma_smeared_up(v);
        lemma2_to64();
        if 0 <= v <= 0x3FFF_FFFF {
            lemma_ceil_steps((v + 1) as u32, 30);
        }
    }
    v |= v >> 1;
    v |= v >> 2;
    v |= v >> 4;
    v |= v >> 8;
    v |= v >> 16;
    v.wrapping_add(1)
}

proof fn lemma_smeared_down(v: i32)
    by (bit_vector)
    ensures
        v >= 0 ==> smeared(v) - (smeared(v) >> 1) == floor_steps(v as u32, 32),
        v < 0 ==> smeared(v) - (smeared(v) >> 1) == 0,
{
}

/// Rounds `v` down to a power of two: the greatest one that is not above `v`.
/// There is none for 0 and for the negative words, which give 0.
pub fn prev_pow2(v: i32) -> (r: i32)
    ensures
        v > 0 ==> r == floor_pow2(v as nat),
        v <= 0 ==> r == 0,
{
    proof {
        lemma_smeared_down(v);
        lemma2_to64();
        if v >= 0 {
            lemma_floor_steps(v as u32, 32);
        }
    }
    let mut v = v;
    v |= v >> 1;
    v |= v >> 2;
    v |= v >> 4;
    v |= v >> 8;
    v |= v >> 16;
    v - (v >> 1)
}

/// Where `v` is not 0, `floor_log2(v)` is the `k` with `2^k <= v < 2^(k + 1)`.
pub proof fn lemma_floor_log2_bounds(v: nat)
    requires
        v >= 1,
    ensures
        pow2(floor_log2(v)) <= v < 2 * pow2(floor_log2(v)),
    decreases v,
{
    if v == 1 {
        lemma2_to64();
    } else {
        lemma_floor_log2_bounds(v / 2);
        lemma_pow2_unfold(floor_log2(v));
    }
}

/// The only `k` with `2^k <= v < 2^(k + 1)` is `floor_log2(v)`.
pub proof fn lemma_floor_log2_unique(v: nat, k: nat)
    requires
        pow2(k) <= v < 2 * pow2(k),
    ensures
        floor_log2(v) == k,
    decreases k,
{
    if k == 0 {
        lemma2_to64();
    } else {
        lemma_pow2_unfold(k);
        lemma_pow2_pos((k - 1) as nat);
        lemma_floor_log2_unique(v / 2, (k - 1) as nat);
    }
}

/// `floor_pow2(v)` is 2 to the power `floor_log2(v)`, so for a `v` that is not
/// 0 it is the power of two with `floor_pow2(v) <= v < 2 * floor_pow2(v)`.
pub proof fn lemma_floor_pow2_bounds(v: nat)
    requires
        v >= 1,
    ensures
        floor_pow2(v) == pow2(floor_log2(v)),
        is_power_of_two(floor_pow2(v)),
        floor_pow2(v) <= v < 2 * floor_pow2(v),
    decreases v,
{
    if v == 1 {
        lemma2_to64();
    } else {
        lemma_floor_pow2_bounds(v / 2);
        lemma_pow2_unfold(floor_log2(v));
    }
}

/// `ceil_pow2(v)` is a power of two that is not below `v`, and for a `v` that
/// is not 0 it is below `2 * v`: no smaller power of two is large enough.
pub proof fn lemma_ceil_pow2_bounds(v: nat)
    ensures
        is_power_of_two(ceil_pow2(v)),
        v <= ceil_pow2(v),
        v >= 1 ==> ceil_pow2(v) < 2 * v,
    decreases v,
{
    if v <= 1 {
        lemma2_to64();
        assert(ceil_pow2(v) == pow2(0));
    } else {
        let half = ((v + 1) / 2) as nat;
        lemma_ceil_pow2_bounds(half);
        let k = choose|k: nat| ceil_pow2(half) == pow2(k);
        lemma_pow2_unfold(k + 1);
        assert(ceil_pow2(v) == pow2(k + 1));
    }
}

/// The only power of two `2^k` with `2^k / 2 < v <= 2^k` is `ceil_pow2(v)`.
pub proof fn lemma_ceil_pow2_unique(v: nat, k: nat)
    requires
        v <= pow2(k),
        pow2(k) < 2 * v,
    ensures
        ceil_pow2(v) == pow2(k),
    decreases k,
{
    if k == 0 {
        lemma2_to64();
    } else {
        lemma_pow2_unfold(k);
        lemma_pow2_pos((k - 1) as nat);
        lemma_ceil_pow2_unique(((v + 1) / 2) as nat, (k - 1) as nat);
    }
}

/// Where `v` is at least 1, `floor_log10(v)` is the `k` with
/// `10^k <= v < 10^(k + 1)`.
pub proof fn lemma_floor_log10_bounds(v: int)
    requires
        v >= 1,
    ensures
        vstd::arithmetic::power::pow(10, floor_log10(v)) <= v
            < vstd::arithmetic::power::pow(10, floor_log10(v) + 1),
    decreases v,
{
    reveal(vstd::arithmetic::power::pow);
    if v >= 10 {
        lemma_floor_log10_bounds(v / 10);
    } else {
        assert(vstd::arithmetic::power::pow(10, 1) == 10 * vstd::arithmetic::power::pow(10, 0));
    }
}

/// The logarithm of a power of two is its exponent.
pub proof fn lemma_floor_log2_pow2(k: nat)
    ensures
        floor_log2(pow2(k)) == k,
{
    lemma_pow2_pos(k);
    lemma_floor_log2_unique(pow2(k), k);
}

/// One below a power of two, the logarithm is one below the exponent.
pub proof fn lemma_floor_log2_below_pow2(k: nat)
    requires
        k >= 1,
    ensures
        floor_log2((pow2(k) - 1) as nat) == k - 1,
{
    lemma_pow2_unfold(k);
    lemma_pow2_pos((k - 1) as nat);
    lemma_floor_log2_unique((pow2(k) - 1) as nat, (k - 1) as nat);
}

/// One above a power of two other than 1, the logarithm is still the exponent.
pub proof fn lemma_floor_log2_above_pow2(k: nat)
    requires
        k >= 1,
    ensures
        floor_log2(pow2(k) + 1) == k,
{
    lemma_pow2_unfold(k);
    lemma_pow2_pos((k - 1) as nat);
    lemma_floor_log2_unique(pow2(k) + 1, k);
}

/// Rounding a power of two up or down leaves it as it is.
pub proof fn lemma_round_pow2(k: nat)
    ensures
        ceil_pow2(pow2(k)) == pow2(k),
        floor_pow2(pow2(k)) == pow2(k),
{
    lemma_pow2_pos(k);
    lemma_ceil_pow2_unique(pow2(k), k);
    lemma_floor_pow2_bounds(pow2(k));
    lemma_floor_log2_pow2(k);
}

/// One below a power of two rounds up to that power, unless the power is 2:
/// one below it is 1, a power of two itself.
pub proof fn lemma_ceil_pow2_below_pow2(k: nat)
    requires
        k != 1,
    ensures
        ceil_pow2((pow2(k) - 1) as nat) == pow2(k),
{
    lemma_pow2_pos(k);
    if k == 0 {
        lemma2_to64();
    } else {
        lemma_pow2_unfold(k);
        lemma_pow2_unfold((k - 1) as nat);
        lemma_pow2_pos((k - 2) as nat);
        lemma_ceil_pow2_unique((pow2(k) - 1) as nat, k);
    }
}

/// One above a power of two rounds up to the next power.
pub proof fn lemma_ceil_pow2_above_pow2(k: nat)
    ensures
        ceil_pow2(pow2(k) + 1) == pow2(k + 1),
{
    lemma_pow2_pos(k);
    lemma_pow2_unfold(k + 1);
    lemma_ceil_pow2_unique(pow2(k) + 1, k + 1);
}

/// One above a power of two other than 1 rounds down to that power.
pub proof fn lemma_floor_pow2_above_pow2(k: nat)
    requires
        k >= 1,
    ensures
        floor_pow2(pow2(k) + 1) == pow2(k),
{
    lemma_floor_pow2_bounds(pow2(k) + 1);
    lemma_floor_log2_above_pow2(k);
}

/// One below a power of two other than 1 rounds down to the power before.
pub proof fn lemma_floor_pow2_below_pow2(k: nat)
    requires
        k >= 1,
    ensures
        floor_pow2((pow2(k) - 1) as nat) == pow2((k - 1) as nat),
{
    lemma_pow2_unfold(k);
    lemma_pow2_pos((k - 1) as nat);
    lemma_floor_pow2_bounds((pow2(k) - 1) as nat);
    lemma_floor_log2_below_pow2(k);
}

/// The word with bit `i` alone set is a power of two.
pub proof fn lemma_single_bit_is_power_of_two(i: u32)
    requires
        i < 32,
    ensures
        is_power_of_two((1u32 << i) as nat),
{
    lemma_single_bit_is_pow2(i);
}

/// The logarithm of the word with bit `i` alone set is `i`; one below that
/// word it is `i - 1`, and one above still `i`, unless the word is 1.
pub proof fn lemma_log2_around_single_bit(i: u32)
    requires
        i < 32,
    ensures
        floor_log2((1u32 << i) as nat) == i,
        i > 0 ==> floor_log2(((1u32 << i) - 1) as nat) == i - 1,
        i > 0 ==> floor_log2(((1u32 << i) + 1) as nat) == i,
{
    lemma_single_bit_is_pow2(i);
    lemma_floor_log2_pow2(i as nat);
    if i > 0 {
        lemma_floor_log2_below_pow2(i as nat);
        lemma_floor_log2_above_pow2(i as nat);
    }
}

/// The word with bit `i` alone set rounds up to itself; so does the number one
/// below it, unless the word is 2; the number one above it rounds up to the
/// word with bit `i + 1` alone set.
pub proof fn lemma_ceil_pow2_around_single_bit(i: u32)
    requires
        i < 32,
    ensures
        ceil_pow2((1u32 << i) as nat) == 1u32 << i,
        i != 1 ==> ceil_pow2(((1u32 << i) - 1) as nat) == 1u32 << i,
        i < 31 ==> ceil_pow2(((1u32 << i) + 1) as nat) == 1u32 << ((i + 1) as u32),
{
    lemma_single_bit_is_pow2(i);
    lemma_round_pow2(i as nat);
    if i != 1 {
        lemma_ceil_pow2_below_pow2(i as nat);
    }
    if i < 31 {
        lemma_single_bit_is_pow2((i + 1) as u32);
        lemma_ceil_pow2_above_pow2(i as nat);
    }
}

/// The word with bit `i` alone set rounds down to itself; unless it is 1, so
/// does the number one above it, and the number one below it rounds down to
/// the word with bit `i - 1` alone set.
pub proof fn lemma_floor_pow2_around_single_bit(i: u32)
    requires
        i < 32,
    ensures
        floor_pow2((1u32 << i) as nat) == 1u32 << i,
        i > 0 ==> floor_pow2(((1u32 << i) + 1) as nat) == 1u32 << i,
        i > 0 ==> floor_pow2(((1u32 << i) - 1) as nat) == 1u32 << ((i - 1) as u32),
{
    lemma_single_bit_is_pow2(i);
    lemma_round_pow2(i as nat);
    if i > 0 {
        lemma_single_bit_is_pow2((i - 1) as u32);
        lemma_floor_pow2_above_pow2(i as nat);
        lemma_floor_pow2_below_pow2(i as nat);
    }
}

} // verus!
