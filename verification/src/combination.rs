//! Walking through the words that have a given number of set bits, from each
//! to the next greater one.

use vstd::prelude::*;
use vstd::arithmetic::power2::lemma2_to64;
use crate::count::{
    bit_count,
    count_trailing_zeros,
    trailing_zeros,
    zeros_below,
    word_sum,
    lemma_ones_below,
    lemma_zeros_below,
    lemma_parallel_sums,
};

verus! {

/// Whether some word greater than `v` has as many set bits as `v`.
pub open spec fn has_next_combination(v: u32) -> bool {
    exists|w: u32| v < w && bit_count(w as nat) == bit_count(v as nat)
}

/// Whether `r` is the next greater word after `v` with as many set bits.
pub open spec fn is_next_combination(v: u32, r: u32) -> bool {
    &&& v < r
    &&& bit_count(r as nat) == bit_count(v as nat)
    &&& forall|w: u32| v < w < r ==> bit_count(w as nat) != bit_count(v as nat)
}

/// What [`next_combination`] computes, for every word. With `t` the word `v`
/// filled up with ones below its lowest set bit, `t + 1` carries the lowest
/// run of ones of `v` into the zero above it, and the rest of the run, one bit
/// shorter, is put at the bottom. All sums wrap, and the shift is by the five
/// lowest bits of its amount.
pub open spec fn next_combination_word(v: u32) -> u32 {
    let t = v | v.wrapping_sub(1);
    let c = (!t & 0u32.wrapping_sub(!t)).wrapping_sub(1);
    t.wrapping_add(1) | c.wrapping_shr((trailing_zeros(v) + 1) as u32)
}

// The same, with the zeros counted by the recursion that the bit-vector
// solver can unfold.
spec fn next_word(v: u32) -> u32 {
    let t = v | v.wrapping_sub(1);
    let c = (!t & 0u32.wrapping_sub(!t)).wrapping_sub(1);
    t.wrapping_add(1) | c.wrapping_shr((zeros_below(v, 32) + 1) as u32)
}

/// Whether the lowest run of ones of `v` has a zero above it within the word:
/// whether `v` is not 0 and, filled up with ones below its lowest set bit, is
/// not the word of 32 ones.
pub open spec fn can_carry(v: u32) -> bool {
    v != 0 && v | v.wrapping_sub(1) != 0xFFFF_FFFF
}

proof fn lemma_next_word(v: u32)
    by (bit_vector)
    requires
        can_carry(v),
    ensures
        v < next_word(v),
        word_sum(next_word(v)) == word_sum(v),
{
}

proof fn lemma_no_word_between(v: u32, w: u32)
    by (bit_vector)
    requires
        can_carry(v),
        v < w < next_word(v),
    ensures
        word_sum(w) != word_sum(v),
{
}

proof fn lemma_last_word(v: u32, w: u32)
    by (bit_vector)
    requires
        !can_carry(v),
        v < w,
    ensures
        word_sum(w) != word_sum(v),
{
}

proof fn lemma_word_sum(v: u32)
    ensures
        word_sum(v) == bit_count(v as nat),
{
    lemma_parallel_sums(v);
    lemma2_to64();
    lemma_ones_below(v, 32);
}

/// The next word after `v` with as many set bits as `v`: the next combination
/// of as many out of 32, each word read as the set of the positions of its set
/// bits. It is what [`next_combination_word`] says for every `v`, also for 0
/// and for a `v` whose set bits are the highest of the word, which have no
/// next combination.
pub fn next_combination(v: u32) -> (r: u32)
    ensures
        r == next_combination_word(v),
        has_next_combination(v) ==> is_next_combination(v, r),
{
    proof {
        lemma2_to64();
        lemma_zeros_below(v, 32);
        assert(next_combination_word(v) == next_word(v));
        lemma_word_sum(v);
        if has_next_combination(v) {
            lemma_has_next_combination(v);
            lemma_next_word(v);
            lemma_word_sum(next_word(v));
            let count = bit_count(v as nat);
            assert forall|w: u32| v < w < next_word(v) implies bit_count(w as nat) != count by {
                lemma_no_word_between(v, w);
                lemma_word_sum(w);
            }
        }
    }
    let t = v | v.wrapping_sub(1);
    let c = (!t & 0u32.wrapping_sub(!t)).wrapping_sub(1);
    t.wrapping_add(1) | c.wrapping_shr(count_trailing_zeros(v) + 1)
}

/// A word has a next combination unless it is 0 or its set bits are the
/// highest of the word.
pub proof fn lemma_has_next_combination(v: u32)
    ensures
        has_next_combination(v) <==> can_carry(v),
{
    lemma_word_sum(v);
    if can_carry(v) {
        lemma_next_word(v);
        lemma_word_sum(next_word(v));
    }
    if has_next_combination(v) && !can_carry(v) {
        let greater = choose|w: u32| v < w && bit_count(w as nat) == bit_count(v as nat);
        lemma_word_sum(greater);
        lemma_last_word(v, greater);
    }
}

} // verus!
