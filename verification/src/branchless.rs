//! Sign, absolute value, minimum and maximum of signed words, computed with
//! masks in place of branches.

use vstd::prelude::*;

verus! {

/// 1 for `true`, 0 for `false`.
pub open spec fn flag(b: bool) -> int {
    if b {
        1
    } else {
        0
    }
}

/// The sign of `v`: -1, 0 or 1.
pub open spec fn signum(v: int) -> int {
    if v > 0 {
        1
    } else if v < 0 {
        -1
    } else {
        0
    }
}

/// The absolute value of `v`.
pub open spec fn magnitude(v: int) -> int {
    if v < 0 {
        -v
    } else {
        v
    }
}

/// The one's complement of `v`: every bit flipped, which for a
/// two's-complement word is `-(v + 1)`.
pub fn not(v: i32) -> (r: i32)
    ensures
        r == -(v + 1),
        r == !v,
{
    let r = 0i32.wrapping_sub(v.wrapping_add(1));
    assert(r == !v) by (bit_vector)
        requires
            r == -(v + 1),
    ;
    r
}

/// `b` as a signed word: 1 for `true`, 0 for `false`.
pub fn bi32(b: bool) -> (r: i32)
    ensures
        r == flag(b),
{
    if b {
        1
    } else {
        0
    }
}

/// `b` as an unsigned word: 1 for `true`, 0 for `false`.
pub fn bu32(b: bool) -> (r: u32)
    ensures
        r == flag(b),
{
    if b {
        1
    } else {
        0
    }
}

/// `v` as an index.
pub fn usz(v: u32) -> (r: usize)
    ensures
        r == v,
{
    v as usize
}

/// The sign of `v`: 1 where it is positive, -1 where it is negative, 0 for 0.
pub fn sign(v: i32) -> (r: i32)
    ensures
        r == signum(v as int),
{
    bi32(v > 0) - bi32(v < 0)
}

proof fn lemma_sign_mask(v: i32)
    by (bit_vector)
    ensures
        v >> 31 == if v < 0 { -1i32 } else { 0i32 },
        v ^ 0i32 == v,
        v ^ -1i32 == -(v + 1),
{
}

/// The absolute value of `v`. That of the smallest word, `2^31`, is no signed
/// word: the subtraction wraps, and the smallest word comes back.
pub fn abs(v: i32) -> (r: i32)
    ensures
        v != i32::MIN ==> r == magnitude(v as int),
        v == i32::MIN ==> r == i32::MIN,
{
    proof {
        lemma_sign_mask(v);
    }
    let mask = v >> 31;
    (v ^ mask).wrapping_sub(mask)
}

proof fn lemma_select(x: i32, y: i32)
    by (bit_vector)
    ensures
        y ^ ((x ^ y) & -1i32) == x,
        y ^ ((x ^ y) & 0i32) == y,
        x ^ ((x ^ y) & -1i32) == y,
        x ^ ((x ^ y) & 0i32) == x,
{
}

/// The smaller of `x` and `y`.
pub fn min(x: i32, y: i32) -> (r: i32)
    ensures
        r == if x < y { x } else { y },
        r <= x,
        r <= y,
{
    proof {
        lemma_select(x, y);
    }
    y ^ ((x ^ y) & -bi32(x < y))
}

/// The greater of `x` and `y`.
pub fn max(x: i32, y: i32) -> (r: i32)
    ensures
        r == if x < y { y } else { x },
        r >= x,
        r >= y,
{
    proof {
        lemma_select(x, y);
    }
    x ^ ((x ^ y) & -bi32(x < y))
}

} // verus!
