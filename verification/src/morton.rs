//! Morton codes: the bits of two or three coordinates interleaved into one
//! word, and the way back.

use vstd::prelude::*;
use vstd::arithmetic::power2::{
    pow2,
    lemma_pow2_unfold,
    lemma_pow2_pos,
    lemma_pow2_strictly_increases,
    lemma2_to64,
};
use crate::word::bit;

verus! {

/// The number that interleaves the `n` lowest binary digits of `x` and `y`:
/// digit `i` of `x` has weight `4^i`, digit `i` of `y` has weight `2 * 4^i`.
pub open spec fn interleaved2(x: nat, y: nat, n: nat) -> nat
    decreases n,
{
    if n == 0 {
        0
    } else {
        x % 2 + 2 * (y % 2) + 4 * interleaved2(x / 2, y / 2, (n - 1) as nat)
    }
}

/// The number made of every second binary digit of `v`, `n` of them, the
/// lowest first.
pub open spec fn every_second(v: nat, n: nat) -> nat
    decreases n,
{
    if n == 0 {
        0
    } else {
        v % 2 + 2 * every_second(v / 4, (n - 1) as nat)
    }
}

/// The number that interleaves the `n` lowest binary digits of `x`, `y` and
/// `z`: digit `i` of `x` has weight `8^i`, of `y` `2 * 8^i`, of `z` `4 * 8^i`.
pub open spec fn interleaved3(x: nat, y: nat, z: nat, n: nat) -> nat
    decreases n,
{
    if n == 0 {
        0
    } else {
        x % 2 + 2 * (y % 2) + 4 * (z % 2) + 8 * interleaved3(x / 2, y / 2, z / 2, (n - 1) as nat)
    }
}

/// The number made of every third binary digit of `v`, `n` of them, the lowest
/// first.
pub open spec fn every_third(v: nat, n: nat) -> nat
    decreases n,
{
    if n == 0 {
        0
    } else {
        v % 2 + 2 * every_third(v / 8, (n - 1) as nat)
    }
}

// The four definitions once more on words, so that the bit-vector solver can
// unfold them.
spec fn zip2(x: u32, y: u32, n: u32) -> u32
    decreases n,
{
    if n == 0 {
        0
    } else {
        (x % 2 + 2 * (y % 2) + 4 * zip2(x / 2, y / 2, (n - 1) as u32)) as u32
    }
}

spec fn pick2(v: u32, n: u32) -> u32
    decreases n,
{
    if n == 0 {
        0
    } else {
        (v % 2 + 2 * pick2(v / 4, (n - 1) as u32)) as u32
    }
}

spec fn zip3(x: u32, y: u32, z: u32, n: u32) -> u32
    decreases n,
{
    if n == 0 {
        0
    } else {
        (x % 2 + 2 * (y % 2) + 4 * (z % 2) + 8 * zip3(x / 2, y / 2, z / 2, (n - 1) as u32)) as u32
    }
}

spec fn pick3(v: u32, n: u32) -> u32
    decreases n,
{
    if n == 0 {
        0
    } else {
        (v % 2 + 2 * pick3(v / 8, (n - 1) as u32)) as u32
    }
}

proof fn lemma_zip2(x: u32, y: u32, n: u32)
    requires
        n <= 16,
    ensures
        zip2(x, y, n) == interleaved2(x as nat, y as nat, n as nat),
        interleaved2(x as nat, y as nat, n as nat) < pow2(2 * n as nat),
    decreases n,
{
    lemma2_to64();
    if n > 0 {
        lemma_zip2(x / 2, y / 2, (n - 1) as u32);
        lemma_pow2_unfold(2 * n as nat);
        lemma_pow2_unfold((2 * n - 1) as nat);
        if n < 16 {
            lemma_pow2_strictly_increases(2 * n as nat, 32);
        }
    }
}

proof fn lemma_pick2(v: u32, n: u32)
    requires
        n <= 16,
    ensures
        pick2(v, n) == every_second(v as nat, n as nat),
        every_second(v as nat, n as nat) < pow2(n as nat),
    decreases n,
{
    lemma2_to64();
    if n > 0 {
        lemma_pick2(v / 4, (n - 1) as u32);
        lemma_pow2_unfold(n as nat);
        lemma_pow2_strictly_increases(n as nat, 32);
    }
}

proof fn lemma_zip3(x: u32, y: u32, z: u32, n: u32)
    requires
        n <= 10,
    ensures
        zip3(x, y, z, n) == interleaved3(x as nat, y as nat, z as nat, n as nat),
        interleaved3(x as nat, y as nat, z as nat, n as nat) < pow2(3 * n as nat),
    decreases n,
{
    lemma2_to64();
    if n > 0 {
        lemma_zip3(x / 2, y / 2, z / 2, (n - 1) as u32);
        lemma_pow2_unfold(3 * n as nat);
        lemma_pow2_unfold((3 * n - 1) as nat);
        lemma_pow2_unfold((3 * n - 2) as nat);
        lemma_pow2_strictly_increases(3 * n as nat, 32);
    }
}

proof fn lemma_pick3(v: u32, n: u32)
    requires
        n <= 10,
    ensures
        pick3(v, n) == every_third(v as nat, n as nat),
        every_third(v as nat, n as nat) < pow2(n as nat),
    decreases n,
{
    lemma2_to64();
    if n > 0 {
        lemma_pick3(v / 8, (n - 1) as u32);
        lemma_pow2_unfold(n as nat);
        lemma_pow2_strictly_increases(n as nat, 32);
    }
}

// Whether the bits of `r` below position `2 * n` are the `n` lowest bits of
// `x` and of `y`, taken in turn.
spec fn in_turn2(r: u32, x: u32, y: u32, n: u32) -> bool
    decreases n,
{
    n == 0 || {
        let i = (n - 1) as u32;
        &&& bit(r, (2 * i) as u32) == bit(x, i)
        &&& bit(r, (2 * i + 1) as u32) == bit(y, i)
        &&& in_turn2(r, x, y, i)
    }
}

// Whether the `n` lowest bits of `r` are every second bit of `v`.
spec fn second_bits(r: u32, v: u32, n: u32) -> bool
    decreases n,
{
    n == 0 || {
        let i = (n - 1) as u32;
        bit(r, i) == bit(v, (2 * i) as u32) && second_bits(r, v, i)
    }
}

// Whether the bits of `r` below position `3 * n` are the `n` lowest bits of
// `x`, of `y` and of `z`, taken in turn.
spec fn in_turn3(r: u32, x: u32, y: u32, z: u32, n: u32) -> bool
    decreases n,
{
    n == 0 || {
        let i = (n - 1) as u32;
        &&& bit(r, (3 * i) as u32) == bit(x, i)
        &&& bit(r, (3 * i + 1) as u32) == bit(y, i)
        &&& bit(r, (3 * i + 2) as u32) == bit(z, i)
        &&& in_turn3(r, x, y, z, i)
    }
}

// Whether the `n` lowest bits of `r` are every third bit of `v`.
spec fn third_bits(r: u32, v: u32, n: u32) -> bool
    decreases n,
{
    n == 0 || {
        let i = (n - 1) as u32;
        bit(r, i) == bit(v, (3 * i) as u32) && third_bits(r, v, i)
    }
}

proof fn lemma_in_turn2(r: u32, x: u32, y: u32, n: u32, i: u32)
    requires
        in_turn2(r, x, y, n),
        i < n <= 16,
    ensures
        bit(r, (2 * i) as u32) == bit(x, i),
        bit(r, (2 * i + 1) as u32) == bit(y, i),
    decreases n,
{
    if i + 1 < n {
        lemma_in_turn2(r, x, y, (n - 1) as u32, i);
    }
}

proof fn lemma_second_bits(r: u32, v: u32, n: u32, i: u32)
    requires
        second_bits(r, v, n),
        i < n <= 16,
    ensures
        bit(r, i) == bit(v, (2 * i) as u32),
    decreases n,
{
    if i + 1 < n {
        lemma_second_bits(r, v, (n - 1) as u32, i);
    }
}

proof fn lemma_in_turn3(r: u32, x: u32, y: u32, z: u32, n: u32, i: u32)
    requires
        in_turn3(r, x, y, z, n),
        i < n <= 10,
    ensures
        bit(r, (3 * i) as u32) == bit(x, i),
        bit(r, (3 * i + 1) as u32) == bit(y, i),
        bit(r, (3 * i + 2) as u32) == bit(z, i),
    decreases n,
{
    if i + 1 < n {
        lemma_in_turn3(r, x, y, z, (n - 1) as u32, i);
    }
}

proof fn lemma_third_bits(r: u32, v: u32, n: u32, i: u32)
    requires
        third_bits(r, v, n),
        i < n <= 10,
    ensures
        bit(r, i) == bit(v, (3 * i) as u32),
    decreases n,
{
    if i + 1 < n {
        lemma_third_bits(r, v, (n - 1) as u32, i);
    }
}

// The 16 lowest bits of `x`, moved apart: bit `i` goes to position `2 * i`.
spec fn spaced2(x: u32) -> u32 {
    let x = x & 0xFFFF;
    let x = (x | (x << 8)) & 0x00FF_00FF;
    let x = (x | (x << 4)) & 0x0F0F_0F0F;
    let x = (x | (x << 2)) & 0x3333_3333;
    (x | (x << 1)) & 0x5555_5555
}

// The bits at the even positions of `v`, moved together.
spec fn packed2(v: u32) -> u32 {
    let v = v & 0x5555_5555;
    let v = (v | (v >> 1)) & 0x3333_3333;
    let v = (v | (v >> 2)) & 0x0F0F_0F0F;
    let v = (v | (v >> 4)) & 0x00FF_00FF;
    let v = (v | (v >> 8)) & 0x0000_FFFF;
    (v << 16) >> 16
}

// The 10 lowest bits of `x`, moved apart: bit `i` goes to position `3 * i`.
spec fn spaced3(x: u32) -> u32 {
    let x = x & 0x3FF;
    let x = (x | (x << 16)) & 0xFF00_00FF;
    let x = (x | (x << 8)) & 0x0F00_F00F;
    let x = (x | (x << 4)) & 0xC30C_30C3;
    (x | (x << 2)) & 0x4924_9249
}

// The bits at the positions 0, 3, .., 27 of `v`, moved together.
spec fn packed3(v: u32) -> u32 {
    let v = v & 0x4924_9249;
    let v = (v | (v >> 2)) & 0xC30C_30C3;
    let v = (v | (v >> 4)) & 0x0F00_F00F;
    let v = (v | (v >> 8)) & 0xFF00_00FF;
    let v = (v | (v >> 16)) & 0x3FF;
    (v << 22) >> 22
}

proof fn lemma_spaced2(x: u32, y: u32)
    by (bit_vector)
    ensures
        spaced2(x) | (spaced2(y) << 1) == zip2(x, y, 16),
        in_turn2(spaced2(x) | (spaced2(y) << 1), x, y, 16),
{
}

proof fn lemma_packed2(v: u32)
    by (bit_vector)
    ensures
        packed2(v) == pick2(v, 16),
        second_bits(packed2(v), v, 16),
{
}

proof fn lemma_spaced3(x: u32, y: u32, z: u32)
    by (bit_vector)
    ensures
        spaced3(x) | (spaced3(y) << 1) | (spaced3(z) << 2) == zip3(x, y, z, 10),
        in_turn3(spaced3(x) | (spaced3(y) << 1) | (spaced3(z) << 2), x, y, z, 10),
{
}

proof fn lemma_packed3(v: u32)
    by (bit_vector)
    ensures
        packed3(v) == pick3(v, 10),
        third_bits(packed3(v), v, 10),
{
}

/// Interleaves the 16 lowest bits of `x` and of `y`: in the result, bit `2 * i`
/// is bit `i` of `x` and bit `2 * i + 1` is bit `i` of `y`. The higher bits of
/// `x` and `y` are not read.
pub fn interleave2(x: u32, y: u32) -> (r: u32)
    ensures
        r == interleaved2(x as nat, y as nat, 16),
        forall|i: u32| i < 16 ==> bit(r, (2 * i) as u32) == #[trigger] bit(x, i),
        forall|i: u32| i < 16 ==> bit(r, (2 * i + 1) as u32) == #[trigger] bit(y, i),
{
    proof {
        lemma_spaced2(x, y);
        lemma_zip2(x, y, 16);
        let code = spaced2(x) | (spaced2(y) << 1);
        assert forall|i: u32| i < 16 implies bit(code, (2 * i) as u32) == bit(x, i) by {
            lemma_in_turn2(code, x, y, 16, i);
        }
        assert forall|i: u32| i < 16 implies bit(code, (2 * i + 1) as u32) == bit(y, i) by {
            lemma_in_turn2(code, x, y, 16, i);
        }
    }
    let mut x = x;
    let mut y = y;
    x &= 0xFFFF;
    x = (x | (x << 8)) & 0x00FF_00FF;
    x = (x | (x << 4)) & 0x0F0F_0F0F;
    x = (x | (x << 2)) & 0x3333_3333;
    x = (x | (x << 1)) & 0x5555_5555;

    y &= 0xFFFF;
    y = (y | (y << 8)) & 0x00FF_00FF;
    y = (y | (y << 4)) & 0x0F0F_0F0F;
    y = (y | (y << 2)) & 0x3333_3333;
    y = (y | (y << 1)) & 0x5555_5555;

    x | (y << 1)
}

/// Takes component `n` out of a code made by [`interleave2`]: the 16 bits at
/// the positions `n`, `n + 2`, .., `n + 30` of `v`, moved together. For `n == 0`
/// that is the first coordinate, for `n == 1` the second. Of `n` only the five
/// lowest bits are used, so that every `n` is a shift within the word.
pub fn deinterleave2(v: u32, n: u32) -> (r: u32)
    ensures
        r == every_second((v >> (n % 32)) as nat, 16),
        n == 0 ==> r == every_second(v as nat, 16),
        n == 1 ==> r == every_second(v as nat / 2, 16),
        r < 0x1_0000,
        forall|i: u32| i < 16 ==> #[trigger] bit(r, i) == bit(v >> (n % 32), (2 * i) as u32),
{
    let w = v.wrapping_shr(n);
    proof {
        lemma_packed2(w);
        lemma_pick2(w, 16);
        lemma_shift_by_index(v, n);
        lemma2_to64();
        assert forall|i: u32| i < 16 implies bit(packed2(w), i) == bit(w, (2 * i) as u32) by {
            lemma_second_bits(packed2(w), w, 16, i);
        }
    }
    let mut v = w & 0x5555_5555;
    v = (v | (v >> 1)) & 0x3333_3333;
    v = (v | (v >> 2)) & 0x0F0F_0F0F;
    v = (v | (v >> 4)) & 0x00FF_00FF;
    v = (v | (v >> 8)) & 0x0000_FFFF;
    (v << 16) >> 16
}

/// Interleaves the 10 lowest bits of `x`, `y` and `z`: in the result, bit
/// `3 * i` is bit `i` of `x`, bit `3 * i + 1` is bit `i` of `y`, and bit
/// `3 * i + 2` is bit `i` of `z`; the two highest bits are clear. The higher
/// bits of `x`, `y` and `z` are not read.
pub fn interleave3(x: u32, y: u32, z: u32) -> (r: u32)
    ensures
        r == interleaved3(x as nat, y as nat, z as nat, 10),
        r < 0x4000_0000,
        forall|i: u32| i < 10 ==> bit(r, (3 * i) as u32) == #[trigger] bit(x, i),
        forall|i: u32| i < 10 ==> bit(r, (3 * i + 1) as u32) == #[trigger] bit(y, i),
        forall|i: u32| i < 10 ==> bit(r, (3 * i + 2) as u32) == #[trigger] bit(z, i),
{
    proof {
        lemma_spaced3(x, y, z);
        lemma_zip3(x, y, z, 10);
        lemma2_to64();
        let code = spaced3(x) | (spaced3(y) << 1) | (spaced3(z) << 2);
        assert forall|i: u32| i < 10 implies bit(code, (3 * i) as u32) == bit(x, i) by {
            lemma_in_turn3(code, x, y, z, 10, i);
        }
        assert forall|i: u32| i < 10 implies bit(code, (3 * i + 1) as u32) == bit(y, i) by {
            lemma_in_turn3(code, x, y, z, 10, i);
        }
        assert forall|i: u32| i < 10 implies bit(code, (3 * i + 2) as u32) == bit(z, i) by {
            lemma_in_turn3(code, x, y, z, 10, i);
        }
    }
    let mut x = x;
    let mut y = y;
    let mut z = z;
    x &= 0x3FF;
    x = (x | (x << 16)) & 0xFF00_00FF;
    x = (x | (x << 8)) & 0x0F00_F00F;
    x = (x | (x << 4)) & 0xC30C_30C3;
    x = (x | (x << 2)) & 0x4924_9249;

    y &= 0x3FF;
    y = (y | (y << 16)) & 0xFF00_00FF;
    y = (y | (y << 8)) & 0x0F00_F00F;
    y = (y | (y << 4)) & 0xC30C_30C3;
    y = (y | (y << 2)) & 0x4924_9249;
    x |= y << 1;

    z &= 0x3FF;
    z = (z | (z << 16)) & 0xFF00_00FF;
    z = (z | (z << 8)) & 0x0F00_F00F;
    z = (z | (z << 4)) & 0xC30C_30C3;
    z = (z | (z << 2)) & 0x4924_9249;

    x | (z << 2)
}

/// Takes component `n` out of a code made by [`interleave3`]: the 10 bits at
/// the positions `n`, `n + 3`, .., `n + 27` of `v`, moved together. For `n == 0`
/// that is the first coordinate, for `n == 1` the second, for `n == 2` the
/// third. Of `n` only the five lowest bits are used, so that every `n` is a
/// shift within the word.
pub fn deinterleave3(v: u32, n: u32) -> (r: u32)
    ensures
        r == every_third((v >> (n % 32)) as nat, 10),
        n == 0 ==> r == every_third(v as nat, 10),
        n == 1 ==> r == every_third(v as nat / 2, 10),
        n == 2 ==> r == every_third(v as nat / 4, 10),
        r < 0x400,
        forall|i: u32| i < 10 ==> #[trigger] bit(r, i) == bit(v >> (n % 32), (3 * i) as u32),
{
    let w = v.wrapping_shr(n);
    proof {
        lemma_packed3(w);
        lemma_pick3(w, 10);
        lemma_shift_by_index(v, n);
        lemma2_to64();
        assert forall|i: u32| i < 10 implies bit(packed3(w), i) == bit(w, (3 * i) as u32) by {
            lemma_third_bits(packed3(w), w, 10, i);
        }
    }
    let mut v = w & 0x4924_9249;
    v = (v | (v >> 2)) & 0xC30C_30C3;
    v = (v | (v >> 4)) & 0x0F00_F00F;
    v = (v | (v >> 8)) & 0xFF00_00FF;
    v = (v | (v >> 16)) & 0x3FF;
    (v << 22) >> 22
}

proof fn lemma_shift_by_index(v: u32, n: u32)
    by (bit_vector)
    ensures
        n == 0 ==> v >> (n % 32) == v,
        n == 1 ==> v >> (n % 32) == v / 2,
        n == 2 ==> v >> (n % 32) == v / 4,
{
}

// The lowest digits of a number put together from the digits `a` and `b` and
// the rest of the code, and what is left of it above them.
proof fn lemma_code2_digits(a: nat, b: nat, rest: nat)
    requires
        a < 2,
        b < 2,
    ensures
        (a + 2 * b + 4 * rest) % 2 == a,
        (a + 2 * b + 4 * rest) / 4 == rest,
        ((a + 2 * b + 4 * rest) / 2) % 2 == b,
        ((a + 2 * b + 4 * rest) / 2) / 4 == rest / 2,
{
}

proof fn lemma_code3_digits(a: nat, b: nat, c: nat, rest: nat)
    requires
        a < 2,
        b < 2,
        c < 2,
    ensures
        (a + 2 * b + 4 * c + 8 * rest) % 2 == a,
        (a + 2 * b + 4 * c + 8 * rest) / 8 == rest,
        ((a + 2 * b + 4 * c + 8 * rest) / 2) % 2 == b,
        ((a + 2 * b + 4 * c + 8 * rest) / 2) / 8 == rest / 2,
        ((a + 2 * b + 4 * c + 8 * rest) / 4) % 2 == c,
        ((a + 2 * b + 4 * c + 8 * rest) / 4) / 8 == rest / 4,
{
}

/// Taking every second digit of an interleaved number gives the first
/// coordinate back, and after dropping the lowest digit the second: each as
/// far as it was read, its `n` lowest digits.
pub proof fn lemma_every_second_of_interleaved2(x: nat, y: nat, n: nat)
    ensures
        every_second(interleaved2(x, y, n), n) == x % pow2(n),
        every_second(interleaved2(x, y, n) / 2, n) == y % pow2(n),
    decreases n,
{
    if n == 0 {
        lemma2_to64();
    } else {
        let rest = interleaved2(x / 2, y / 2, (n - 1) as nat);
        lemma_every_second_of_interleaved2(x / 2, y / 2, (n - 1) as nat);
        lemma_code2_digits(x % 2, y % 2, rest);
        lemma_low_digits(x, n);
        lemma_low_digits(y, n);
    }
}

/// Taking every third digit of an interleaved number gives the first
/// coordinate back, after dropping the lowest digit the second, and after
/// dropping two the third: each as far as it was read, its `n` lowest digits.
pub proof fn lemma_every_third_of_interleaved3(x: nat, y: nat, z: nat, n: nat)
    ensures
        every_third(interleaved3(x, y, z, n), n) == x % pow2(n),
        every_third(interleaved3(x, y, z, n) / 2, n) == y % pow2(n),
        every_third(interleaved3(x, y, z, n) / 4, n) == z % pow2(n),
    decreases n,
{
    if n == 0 {
        lemma2_to64();
    } else {
        let rest = interleaved3(x / 2, y / 2, z / 2, (n - 1) as nat);
        lemma_every_third_of_interleaved3(x / 2, y / 2, z / 2, (n - 1) as nat);
        lemma_code3_digits(x % 2, y % 2, z % 2, rest);
        lemma_low_digits(x, n);
        lemma_low_digits(y, n);
        lemma_low_digits(z, n);
    }
}

// The `n` lowest digits of `x` are its lowest digit and the `n - 1` lowest
// digits of `x / 2`.
proof fn lemma_low_digits(x: nat, n: nat)
    requires
        n > 0,
    ensures
        x % pow2(n) == x % 2 + 2 * ((x / 2) % pow2((n - 1) as nat)),
{
    lemma_pow2_unfold(n);
    lemma_pow2_pos((n - 1) as nat);
    vstd::arithmetic::div_mod::lemma_mod_breakdown(x as int, 2, pow2((n - 1) as nat) as int);
}

/// [`deinterleave2`] undoes [`interleave2`]: from the code of `x` and `y`,
/// component 0 is `x` and component 1 is `y`, each as far as it went into the
/// code, its 16 lowest bits.
pub proof fn lemma_deinterleave2_inverts(x: u32, y: u32)
    ensures
        every_second(interleaved2(x as nat, y as nat, 16), 16) == x % 0x1_0000,
        every_second(interleaved2(x as nat, y as nat, 16) / 2, 16) == y % 0x1_0000,
{
    lemma_every_second_of_interleaved2(x as nat, y as nat, 16);
    lemma2_to64();
}

/// [`deinterleave3`] undoes [`interleave3`]: from the code of `x`, `y` and `z`,
/// component 0 is `x`, component 1 is `y` and component 2 is `z`, each as far
/// as it went into the code, its 10 lowest bits.
pub proof fn lemma_deinterleave3_inverts(x: u32, y: u32, z: u32)
    ensures
        every_third(interleaved3(x as nat, y as nat, z as nat, 10), 10) == x % 0x400,
        every_third(interleaved3(x as nat, y as nat, z as nat, 10) / 2, 10) == y % 0x400,
        every_third(interleaved3(x as nat, y as nat, z as nat, 10) / 4, 10) == z % 0x400,
{
    lemma_every_third_of_interleaved3(x as nat, y as nat, z as nat, 10);
    lemma2_to64();
}

} // verus!
