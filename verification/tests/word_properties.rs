use bit_twiddle::{
    abs, bi32, bu32, count_trailing_zeros, deinterleave2, deinterleave3, interleave2,
    interleave3, is_pow2, log10, log2, max, min, next_combination, next_pow2, not, parity,
    pop_count, prev_pow2, reverse, sign, usz, INT_BITS, INT_MAX, INT_MIN, REVERSE_TABLE,
};

/// A fixed walk through the 32-bit words that touches every bit position.
fn samples() -> Vec<u32> {
    let mut out = vec![0, 1, 2, 3, 0xff, 0x100, 0xffff, 0x1_0000, 0x7fff_ffff, 0x8000_0000, 0xffff_ffff];
    let mut x: u32 = 0x2545_f491;
    for _ in 0..2000 {
        x ^= x << 13;
        x ^= x >> 17;
        x ^= x << 5;
        out.push(x);
    }
    out
}

#[test]
fn constants_describe_the_word() {
    assert_eq!(INT_BITS, 32);
    assert_eq!(INT_MAX, i32::MAX);
    assert_eq!(INT_MIN, i32::MIN);
    assert_eq!(INT_MIN, !INT_MAX);
}

#[test]
fn not_flips_every_bit() {
    assert_eq!(not(INT_MAX), INT_MIN);
    assert_eq!(not(INT_MIN), INT_MAX);
    assert_eq!(not(-1), 0);
    for v in samples() {
        let v = v as i32;
        assert_eq!(not(v), !v);
        assert_eq!(not(not(v)), v);
    }
}

#[test]
fn bool_conversions() {
    assert_eq!(bi32(true), 1);
    assert_eq!(bi32(false), 0);
    assert_eq!(bu32(true), 1);
    assert_eq!(bu32(false), 0);
}

#[test]
fn usz_keeps_the_value() {
    assert_eq!(usz(0), 0usize);
    assert_eq!(usz(255), 255usize);
    assert_eq!(usz(u32::MAX), u32::MAX as usize);
}

#[test]
fn sign_matches_signum() {
    for v in samples() {
        let v = v as i32;
        assert_eq!(sign(v), v.signum());
    }
}

#[test]
fn abs_of_smallest_word_wraps() {
    assert_eq!(abs(INT_MIN), INT_MIN);
    assert_eq!(abs(INT_MIN + 1), INT_MAX);
    assert_eq!(abs(-12345), 12345);
    for v in samples() {
        let v = v as i32;
        assert_eq!(abs(v), v.wrapping_abs());
    }
}

#[test]
fn min_max_agree_with_comparison() {
    let edge = [INT_MIN, INT_MIN + 1, -2, -1, 0, 1, 2, INT_MAX - 1, INT_MAX];
    for &x in edge.iter() {
        for &y in edge.iter() {
            assert_eq!(min(x, y), if x < y { x } else { y });
            assert_eq!(max(x, y), if x < y { y } else { x });
        }
    }
    let s = samples();
    for pair in s.windows(2) {
        let (x, y) = (pair[0] as i32, pair[1] as i32);
        assert_eq!(min(x, y), Ord::min(x, y));
        assert_eq!(max(x, y), Ord::max(x, y));
    }
}

#[test]
fn is_pow2_counts_the_sign_bit_alone() {
    assert!(is_pow2(1));
    assert!(is_pow2(1 << 30));
    assert!(is_pow2(INT_MIN));
    assert!(!is_pow2(-1));
    assert!(!is_pow2(INT_MIN + 1));
    assert!(!is_pow2(3));
    for v in samples() {
        assert_eq!(is_pow2(v as i32), v.is_power_of_two());
    }
}

#[test]
fn log2_edges() {
    assert_eq!(log2(0), 0);
    assert_eq!(log2(1), 0);
    assert_eq!(log2(2), 1);
    assert_eq!(log2(3), 1);
    assert_eq!(log2(0x8000_0000), 31);
    assert_eq!(log2(u32::MAX), 31);
    for v in samples() {
        if v > 0 {
            assert_eq!(log2(v), 31 - v.leading_zeros());
        }
    }
}

#[test]
fn log10_thresholds() {
    assert_eq!(log10(0), 0);
    assert_eq!(log10(1), 0);
    assert_eq!(log10(9), 0);
    let mut p: i32 = 1;
    for k in 1..10 {
        p *= 10;
        assert_eq!(log10(p - 1), k - 1);
        assert_eq!(log10(p), k);
        assert_eq!(log10(p + 1), k);
    }
    assert_eq!(log10(INT_MAX), 9);
    assert_eq!(log10(-1), 0);
    assert_eq!(log10(INT_MIN), 0);
}

#[test]
fn pop_count_matches_count_ones() {
    assert_eq!(pop_count(u32::MAX), 32);
    assert_eq!(pop_count(0x8000_0000), 1);
    assert_eq!(pop_count(0x7fff_ffff), 31);
    for v in samples() {
        assert_eq!(pop_count(v), v.count_ones());
    }
}

#[test]
fn count_trailing_zeros_matches_native() {
    assert_eq!(count_trailing_zeros(0x8000_0000), 31);
    assert_eq!(count_trailing_zeros(u32::MAX), 0);
    assert_eq!(count_trailing_zeros(0x0001_0000), 16);
    for v in samples() {
        assert_eq!(count_trailing_zeros(v), v.trailing_zeros());
        assert_eq!(count_trailing_zeros(v << 7), (v << 7).trailing_zeros());
    }
}

#[test]
fn next_pow2_edges() {
    assert_eq!(next_pow2(0), 1);
    assert_eq!(next_pow2(1), 1);
    assert_eq!(next_pow2(2), 2);
    assert_eq!(next_pow2(3), 4);
    assert_eq!(next_pow2(5), 8);
    assert_eq!(next_pow2(1000), 1024);
    assert_eq!(next_pow2(0x4000_0000), 0x4000_0000);
    assert_eq!(next_pow2(0x4000_0001), INT_MIN);
    assert_eq!(next_pow2(INT_MAX), INT_MIN);
    assert_eq!(next_pow2(-1), 0);
    assert_eq!(next_pow2(-1000), 0);
    assert_eq!(next_pow2(INT_MIN + 1), 0);
    assert_eq!(next_pow2(INT_MIN), INT_MIN);
    for v in samples() {
        let v = (v >> 2) as i32;
        assert_eq!(next_pow2(v) as u32, (v as u32).next_power_of_two());
    }
}

#[test]
fn prev_pow2_edges() {
    assert_eq!(prev_pow2(0), 0);
    assert_eq!(prev_pow2(1), 1);
    assert_eq!(prev_pow2(2), 2);
    assert_eq!(prev_pow2(3), 2);
    assert_eq!(prev_pow2(1000), 512);
    assert_eq!(prev_pow2(INT_MAX), 0x4000_0000);
    assert_eq!(prev_pow2(-1), 0);
    assert_eq!(prev_pow2(-1000), 0);
    assert_eq!(prev_pow2(INT_MIN), 0);
    for v in samples() {
        let v = (v >> 1) as i32;
        if v > 0 {
            assert_eq!(prev_pow2(v), 1 << (31 - v.leading_zeros()));
        }
    }
}

#[test]
fn parity_counts_every_bit() {
    assert_eq!(parity(-1), 0);
    assert_eq!(parity(INT_MIN), 1);
    assert_eq!(parity(INT_MAX), 1);
    assert_eq!(parity(0x0101_0101), 0);
    assert_eq!(parity(0x0101_0100), 1);
    for v in samples() {
        assert_eq!(parity(v as i32), (v.count_ones() % 2) as i32);
    }
}

#[test]
fn reverse_table_reverses_each_byte() {
    assert_eq!(REVERSE_TABLE.len(), 256);
    assert_eq!(REVERSE_TABLE[0], 0);
    assert_eq!(REVERSE_TABLE[1], 128);
    assert_eq!(REVERSE_TABLE[2], 64);
    assert_eq!(REVERSE_TABLE[0x0f], 0xf0);
    assert_eq!(REVERSE_TABLE[255], 255);
    for b in 0..256usize {
        assert_eq!(REVERSE_TABLE[b], (b as u8).reverse_bits() as u32);
    }
}

#[test]
fn reverse_mirrors_the_word() {
    assert_eq!(reverse(1), 0x8000_0000);
    assert_eq!(reverse(0x8000_0000), 1);
    assert_eq!(reverse(0x0000_00ff), 0xff00_0000);
    assert_eq!(reverse(0x1234_5678), 0x1e6a_2c48);
    assert_eq!(reverse(u32::MAX), u32::MAX);
    for v in samples() {
        assert_eq!(reverse(v), v.reverse_bits());
        assert_eq!(reverse(reverse(v)), v);
    }
}

#[test]
fn interleave2_places_the_bits() {
    assert_eq!(interleave2(0, 0), 0);
    assert_eq!(interleave2(1, 0), 1);
    assert_eq!(interleave2(0, 1), 2);
    assert_eq!(interleave2(3, 0), 5);
    assert_eq!(interleave2(0, 3), 10);
    assert_eq!(interleave2(0xffff, 0), 0x5555_5555);
    assert_eq!(interleave2(0, 0xffff), 0xaaaa_aaaa);
    assert_eq!(interleave2(0xffff, 0xffff), 0xffff_ffff);
    assert_eq!(interleave2(0x1_0000, 0x1_0000), 0);
    assert_eq!(interleave2(0xabcd_0007, 0), interleave2(7, 0));
}

#[test]
fn deinterleave2_inverts_on_all_sixteen_bits() {
    for x in [0u32, 1, 255, 256, 300, 1000, 0x8000, 0xabcd, 0xffff] {
        for y in [0u32, 1, 255, 256, 777, 0x5555, 0x8001, 0xffff] {
            let h = interleave2(x, y);
            assert_eq!(deinterleave2(h, 0), x);
            assert_eq!(deinterleave2(h, 1), y);
        }
    }
    for pair in samples().windows(2) {
        let h = interleave2(pair[0], pair[1]);
        assert_eq!(deinterleave2(h, 0), pair[0] & 0xffff);
        assert_eq!(deinterleave2(h, 1), pair[1] & 0xffff);
    }
}

#[test]
fn deinterleave2_takes_every_second_bit() {
    assert_eq!(deinterleave2(0xffff_ffff, 0), 0xffff);
    assert_eq!(deinterleave2(0xffff_ffff, 1), 0xffff);
    assert_eq!(deinterleave2(0x5555_5555, 0), 0xffff);
    assert_eq!(deinterleave2(0x5555_5555, 1), 0);
    assert_eq!(deinterleave2(0x0001_0000, 0), 0x100);
    assert_eq!(deinterleave2(0x8000_0000, 1), 0x8000);
    // only the five lowest bits of the index are used
    assert_eq!(deinterleave2(0x5555_5555, 32), 0xffff);
    assert_eq!(deinterleave2(0x5555_5555, 33), 0);
    assert_eq!(deinterleave2(0xffff_ffff, 2), 0x7fff);
}

#[test]
fn interleave3_places_the_bits() {
    assert_eq!(interleave3(0, 0, 0), 0);
    assert_eq!(interleave3(1, 0, 0), 1);
    assert_eq!(interleave3(0, 1, 0), 2);
    assert_eq!(interleave3(0, 0, 1), 4);
    assert_eq!(interleave3(2, 0, 0), 8);
    assert_eq!(interleave3(0x3ff, 0, 0), 0x0924_9249);
    assert_eq!(interleave3(0x3ff, 0x3ff, 0x3ff), 0x3fff_ffff);
    assert_eq!(interleave3(0x400, 0x400, 0x400), 0);
}

#[test]
fn deinterleave3_inverts_on_all_ten_bits() {
    for x in [0u32, 1, 26, 255, 256, 511, 1023] {
        for y in [0u32, 2, 100, 512, 1000, 1023] {
            for z in [0u32, 3, 77, 768, 1023] {
                let h = interleave3(x, y, z);
                assert_eq!(deinterleave3(h, 0), x);
                assert_eq!(deinterleave3(h, 1), y);
                assert_eq!(deinterleave3(h, 2), z);
            }
        }
    }
    for t in samples().windows(3) {
        let h = interleave3(t[0], t[1], t[2]);
        assert_eq!(deinterleave3(h, 0), t[0] & 0x3ff);
        assert_eq!(deinterleave3(h, 1), t[1] & 0x3ff);
        assert_eq!(deinterleave3(h, 2), t[2] & 0x3ff);
    }
}

#[test]
fn deinterleave3_takes_every_third_bit() {
    assert_eq!(deinterleave3(0xffff_ffff, 0), 0x3ff);
    assert_eq!(deinterleave3(0xffff_ffff, 1), 0x3ff);
    assert_eq!(deinterleave3(0xffff_ffff, 2), 0x3ff);
    assert_eq!(deinterleave3(0x4000_0000, 0), 0);
    assert_eq!(deinterleave3(0x0800_0000, 0), 0x200);
    assert_eq!(deinterleave3(0x2000_0000, 2), 0x200);
    assert_eq!(deinterleave3(0x0924_9249, 32), 0x3ff);
}

/// The next greater word with as many set bits, found by counting up.
fn successor_by_search(v: u32) -> Option<u32> {
    let mut w = v;
    while w < u32::MAX {
        w += 1;
        if w.count_ones() == v.count_ones() {
            return Some(w);
        }
    }
    None
}

#[test]
fn next_combination_is_the_next_word_with_the_same_count() {
    assert_eq!(next_combination(3), 5);
    assert_eq!(next_combination(5), 6);
    assert_eq!(next_combination(6), 9);
    assert_eq!(next_combination(0x7000_0000), 0x8000_0003);
    assert_eq!(next_combination(0x4000_0000), 0x8000_0000);
    for v in 1..5000u32 {
        assert_eq!(Some(next_combination(v)), successor_by_search(v));
    }
}

#[test]
fn next_combination_walks_all_combinations() {
    // the 20 ways to set 3 of the 6 lowest bits, in rising order
    let mut v: u32 = 0b000111;
    let mut seen = vec![v];
    while v != 0b111000 {
        let next = next_combination(v);
        assert!(next > v);
        assert_eq!(next.count_ones(), 3);
        v = next;
        seen.push(v);
    }
    assert_eq!(seen.len(), 20);
}

#[test]
fn next_combination_outside_its_domain() {
    assert_eq!(next_combination(0), 0x7fff_ffff);
    assert_eq!(next_combination(0x8000_0000), 0xffff_ffff);
    assert_eq!(next_combination(0xc000_0000), 1);
    assert_eq!(next_combination(0xffff_ffff), 0x7fff_ffff);
}
