use bit_twiddle::{
    abs, count_trailing_zeros, deinterleave2, deinterleave3, interleave2, interleave3, is_pow2,
    log2, max, min, next_combination, next_pow2, not, parity, pop_count, prev_pow2, reverse, sign,
    INT_MAX, INT_MIN,
};

#[test]
fn test_not() {
    assert_eq!(not(170), -171);
    assert_eq!(not(0), -1);
    assert_eq!(not(-3), 2);
}

#[test]
fn test_sign() {
    assert_eq!(sign(-100), -1);
    assert_eq!(sign(100), 1);
    assert_eq!(sign(0), 0);
    assert_eq!(sign(INT_MAX), 1);
    assert_eq!(sign(INT_MIN), -1);
}

#[test]
fn test_abs() {
    assert_eq!(abs(0), 0);
    assert_eq!(abs(1), 1);
    assert_eq!(abs(-1), 1);
    assert_eq!(abs(INT_MAX), INT_MAX);
    assert_eq!(abs(-INT_MAX), INT_MAX);
}

#[test]
fn test_min() {
    assert_eq!(min(0, 0), 0);
    assert_eq!(min(-1, 1), -1);
    assert_eq!(min(INT_MAX, INT_MAX), INT_MAX);
    assert_eq!(min(INT_MIN, INT_MIN), INT_MIN);
    assert_eq!(min(INT_MAX, INT_MIN), INT_MIN);
}

#[test]
fn test_max() {
    assert_eq!(max(0, 0), 0);
    assert_eq!(max(-1, 1), 1);
    assert_eq!(max(INT_MAX, INT_MAX), INT_MAX);
    assert_eq!(max(INT_MIN, INT_MIN), INT_MIN);
    assert_eq!(max(INT_MAX, INT_MIN), INT_MAX);
}

#[test]
fn test_is_pow2() {
    assert!(!is_pow2(0));
    for i in 0..31 {
        assert!(is_pow2(1 << i));
    }
    assert!(!is_pow2(100));
    assert!(!is_pow2(0x7fffffff));
    assert!(!is_pow2(-1000000));
}

#[test]
fn test_log2() {
    for i in 0..31 {
        if i > 0 {
            assert_eq!(log2((1 << i) - 1), i - 1);
            assert_eq!(log2((1 << i) + 1), i);
        }
        assert_eq!(log2(1 << i), i);
    }
}

#[test]
fn test_pop_count() {
    assert_eq!(pop_count(0), 0);
    assert_eq!(pop_count(1), 1);
    for i in 0..31 {
        assert_eq!(pop_count(1 << i), 1);
        assert_eq!(pop_count((1 << i) - 1), i);
    }
    assert_eq!(pop_count(0xf0f00f0f), 16);
}

#[test]
fn test_count_trailing_zeros() {
    assert_eq!(count_trailing_zeros(0), 32);
    assert_eq!(count_trailing_zeros(1), 0);
    for i in 0..31 {
        assert_eq!(count_trailing_zeros(1 << i), i);
        if i > 0 {
            assert_eq!(count_trailing_zeros((1 << i) - 1), 0)
        }
    }
    assert_eq!(count_trailing_zeros(0xf81700), 8);
}

#[test]
fn test_next_pow2() {
    for i in 0..31 {
        if i != 1 {
            assert_eq!(next_pow2((1 << i) - 1), 1 << i);
        }
        assert_eq!(next_pow2(1 << i), 1 << i);
        if i < 30 {
            assert_eq!(next_pow2((1 << i) + 1), 1 << (i + 1));
        }
    }
}

#[test]
fn test_prev_pow2() {
    println!(
        "{i:>2}    {input:>w$}    {prev:>w$}",
        i = "i",
        input = "((1 << i) + 1)",
        prev = "prev_pow2",
        w = 10
    );
    println!("{}", "-".repeat(34));
    for i in 0..31 {
        if i > 0 {
            assert_eq!(prev_pow2((1 << i) - 1), 1 << (i - 1));
        }
        assert_eq!(prev_pow2(1 << i), 1 << i);

        if 0 < i && i < 30 {
            println!(
                "{i:>2} .. {input:>w$} .. {prev:>w$}",
                i = i,
                input = ((1 << i) + 1),
                prev = prev_pow2((1 << i) + 1),
                w = 10
            );
            assert_eq!(prev_pow2((1 << i) + 1), 1 << i);
        }
    }
}

#[test]
fn test_parity() {
    assert_eq!(parity(1), 1);
    assert_eq!(parity(0), 0);
    assert_eq!(parity(0xf), 0);
    assert_eq!(parity(0x10f), 1);
}

#[test]
fn test_reverse() {
    assert_eq!(reverse(0), 0);
}

#[test]
fn test_next_combination() {
    assert_eq!(next_combination(1), 2);
    assert_eq!(next_combination(0x300), 0x401);
}

#[test]
fn test_interleave2() {
    for x in 0..100 {
        for y in 0..100 {
            let h = interleave2(x, y);
            assert_eq!(deinterleave2(h, 0), x);
            assert_eq!(deinterleave2(h, 1), y);
        }
    }
}

#[test]
fn test_interleave3() {
    for x in 0..(25 + 1) {
        for y in 0..(25 + 1) {
            for z in 0..(25 + 1) {
                let h = interleave3(x, y, z);
                assert_eq!(deinterleave3(h, 0), x);
                assert_eq!(deinterleave3(h, 1), y);
                assert_eq!(deinterleave3(h, 2), z);
            }
        }
    }
}
