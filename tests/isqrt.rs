use arith::isqrt;

#[test]
fn test_isqrt() {
    for i in 0..0xffff {
        assert_eq!(isqrt(i), f32::sqrt(i as f32) as u32);
    }
}

#[test]
fn isqrt_small_values() {
    assert_eq!(isqrt(0), 0);
    assert_eq!(isqrt(1), 1);
    assert_eq!(isqrt(2), 1);
    assert_eq!(isqrt(3), 1);
    assert_eq!(isqrt(4), 2);
}

#[test]
fn isqrt_of_max() {
    let g = isqrt(u32::MAX) as u64;
    assert_eq!(g, 65535);
    assert!(g * g <= u32::MAX as u64);
    assert!((u32::MAX as u64) < (g + 1) * (g + 1));
}

#[test]
fn isqrt_of_perfect_squares() {
    for k in [0u32, 1, 2, 3, 10, 255, 256, 4095, 46340, 65535] {
        assert_eq!(isqrt(k * k), k);
    }
}

#[test]
fn isqrt_just_below_squares() {
    for k in [2u32, 3, 17, 1000, 65535] {
        assert_eq!(isqrt(k * k - 1), k - 1);
    }
}

#[test]
fn isqrt_across_powers_of_two() {
    for b in 1..32u32 {
        let p = 1u32 << b;
        for n in [p - 1, p, p + 1] {
            let g = isqrt(n) as u64;
            assert!(g * g <= n as u64);
            assert!((n as u64) < (g + 1) * (g + 1));
        }
    }
    assert_eq!(isqrt(1 << 31), 46340);
    assert_eq!(isqrt(0x8000_0001), 46340);
    assert_eq!(isqrt(0xfffe_0001), 65535);
    assert_eq!(isqrt(0xfffe_0000), 65534);
}
