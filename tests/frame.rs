use flac::frame::sign_extend;

#[test]
fn test_sign_extend() {
    assert_eq!(sign_extend(0b110, 3), -2);
    assert_eq!(sign_extend(0b10110011, 8), -77);
    assert_eq!(sign_extend(0b001, 3), 1);
    assert_eq!(sign_extend(0b00110011, 8), 51);
}

#[test]
fn sign_extend_matches_shift_form() {
    for n in 1usize..=64 {
        for u in [0u64, 1, 2, 3, 0x55, 0xAA, u64::MAX >> 1, u64::MAX] {
            let u = if n == 64 { u } else { u & ((1u64 << n) - 1) };
            let top = if n == 64 { u >> 63 } else { u >> (n - 1) };
            let expected = u as i128 - ((top as i128) << n);
            assert_eq!(sign_extend(u, n) as i128, expected);
        }
    }
}

#[test]
fn sign_extend_full_width() {
    assert_eq!(sign_extend(u64::MAX, 64), -1);
    assert_eq!(sign_extend(1u64 << 63, 64), i64::MIN);
    assert_eq!(sign_extend(0b1, 1), -1);
}
