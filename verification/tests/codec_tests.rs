use askai_limiter::codec::{decode_u32, decode_u64, encode_u32, encode_u64};

#[test]
fn round_trip_small_counts() {
    for n in [0u32, 1, 2, 3, 9, 10, 42, 199, 200, 201] {
        assert_eq!(decode_u32(&encode_u32(n)), Some(n));
    }
}

#[test]
fn round_trip_large_counts() {
    for n in [65536u32, 1_000_000, u32::MAX - 1, u32::MAX] {
        assert_eq!(decode_u32(&encode_u32(n)), Some(n));
    }
}

#[test]
fn round_trip_u64() {
    for n in [0u64, 86400, 1_700_000_000, u64::MAX] {
        assert_eq!(decode_u64(&encode_u64(n)), Some(n));
    }
}

#[test]
fn encode_is_plain_decimal() {
    assert_eq!(encode_u32(0), b"0".to_vec());
    assert_eq!(encode_u32(120), b"120".to_vec());
    assert_eq!(encode_u32(4294967295), b"4294967295".to_vec());
    assert_eq!(encode_u64(86400), b"86400".to_vec());
}

#[test]
fn decode_accepts_leading_zeros() {
    assert_eq!(decode_u32(b"007"), Some(7));
    assert_eq!(decode_u32(b"000"), Some(0));
}

#[test]
fn decode_rejects_empty() {
    assert_eq!(decode_u32(b""), None);
    assert_eq!(decode_u64(b""), None);
}

#[test]
fn decode_rejects_non_digits() {
    assert_eq!(decode_u32(b"abc"), None);
    assert_eq!(decode_u32(b"12a"), None);
    assert_eq!(decode_u32(b"-1"), None);
    assert_eq!(decode_u32(b" 5"), None);
}

#[test]
fn decode_rejects_overflow() {
    assert_eq!(decode_u32(b"4294967295"), Some(u32::MAX));
    assert_eq!(decode_u32(b"4294967296"), None);
    assert_eq!(decode_u32(b"99999999999999999999"), None);
    assert_eq!(decode_u64(b"18446744073709551615"), Some(u64::MAX));
    assert_eq!(decode_u64(b"18446744073709551616"), None);
}
