use rustorcli::io_primitives::{bytes_equal, bytes_to_u32, u32_at, u32_to_bytes};
use rustorcli::text::{join_strings, parse_u32, str_equal, u64_to_decimal};

#[test]
fn u32_to_bytes_is_big_endian() {
    assert_eq!(u32_to_bytes(0x01020304), vec![1, 2, 3, 4]);
    assert_eq!(u32_to_bytes(0), vec![0, 0, 0, 0]);
    assert_eq!(u32_to_bytes(u32::MAX), vec![255, 255, 255, 255]);
    assert_eq!(u32_to_bytes(16384), vec![0, 0, 64, 0]);
}

#[test]
fn bytes_to_u32_reads_big_endian() {
    assert_eq!(bytes_to_u32(&[0, 0, 1, 0]), 256);
    assert_eq!(bytes_to_u32(&[1, 2, 3, 4, 99]), 0x01020304);
    assert_eq!(u32_at(&[9, 0, 0, 0, 13], 1), 13);
}

#[test]
fn u32_roundtrip_on_values() {
    for n in [0u32, 1, 255, 256, 65535, 65536, 16777215, 16777216, 123456789, u32::MAX] {
        assert_eq!(bytes_to_u32(&u32_to_bytes(n)), n);
    }
}

#[test]
fn bytes_equal_compares_contents() {
    assert!(bytes_equal(&[1, 2, 3], &[1, 2, 3]));
    assert!(!bytes_equal(&[1, 2, 3], &[1, 2, 4]));
    assert!(!bytes_equal(&[1, 2], &[1, 2, 3]));
    assert!(bytes_equal(&[], &[]));
}

#[test]
fn decimal_text() {
    assert_eq!(u64_to_decimal(0), "0");
    assert_eq!(u64_to_decimal(7), "7");
    assert_eq!(u64_to_decimal(6881), "6881");
    assert_eq!(u64_to_decimal(u64::MAX), u64::MAX.to_string());
}

#[test]
fn parse_u32_like_std() {
    assert_eq!(parse_u32("1"), Some(1));
    assert_eq!(parse_u32("+42"), Some(42));
    assert_eq!(parse_u32("0042"), Some(42));
    assert_eq!(parse_u32("4294967295"), Some(u32::MAX));
    assert_eq!(parse_u32("4294967296"), None);
    assert_eq!(parse_u32(""), None);
    assert_eq!(parse_u32("+"), None);
    assert_eq!(parse_u32("-1"), None);
    assert_eq!(parse_u32("12a"), None);
    assert_eq!(parse_u32("99999999999999999999"), None);
    for s in ["7", "+0", "abc", "1 ", "65536"] {
        assert_eq!(parse_u32(s), s.parse::<u32>().ok());
    }
}

#[test]
fn decimal_text_parses_back() {
    for n in [0u32, 1, 9, 10, 99, 100, 65535, 4294967294, u32::MAX] {
        assert_eq!(parse_u32(&u64_to_decimal(n as u64)), Some(n));
    }
}

#[test]
fn join_like_std() {
    let parts = vec![String::from("a"), String::from("bc"), String::from("d")];
    assert_eq!(join_strings(&parts, "/"), "a/bc/d");
    assert_eq!(join_strings(&vec![], "/"), "");
    assert_eq!(join_strings(&vec![String::from("x")], "/"), "x");
}

#[test]
fn str_equal_compares_text() {
    assert!(str_equal("abc", "abc"));
    assert!(!str_equal("abc", "abd"));
    assert!(!str_equal("ab", "abc"));
}
