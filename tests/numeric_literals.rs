use cspect::numeric::{detect_radix, string_to_u128, string_to_u64, trim_ws};

#[test]
fn hex_literal() {
    assert_eq!(string_to_u64("0x1F").unwrap(), 31);
}

#[test]
fn binary_literal() {
    assert_eq!(string_to_u64("0b101").unwrap(), 5);
}

#[test]
fn decimal_literal() {
    assert_eq!(string_to_u64("42").unwrap(), 42);
}

#[test]
fn upper_case_prefix_with_whitespace() {
    assert_eq!(string_to_u64(" 0X1f ").unwrap(), 31);
    assert_eq!(string_to_u128("\t0B11\n").unwrap(), 3);
}

#[test]
fn malformed_literal_declines() {
    assert!(string_to_u64("0xZZ").is_err());
    assert!(string_to_u64("").is_err());
    assert!(string_to_u64("0x").is_err());
    assert!(string_to_u64("-1").is_err());
}

#[test]
fn overflow_is_an_error() {
    assert!(string_to_u64("0x10000000000000000").is_err());
    assert_eq!(string_to_u128("0x10000000000000000").unwrap(), 1u128 << 64);
}

#[test]
fn radix_detection() {
    assert_eq!(detect_radix("  0xab "), ("ab", 16));
    assert_eq!(detect_radix("0B1"), ("1", 2));
    assert_eq!(detect_radix("0"), ("0", 10));
    assert_eq!(trim_ws("\u{3000} a b \u{85}"), "a b");
}
