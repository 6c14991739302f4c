//! Tests of the ASCII-decimal integer parser and formatter.

use trafix_codec::num::ParseIntError;

#[test]
fn parse_u8() {
    let value = trafix_codec::num::parse_u8(b"123");
    assert!(matches!(value, Ok(123)));

    let res = trafix_codec::num::parse_u8(b"001");
    assert!(matches!(res, Ok(1)));

    let res = trafix_codec::num::parse_u8(b"000");
    assert!(matches!(res, Ok(0)));

    let res = trafix_codec::num::parse_u8(b"256");
    assert!(matches!(res, Err(ParseIntError::Overflow)));

    let res = trafix_codec::num::parse_u8(b"1000");
    assert!(matches!(res, Err(ParseIntError::Overflow)));

    let res = trafix_codec::num::parse_u8(b"-100");
    assert!(matches!(res, Err(ParseIntError::Overflow)));
}

#[test]
fn parse_i8() {
    let value = trafix_codec::num::parse_i8(b"123");
    assert!(matches!(value, Ok(123)));

    let res = trafix_codec::num::parse_i8(b"001");
    assert!(matches!(res, Ok(1)));

    let res = trafix_codec::num::parse_i8(b"000");
    assert!(matches!(res, Ok(0)));

    let res = trafix_codec::num::parse_i8(b"128");
    assert!(matches!(res, Err(ParseIntError::Overflow)));

    let res = trafix_codec::num::parse_i8(b"-128");
    assert_eq!(res, Ok(-128));

    let res = trafix_codec::num::parse_i8(b"-129");
    assert_eq!(res, Err(ParseIntError::Overflow));

    let res = trafix_codec::num::parse_i8(b"1000");
    assert_eq!(res, Err(ParseIntError::Overflow));

    let res = trafix_codec::num::parse_i8(b"-100");
    assert_eq!(res, Ok(-100));
}

#[test]
fn non_digits() {
    let res = trafix_codec::num::parse_u8(b"abc");
    assert_eq!(res, Err(ParseIntError::InvalidDigit));

    let res = trafix_codec::num::parse_i8(b"abc");
    assert_eq!(res, Err(ParseIntError::InvalidDigit));
}

#[test]
fn empty_input() {
    assert_eq!(trafix_codec::num::parse_u8(b""), Err(ParseIntError::Empty));
    assert_eq!(trafix_codec::num::parse_i8(b""), Err(ParseIntError::Empty));
    assert_eq!(trafix_codec::num::parse_i8(b"-"), Err(ParseIntError::Empty));
}

#[test]
fn overflow_before_invalid_digit() {
    // the overflow at the third digit is reported before the non-digit
    // byte that follows it is reached
    assert_eq!(trafix_codec::num::parse_u8(b"999x"), Err(ParseIntError::Overflow));
    // within range, the non-digit byte is the error
    assert_eq!(trafix_codec::num::parse_u8(b"25x"), Err(ParseIntError::InvalidDigit));
}

#[test]
fn wider_targets() {
    assert_eq!(trafix_codec::num::parse_u16(b"65535"), Ok(65535));
    assert_eq!(trafix_codec::num::parse_u16(b"65536"), Err(ParseIntError::Overflow));
    assert_eq!(trafix_codec::num::parse_u64(b"18446744073709551615"), Ok(u64::MAX));
    assert_eq!(trafix_codec::num::parse_u64(b"18446744073709551616"), Err(ParseIntError::Overflow));
    assert_eq!(trafix_codec::num::parse_usize(b"42"), Ok(42));
    assert_eq!(trafix_codec::num::parse_usize(b"-1"), Err(ParseIntError::Overflow));
}

#[test]
fn format_decimal() {
    assert_eq!(trafix_codec::num::format_u64(0), b"0".to_vec());
    assert_eq!(trafix_codec::num::format_u64(7), b"7".to_vec());
    assert_eq!(trafix_codec::num::format_u64(180), b"180".to_vec());
    assert_eq!(trafix_codec::num::format_u64(636730640278898634), b"636730640278898634".to_vec());
}
