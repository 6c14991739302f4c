//! Tests of the decoder: the valid message, each error case, and the
//! fields a decoded message carries.

use trafix_codec::decoder::{decode, Error, LexError, ValueError};
use trafix_codec::field::Field;
use trafix_codec::num::ParseIntError;

#[test]
fn parse_valid_message() {
    let input = "8=FIX.4.4\x019=148\x0135=A\x0134=1080\x0149=TESTBUY1\x0152=20180920-18:14:19.508\x0156=TESTSELL1\x0111=636730640278898634\x0115=USD\x0121=2\x0138=7000\x0140=1\x0154=1\x0155=MSFT\x0160=20180920-18:14:19.492\x0110=089\x01";

    let decode_result = decode(input.as_bytes());

    assert!(
        decode_result.is_ok(),
        "message decoding failed: {:?}",
        decode_result.unwrap_err()
    );
}

#[test]
fn bad_checksum() {
    let input = "8=FIX.4.4\x019=148\x0135=A\x0134=1080\x0149=TESTBUY1\x0152=20180920-18:14:19.508\x0156=TESTSELL1\x0111=636730640278898634\x0115=USD\x0121=2\x0138=7000\x0140=1\x0154=1\x0155=MSFT\x0160=20180920-18:14:19.492\x0110=000\x01";

    let error = decode(input.as_bytes()).expect_err("checksum is not valid");

    assert!(matches!(error, Error::ChecksumMismatch { .. }));
}

#[test]
fn bad_checksum_values() {
    let input = "8=FIX.4.4\x019=148\x0135=A\x0134=1080\x0149=TESTBUY1\x0152=20180920-18:14:19.508\x0156=TESTSELL1\x0111=636730640278898634\x0115=USD\x0121=2\x0138=7000\x0140=1\x0154=1\x0155=MSFT\x0160=20180920-18:14:19.492\x0110=000\x01";

    let error = decode(input.as_bytes()).expect_err("checksum is not valid");

    assert!(matches!(
        error,
        Error::ChecksumMismatch { calculated: 89, expected: 0 }
    ));
}

#[test]
fn bad_body_length() {
    let input = "8=FIX.4.4\x019=042\x0135=A\x0134=1080\x0149=TESTBUY1\x0152=20180920-18:14:19.508\x0156=TESTSELL1\x0111=636730640278898634\x0115=USD\x0121=2\x0138=7000\x0140=1\x0154=1\x0155=MSFT\x0160=20180920-18:14:19.492\x0110=089\x01";

    let error = decode(input.as_bytes()).expect_err("body length does not match");

    assert!(matches!(
        error,
        Error::BodyLength {
            expected: 42,
            received: 148
        }
    ));
}

#[test]
fn field_after_checksum() {
    let input = "8=FIX.4.4\x019=148\x0135=A\x0134=1080\x0149=TESTBUY1\x0152=20180920-18:14:19.508\x0156=TESTSELL1\x0111=636730640278898634\x0115=USD\x0121=2\x0138=7000\x0140=1\x0154=1\x0155=MSFT\x0160=20180920-18:14:19.492\x0110=089\x0144=77\x01";

    let error = decode(input.as_bytes()).expect_err("checksum must end the message");

    assert!(matches!(error, Error::UnexpectedChecksum));
}

#[test]
fn decoded_fields() {
    let input = "8=FIX.4.4\x019=21\x0135=A\x0134=1080\x0155=MSFT\x0110=50\x01";

    let message = decode(input.as_bytes()).expect("message is well-formed");

    assert_eq!(message.body.fields.len(), 2);
    assert_eq!(message.body.fields[0], Field::MsgSeqNum(1080));
    assert_eq!(
        message.body.fields[1],
        Field::Custom { tag: 55, value: b"MSFT".to_vec() }
    );
    assert_eq!(message.header.fields.len(), 0);
}

#[test]
fn wrong_version_tag() {
    let error = decode(b"7=FIX.4.4\x019=5\x0135=A\x0110=180\x01").expect_err("first tag must be 8");
    assert!(matches!(error, Error::BadTag(7)));
}

#[test]
fn unsupported_version() {
    let error = decode(b"8=FIX.4.2\x019=5\x0135=A\x0110=180\x01").expect_err("only one version");
    assert!(matches!(
        error,
        Error::BadValue(ValueError::UnsupportedVersion)
    ));
}

#[test]
fn missing_body_length() {
    let error = decode(b"8=FIX.4.4\x0135=A\x0110=180\x01").expect_err("second field must be 9");
    assert!(matches!(error, Error::MissingMandatoryField));
}

#[test]
fn body_length_not_a_number() {
    let error = decode(b"8=FIX.4.4\x019=xx\x0135=A\x0110=180\x01").expect_err("length is decimal");
    assert!(matches!(
        error,
        Error::BadValue(ValueError::Int(ParseIntError::InvalidDigit))
    ));
}

#[test]
fn wrong_type_tag() {
    let error = decode(b"8=FIX.4.4\x019=5\x0136=A\x0110=180\x01").expect_err("third tag must be 35");
    assert!(matches!(error, Error::BadTag(36)));
}

#[test]
fn unsupported_msg_type() {
    let error = decode(b"8=FIX.4.4\x019=5\x0135=Z\x0110=180\x01").expect_err("unknown type code");
    assert!(matches!(
        error,
        Error::BadValue(ValueError::UnsupportedMsgType)
    ));
}

#[test]
fn empty_input_is_lex_error() {
    let error = decode(b"").expect_err("nothing to lex");
    assert!(matches!(error, Error::Lexer(LexError::EOI)));
}

#[test]
fn tag_without_equals() {
    let error = decode(b"8~FIX.4.4\x01").expect_err("equals byte missing");
    assert!(matches!(
        error,
        Error::Lexer(LexError::Unexpected { expected: 61, but_got: b'~' })
    ));
}

#[test]
fn tag_without_digits() {
    let error = decode(b"=FIX.4.4\x01").expect_err("tag digits missing");
    assert!(matches!(error, Error::Lexer(LexError::MalformedTag)));
}

#[test]
fn bad_sequence_number_value() {
    let error = decode(b"8=FIX.4.4\x019=7\x0135=A\x0134=abc\x0110=180\x01")
        .expect_err("sequence number must be decimal");
    assert!(matches!(
        error,
        Error::BadValue(ValueError::Int(ParseIntError::InvalidDigit))
    ));
}
