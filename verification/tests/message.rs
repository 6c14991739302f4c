//! Tests of the message model, the builder, the checksum accumulator,
//! and the encode/decode round trip.

use trafix_codec::begin_string::BeginString;
use trafix_codec::decoder::decode;
use trafix_codec::field::Field;
use trafix_codec::message::Message;
use trafix_codec::msg_type::MsgType;
use trafix_codec::Digest;

#[test]
fn basic_builder() {
    let builder = Message::builder(BeginString::FIX44, MsgType::Logon);

    // header
    assert_eq!(builder.inner.header.begin_string, BeginString::FIX44);
    assert_eq!(builder.inner.header.msg_type, MsgType::Logon);

    // body
    assert_eq!(builder.inner.body.fields.len(), 0);
}

#[test]
fn simple_message() {
    let builder = Message::builder(BeginString::FIX44, MsgType::Logout);

    let custom_header_field = Field::Custom {
        tag: 22,
        value: b"custom_header_field".to_vec(),
    };

    let custom_body_field1 = Field::Custom {
        tag: 40000,
        value: b"custom_body_field1".to_vec(),
    };

    let custom_body_field2 = Field::Custom {
        tag: 50000,
        value: b"custom_body_field2".to_vec(),
    };

    let msg = builder
        .with_header(custom_header_field.clone())
        .with_field(custom_body_field1.clone())
        .with_field(custom_body_field2.clone())
        .build();

    // auto-header
    assert_eq!(msg.header.begin_string, BeginString::FIX44);
    assert_eq!(msg.header.msg_type, MsgType::Logout);

    // custom header
    assert_eq!(msg.header.fields.clone().len(), 1);
    assert_eq!(msg.header.fields[0], custom_header_field);

    // body
    assert_eq!(msg.body.fields.len(), 2);
    assert_eq!(msg.body.fields[0], custom_body_field1);
    assert_eq!(msg.body.fields[1], custom_body_field2);
}

#[test]
fn round_trip() {
    let msg = Message::builder(BeginString::FIX44, MsgType::Logon)
        .with_field(Field::MsgSeqNum(1080))
        .with_field(Field::SenderCompID(b"TESTBUY1".to_vec()))
        .with_field(Field::TargetCompID(b"TESTSELL1".to_vec()))
        .with_field(Field::Custom { tag: 55, value: b"MSFT".to_vec() })
        .build();

    let encoded = msg.encode();
    let decoded = decode(encoded.as_ref()).expect("own encoding decodes");

    assert_eq!(decoded.header.begin_string, BeginString::FIX44);
    assert_eq!(decoded.header.msg_type, MsgType::Logon);
    assert_eq!(decoded.header.fields.len(), 0);
    assert_eq!(decoded.body.fields.len(), 4);
    assert_eq!(decoded.body.fields[0], Field::MsgSeqNum(1080));
    assert_eq!(decoded.body.fields[1], Field::SenderCompID(b"TESTBUY1".to_vec()));
    assert_eq!(decoded.body.fields[2], Field::TargetCompID(b"TESTSELL1".to_vec()));
    assert_eq!(
        decoded.body.fields[3],
        Field::Custom { tag: 55, value: b"MSFT".to_vec() }
    );
}

#[test]
fn checksum_of_bytes() {
    let mut digest = Digest::new();
    digest.push(&[1, 2, 3]);

    // (1 + 2 + 3) % 256 = 6
    assert_eq!(digest.checksum(), 6);

    // (1 + 2 + 3 + 251) % 256 = 257 % 256 = 1
    digest.push(&[251]);
    assert_eq!(digest.checksum(), 1);
}

#[test]
fn checksum_is_chunking_independent() {
    let bytes = b"8=FIX.4.4\x019=5\x0135=A\x01";

    let mut whole = Digest::new();
    whole.push(bytes);

    let mut chunked = Digest::new();
    for chunk in bytes.chunks(3) {
        chunked.push(chunk);
    }

    let mut by_byte = Digest::new();
    for b in bytes.iter() {
        by_byte.push(&[*b]);
    }

    assert_eq!(whole.checksum(), 180);
    assert_eq!(chunked.checksum(), 180);
    assert_eq!(by_byte.checksum(), 180);
}
