//! Tests of the encoder: exact wire bytes for framed messages.

use bytes::Bytes;
use trafix_codec::begin_string::BeginString;
use trafix_codec::encoder::encode;
use trafix_codec::field::Field;
use trafix_codec::message::{Body, Header};
use trafix_codec::msg_type::MsgType;

/// Converts an encoded frame to a `String`, making it human-readable by
/// replacing the control byte with `'|'`.
fn humanize(encoded_message: &Bytes) -> String {
    String::from_utf8_lossy(encoded_message).replace('\x01', "|")
}

#[test]
fn message_with_minimal_header() {
    let header = Header {
        begin_string: BeginString::FIX44,
        msg_type: MsgType::Logon,
        fields: Vec::new(),
    };

    let body = Body { fields: Vec::new() };

    let encoded_message = encode(&header, &body);

    assert_eq!(humanize(&encoded_message), "8=FIX.4.4|9=5|35=A|10=180|");
}

#[test]
fn message_with_optional_header_fields() {
    let mut header = Header {
        begin_string: BeginString::FIX44,
        msg_type: MsgType::Logon,
        fields: Vec::new(),
    };

    let body = Body { fields: Vec::new() };

    // add optional header field
    header.fields.push(Field::Custom {
        tag: 144,
        value: Vec::from(b"value144"),
    });

    let encoded_message = encode(&header, &body);

    assert_eq!(
        humanize(&encoded_message),
        "8=FIX.4.4|9=18|35=A|144=value144|10=117|"
    );
}

#[test]
fn message_with_header_and_body_fields() {
    let mut header = Header {
        begin_string: BeginString::FIX44,
        msg_type: MsgType::Logon,
        fields: Vec::new(),
    };

    let mut body = Body { fields: Vec::new() };

    // add optional header field
    header.fields.push(Field::Custom {
        tag: 144,
        value: Vec::from(b"value144"),
    });

    // add a body field
    body.fields.push(Field::Custom {
        tag: 1234,
        value: Vec::from(b"value1234"),
    });

    // add a body field
    body.fields.push(Field::Custom {
        tag: 12345,
        value: Vec::from(b"value12345"),
    });

    let encoded_message = encode(&header, &body);

    assert_eq!(
        humanize(&encoded_message),
        "8=FIX.4.4|9=50|35=A|144=value144|1234=value1234|12345=value12345|10=185|"
    );
}

#[test]
fn typed_fields_encode_their_values() {
    let header = Header {
        begin_string: BeginString::FIX44,
        msg_type: MsgType::Heartbeat,
        fields: Vec::new(),
    };

    let body = Body {
        fields: vec![
            Field::MsgSeqNum(42),
            Field::SenderCompID(b"SENDER".to_vec()),
            Field::TargetCompID(b"TARGET".to_vec()),
        ],
    };

    let encoded_message = encode(&header, &body);

    let text = humanize(&encoded_message);
    assert!(text.starts_with("8=FIX.4.4|9=31|35=0|34=42|49=SENDER|56=TARGET|10="));
}
