//! Tests of the field model: tags, values, serialization, and tag
//! dispatch in the typed constructor.

use trafix_codec::field::{Field, MsgSeqNum, SenderCompID, SendingTime, TargetCompID};
use trafix_codec::num::ParseIntError;

#[test]
fn tag() {
    let msg_seq_num_field = Field::MsgSeqNum(0);
    assert_eq!(msg_seq_num_field.tag(), 34);

    let sender_comp_id_field = Field::SenderCompID(SenderCompID::new());
    assert_eq!(sender_comp_id_field.tag(), 49);

    let sending_time_field = Field::SendingTime(SendingTime::new());
    assert_eq!(sending_time_field.tag(), 52);

    let target_comp_id_field = Field::TargetCompID(TargetCompID::new());
    assert_eq!(target_comp_id_field.tag(), 56);
}

#[test]
fn value() {
    let target_comp_id = TargetCompID::from(b"trafix-codec");
    let target_comp_id_field = Field::TargetCompID(target_comp_id.clone());

    assert_eq!(target_comp_id_field.tag(), 56);
    assert_eq!(target_comp_id_field.value(), target_comp_id);
}

#[test]
fn encode() {
    let msg_seq_num: MsgSeqNum = 4;
    let msg_seq_num_field = Field::MsgSeqNum(msg_seq_num);

    assert_eq!(msg_seq_num_field.tag(), 34);
    assert_eq!(
        msg_seq_num_field.value(),
        format!("{msg_seq_num}").into_bytes()
    );

    // b"34=4"
    assert_eq!(
        msg_seq_num_field.encode(),
        format!("34={msg_seq_num}").into_bytes()
    );
}

#[test]
fn custom_field() {
    let tag = 62000;
    let value = b"trafix-codec".to_vec();

    let custom_field = Field::Custom {
        tag,
        value: value.clone(),
    };

    assert_eq!(custom_field.tag(), tag);
    assert_eq!(custom_field.value(), value.clone());

    let mut encoded = Vec::from(tag.to_string().as_bytes());
    encoded.extend(b"=");
    encoded.extend(value);

    // b"62000=trafix-codec"
    assert_eq!(custom_field.encode(), encoded);
}

#[test]
fn try_new_dispatch() {
    // a recognized tag runs its typed conversion
    assert_eq!(Field::try_new(34, b"1080"), Ok(Field::MsgSeqNum(1080)));
    assert_eq!(
        Field::try_new(49, b"SENDER"),
        Ok(Field::SenderCompID(b"SENDER".to_vec()))
    );
    assert_eq!(
        Field::try_new(52, b"20180920-18:14:19.508"),
        Ok(Field::SendingTime(b"20180920-18:14:19.508".to_vec()))
    );
    assert_eq!(
        Field::try_new(56, b"TARGET"),
        Ok(Field::TargetCompID(b"TARGET".to_vec()))
    );
    // a failed conversion is propagated
    assert_eq!(Field::try_new(34, b"abc"), Err(ParseIntError::InvalidDigit));
}

#[test]
fn try_new_unrecognized_tag_is_custom() {
    // an unrecognized tag always yields a custom field with the exact
    // input bytes, even where they look numeric or hold no bytes at all
    assert_eq!(
        Field::try_new(55, b"MSFT"),
        Ok(Field::Custom { tag: 55, value: b"MSFT".to_vec() })
    );
    assert_eq!(
        Field::try_new(62000, b"trafix-codec"),
        Ok(Field::Custom { tag: 62000, value: b"trafix-codec".to_vec() })
    );
    assert_eq!(
        Field::try_new(144, b""),
        Ok(Field::Custom { tag: 144, value: Vec::new() })
    );
}
