//! The field model: one `tag=value` unit of a message, either a
//! well-known typed field or an arbitrary pair, and its serialization.

use vstd::prelude::*;
use vstd::slice::slice_to_vec;
use crate::num::{spec_digits, spec_parse_unsigned, format_u64, parse_u64, ParseIntError};

verus! {

/// `MsgSeqNum` (tag 34): message sequence number within a session.
pub type MsgSeqNum = u64;

/// `SenderCompID` (tag 49): sender identifier, raw bytes.
pub type SenderCompID = Vec<u8>;

/// `SendingTime` (tag 52): sending timestamp, raw bytes.
pub type SendingTime = Vec<u8>;

/// `TargetCompID` (tag 56): recipient identifier, raw bytes.
pub type TargetCompID = Vec<u8>;

/// One field of a message. Well-known tags carry a typed value; every
/// other tag is carried verbatim as a `Custom` pair.
#[derive(Debug, Clone, PartialEq)]
pub enum Field {
    /// Message sequence number (tag 34).
    MsgSeqNum(MsgSeqNum),
    /// Sender identifier (tag 49).
    SenderCompID(SenderCompID),
    /// Sending timestamp (tag 52).
    SendingTime(SendingTime),
    /// Recipient identifier (tag 56).
    TargetCompID(TargetCompID),
    /// A field whose tag has no typed variant; carries the raw bytes.
    Custom {
        /// Tag of the custom field.
        tag: u16,
        /// Contents of the custom field.
        value: Vec<u8>,
    },
}

/// Mathematical model of a `Field`: the same variants over byte
/// sequences.
#[verifier::ext_equal]
pub enum FieldView {
    /// Message sequence number (tag 34).
    MsgSeqNum(u64),
    /// Sender identifier (tag 49).
    SenderCompID(Seq<u8>),
    /// Sending timestamp (tag 52).
    SendingTime(Seq<u8>),
    /// Recipient identifier (tag 56).
    TargetCompID(Seq<u8>),
    /// A field with no typed variant.
    Custom {
        /// Tag of the custom field.
        tag: u16,
        /// Contents of the custom field.
        value: Seq<u8>,
    },
}

impl View for Field {
    type V = FieldView;

    open spec fn view(&self) -> FieldView {
        match self {
            Field::MsgSeqNum(n) => FieldView::MsgSeqNum(*n),
            Field::SenderCompID(v) => FieldView::SenderCompID(v@),
            Field::SendingTime(v) => FieldView::SendingTime(v@),
            Field::TargetCompID(v) => FieldView::TargetCompID(v@),
            Field::Custom { tag, value } => FieldView::Custom { tag: *tag, value: value@ },
        }
    }
}

impl FieldView {
    /// The numeric tag of the field.
    pub open spec fn tag(self) -> u16 {
        match self {
            FieldView::MsgSeqNum(_) => 34,
            FieldView::SenderCompID(_) => 49,
            FieldView::SendingTime(_) => 52,
            FieldView::TargetCompID(_) => 56,
            FieldView::Custom { tag, .. } => tag,
        }
    }

    /// The serialized value bytes of the field.
    pub open spec fn value(self) -> Seq<u8> {
        match self {
            FieldView::MsgSeqNum(n) => spec_digits(n as int),
            FieldView::SenderCompID(v) => v,
            FieldView::SendingTime(v) => v,
            FieldView::TargetCompID(v) => v,
            FieldView::Custom { value, .. } => value,
        }
    }

    /// The `tag=value` serialization, without the trailing control byte.
    pub open spec fn encoded(self) -> Seq<u8> {
        spec_digits(self.tag() as int) + seq![61u8] + self.value()
    }
}

/// Typed construction by tag dispatch, as a function of the raw bytes:
/// tag 34 parses an unsigned 64-bit integer; tags 49, 52 and 56 take the
/// bytes as they are; every other tag yields `Custom` unconditionally.
pub open spec fn spec_try_new(tag: u16, value: Seq<u8>) -> Result<FieldView, ParseIntError> {
    if tag == 34 {
        match spec_parse_unsigned(value, u64::MAX as int) {
            Ok(v) => Ok(FieldView::MsgSeqNum(v as u64)),
            Err(e) => Err(e),
        }
    } else if tag == 49 {
        Ok(FieldView::SenderCompID(value))
    } else if tag == 52 {
        Ok(FieldView::SendingTime(value))
    } else if tag == 56 {
        Ok(FieldView::TargetCompID(value))
    } else {
        Ok(FieldView::Custom { tag, value })
    }
}

impl Field {
    /// Constructs a field from a tag and raw value bytes. Well-known tags
    /// run their typed conversion and propagate its failure; any other
    /// tag always yields `Custom` carrying the input bytes unchanged.
    pub fn try_new(tag: u16, bytes: &[u8]) -> (r: Result<Field, ParseIntError>)
        ensures
            (match r {
                Ok(f) => spec_try_new(tag, bytes@) == Ok::<FieldView, ParseIntError>(f@),
                Err(e) => spec_try_new(tag, bytes@) == Err::<FieldView, ParseIntError>(e),
            }),
            (tag != 34 && tag != 49 && tag != 52 && tag != 56) ==> (r matches Ok(f) && f@
                == (FieldView::Custom { tag, value: bytes@ })),
    {
        if tag == 34 {
            match parse_u64(bytes) {
                Ok(n) => Ok(Field::MsgSeqNum(n)),
                Err(e) => Err(e),
            }
        } else if tag == 49 {
            Ok(Field::SenderCompID(slice_to_vec(bytes)))
        } else if tag == 52 {
            Ok(Field::SendingTime(slice_to_vec(bytes)))
        } else if tag == 56 {
            Ok(Field::TargetCompID(slice_to_vec(bytes)))
        } else {
            Ok(Field::Custom { tag, value: slice_to_vec(bytes) })
        }
    }

    /// The numeric tag of this field.
    pub fn tag(&self) -> (t: u16)
        ensures
            t == self@.tag(),
    {
        match self {
            Field::MsgSeqNum(_) => 34,
            Field::SenderCompID(_) => 49,
            Field::SendingTime(_) => 52,
            Field::TargetCompID(_) => 56,
            Field::Custom { tag, .. } => *tag,
        }
    }

    /// The serialized value bytes of this field: the decimal text of a
    /// sequence number, or the stored bytes as they are.
    pub fn value(&self) -> (v: Vec<u8>)
        ensures
            v@ == self@.value(),
    {
        match self {
            Field::MsgSeqNum(n) => format_u64(*n),
            Field::SenderCompID(v) => slice_to_vec(v.as_slice()),
            Field::SendingTime(v) => slice_to_vec(v.as_slice()),
            Field::TargetCompID(v) => slice_to_vec(v.as_slice()),
            Field::Custom { value, .. } => slice_to_vec(value.as_slice()),
        }
    }

    /// Serializes this field as `tag=value`. The trailing control byte is
    /// the encoder's responsibility, not the field's.
    pub fn encode(&self) -> (r: Vec<u8>)
        ensures
            r@ == self@.encoded(),
    {
        let mut out = format_u64(self.tag() as u64);
        out.push(61);
        let mut val = self.value();
        out.append(&mut val);
        proof {
            assert(out@ =~= self@.encoded());
        }
        out
    }
}

} // verus!
