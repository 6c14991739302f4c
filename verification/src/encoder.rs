//! The encoder: assembles a message's header and body fields into the
//! canonical byte layout, computing the body-length and checksum fields.

use vstd::prelude::*;
use crate::begin_string::BeginString;
use crate::byte_buf::{
    bytes_mut_as_slice, bytes_mut_extend, bytes_mut_freeze, bytes_mut_len, bytes_mut_put_u8,
    bytes_mut_view, bytes_mut_with_capacity, bytes_view,
};
use crate::constants::SOH;
use crate::digest::{byte_sum, lemma_byte_sum_nonneg, Digest};
use crate::field::{Field, FieldView};
use crate::message::{Body, Header, Message, MessageView};
use crate::num::{format_u64, spec_digits};

verus! {

/// Rough per-field byte estimate used only for capacity reservations.
const AVERAGE_BYTES_PER_FIELD: usize = 15;

/// Serialization of a sequence of fields, each followed by one control
/// byte.
pub open spec fn spec_encode_fields(fs: Seq<FieldView>) -> Seq<u8>
    decreases fs.len(),
{
    if fs.len() == 0 {
        Seq::empty()
    } else {
        spec_encode_fields(fs.drop_last()) + fs.last().encoded() + seq![SOH]
    }
}

/// The regular section: the message-type field, then the optional header
/// fields, then the body fields, each with its control byte.
pub open spec fn spec_regular_section(m: MessageView) -> Seq<u8> {
    (FieldView::Custom { tag: 35, value: m.header.msg_type.spec_bytes() }).encoded() + seq![SOH]
        + spec_encode_fields(m.header.fields) + spec_encode_fields(m.body.fields)
}

/// The version field and the body-length field, each with its control
/// byte, prepended to the regular section.
pub open spec fn spec_framing(bs: BeginString, regular: Seq<u8>) -> Seq<u8> {
    (FieldView::Custom { tag: 8, value: bs.spec_bytes() }).encoded() + seq![SOH]
        + (FieldView::Custom { tag: 9, value: spec_digits(regular.len() as int) }).encoded()
        + seq![SOH] + regular
}

/// The framed message without its trailer.
pub open spec fn spec_framed(m: MessageView) -> Seq<u8> {
    spec_framing(m.header.begin_string, spec_regular_section(m))
}

/// The trailing checksum field over the bytes that precede it.
pub open spec fn spec_trailer(s: Seq<u8>) -> Seq<u8> {
    (FieldView::Custom { tag: 10, value: spec_digits(byte_sum(s) % 256) }).encoded() + seq![SOH]
}

/// The full canonical byte representation of a message.
pub open spec fn spec_encode_msg(m: MessageView) -> Seq<u8> {
    spec_framed(m) + spec_trailer(spec_framed(m))
}

/// Encodes the regular section starting at the message-type field and
/// ending before the checksum field.
fn encode_regular_fields(header: &Header, body: &Body) -> (r: bytes::BytesMut)
    ensures
        bytes_mut_view(r) == spec_regular_section(MessageView { header: header@, body: body@ }),
{
    let ghost m = MessageView { header: header@, body: body@ };
    let count = match header.fields.len().checked_add(body.fields.len()) {
        Some(c) => match c.checked_add(1) {
            Some(c1) => c1,
            None => usize::MAX,
        },
        None => usize::MAX,
    };
    let cap = match count.checked_mul(AVERAGE_BYTES_PER_FIELD) {
        Some(c) => c,
        None => usize::MAX,
    };
    let mut message = bytes_mut_with_capacity(cap);

    // The message-type field, with its control byte.
    let mt_field = Field::Custom { tag: 35, value: header.msg_type.bytes() };
    let enc = mt_field.encode();
    bytes_mut_extend(&mut message, enc.as_slice());
    bytes_mut_put_u8(&mut message, SOH);
    let ghost mt_part = (FieldView::Custom { tag: 35, value: m.header.msg_type.spec_bytes() })
        .encoded() + seq![SOH];
    proof {
        assert(bytes_mut_view(message) =~= mt_part);
    }

    // Optional header fields, each with its control byte.
    let mut i: usize = 0;
    while i < header.fields.len()
        invariant
            i <= header.fields@.len(),
            m.header.fields == header@.fields,
            m.header == header@,
            bytes_mut_view(message) == mt_part + spec_encode_fields(m.header.fields.take(i as int)),
        decreases header.fields@.len() - i,
    {
        let mut field_soh = header.fields[i].encode();
        field_soh.push(SOH);
        bytes_mut_extend(&mut message, field_soh.as_slice());
        proof {
            let done = m.header.fields.take(i + 1);
            assert(done.drop_last() =~= m.header.fields.take(i as int));
            assert(done.last() == m.header.fields[i as int]);
            assert(m.header.fields[i as int] == header.fields@[i as int]@);
            assert(bytes_mut_view(message) =~= mt_part + spec_encode_fields(done));
        }
        i = i + 1;
    }
    proof {
        assert(m.header.fields.take(header.fields@.len() as int) =~= m.header.fields);
    }

    // Body fields, each with its control byte.
    let ghost with_header = mt_part + spec_encode_fields(m.header.fields);
    let mut j: usize = 0;
    while j < body.fields.len()
        invariant
            j <= body.fields@.len(),
            m.body.fields == body@.fields,
            m.body == body@,
            bytes_mut_view(message) == with_header + spec_encode_fields(m.body.fields.take(j as int)),
        decreases body.fields@.len() - j,
    {
        let mut field_soh = body.fields[j].encode();
        field_soh.push(SOH);
        bytes_mut_extend(&mut message, field_soh.as_slice());
        proof {
            let done = m.body.fields.take(j + 1);
            assert(done.drop_last() =~= m.body.fields.take(j as int));
            assert(done.last() == m.body.fields[j as int]);
            assert(m.body.fields[j as int] == body.fields@[j as int]@);
            assert(bytes_mut_view(message) =~= with_header + spec_encode_fields(done));
        }
        j = j + 1;
    }
    proof {
        assert(m.body.fields.take(body.fields@.len() as int) =~= m.body.fields);
        assert(bytes_mut_view(message) =~= spec_regular_section(m));
    }
    message
}

/// Prepends the version field and the body-length field to the regular
/// section.
fn encode_framing_headers(header: &Header, regular_fields: &bytes::BytesMut) -> (r: bytes::BytesMut)
    ensures
        bytes_mut_view(r) == spec_framing(header@.begin_string, bytes_mut_view(*regular_fields)),
{
    let regular_len = bytes_mut_len(regular_fields);
    let cap = match regular_len.checked_add(3 * AVERAGE_BYTES_PER_FIELD) {
        Some(c) => c,
        None => usize::MAX,
    };
    let mut message = bytes_mut_with_capacity(cap);

    // The version field, with its control byte.
    let bs_field = Field::Custom { tag: 8, value: header.begin_string.bytes() };
    let enc = bs_field.encode();
    bytes_mut_extend(&mut message, enc.as_slice());
    bytes_mut_put_u8(&mut message, SOH);

    // The body-length field, with its control byte.
    let len_field = Field::Custom { tag: 9, value: format_u64(regular_len as u64) };
    let enc2 = len_field.encode();
    bytes_mut_extend(&mut message, enc2.as_slice());
    bytes_mut_put_u8(&mut message, SOH);

    // The regular section itself.
    bytes_mut_extend(&mut message, bytes_mut_as_slice(regular_fields));
    proof {
        assert(regular_len as u64 as int == regular_len as int);
        assert(bytes_mut_view(message) =~= spec_framing(
            header@.begin_string,
            bytes_mut_view(*regular_fields),
        ));
    }
    message
}

/// Appends the trailing checksum field, computed over everything
/// produced so far, and freezes the buffer.
fn finalize_message(message: bytes::BytesMut) -> (r: bytes::Bytes)
    ensures
        bytes_view(r) == bytes_mut_view(message) + spec_trailer(bytes_mut_view(message)),
{
    let mut message = message;
    let ghost framed = bytes_mut_view(message);
    let mut digest = Digest::new();
    digest.push(bytes_mut_as_slice(&message));
    let checksum = digest.checksum();
    proof {
        lemma_byte_sum_nonneg(framed);
    }

    // The checksum field, with its control byte.
    let cs_field = Field::Custom { tag: 10, value: format_u64(checksum as u64) };
    let mut checksum_soh = cs_field.encode();
    checksum_soh.push(SOH);
    bytes_mut_extend(&mut message, checksum_soh.as_slice());
    proof {
        assert(bytes_mut_view(message) =~= framed + spec_trailer(framed));
    }
    bytes_mut_freeze(message)
}

/// Encodes a full message (header, body, trailer) into its wire bytes,
/// during which the body-length and checksum fields are computed.
pub fn encode(header: &Header, body: &Body) -> (r: bytes::Bytes)
    ensures
        bytes_view(r) == spec_encode_msg(MessageView { header: header@, body: body@ }),
{
    let regular_fields = encode_regular_fields(header, body);
    let message = encode_framing_headers(header, &regular_fields);
    finalize_message(message)
}

impl Message {
    /// Encodes this message into its canonical wire bytes.
    pub fn encode(self) -> (r: bytes::Bytes)
        ensures
            bytes_view(r) == spec_encode_msg(self@),
    {
        encode(&self.header, &self.body)
    }
}

} // verus!
