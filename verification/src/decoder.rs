//! The decoder: tokenizes the wire bytes into `tag=value` fields and
//! runs the state machine that validates header order, body length and
//! the trailing checksum, producing a `Message` or a typed error.

use vstd::prelude::*;
use vstd::slice::slice_subrange;
use crate::begin_string::BeginString;
use crate::constants::{EQUALS, SOH};
use crate::digest::{byte_sum, lemma_byte_sum_nonneg, Digest};
use crate::field::{spec_try_new, Field, FieldView};
use crate::message::{BodyView, HeaderView, Message, MessageView};
use crate::msg_type::MsgType;
use crate::num::{
    all_digits, digit_prefix_len, digits_val, is_digit, lemma_digit_prefix_len,
    lemma_digits_val_nonneg, parse_u16, parse_u8, parse_usize, spec_parse_unsigned, ParseIntError,
};

verus! {

/// Errors of the tokenizer.
#[derive(Debug, Clone, PartialEq, Eq)]
pub enum LexError {
    /// Found a different byte than the expected one.
    Unexpected {
        /// The byte that was expected.
        expected: u8,
        /// The byte that was found.
        but_got: u8,
    },
    /// End of input reached where a byte was expected.
    EOI,
    /// End of input expected, but another byte was found.
    ExpectedEOI(u8),
    /// The tag span does not form a valid tag number.
    MalformedTag,
}

/// The typed conversion that failed inside `Error::BadValue`.
#[derive(Debug, Clone, PartialEq, Eq)]
pub enum ValueError {
    /// The protocol-version value is unsupported.
    UnsupportedVersion,
    /// The message-type code is unrecognized.
    UnsupportedMsgType,
    /// An integer field failed to parse.
    Int(ParseIntError),
}

/// Errors of the decoder.
#[derive(Debug, Clone, PartialEq, Eq)]
pub enum Error {
    /// The mandatory body-length field is absent or out of order.
    MissingMandatoryField,
    /// A field follows the checksum field.
    UnexpectedChecksum,
    /// Declared and computed checksums differ.
    ChecksumMismatch {
        /// The checksum computed over the received bytes.
        calculated: u8,
        /// The checksum declared in the message.
        expected: u8,
    },
    /// A fixed header slot holds the wrong tag.
    BadTag(u16),
    /// Declared and measured body lengths differ.
    BodyLength {
        /// The body length measured from the received bytes.
        received: usize,
        /// The body length declared in the message.
        expected: usize,
    },
    /// The tokenizer failed.
    Lexer(LexError),
    /// A well-known field's bytes failed their typed conversion.
    BadValue(ValueError),
}

/// Position of the first byte at or after `pos` that is not an ASCII
/// digit.
pub open spec fn digits_end(s: Seq<u8>, pos: int) -> int
    decreases s.len() - pos,
{
    if pos >= s.len() || pos < 0 || !is_digit(s[pos]) {
        pos
    } else {
        digits_end(s, pos + 1)
    }
}

/// Position of the first byte at or after `pos` that is the control
/// byte.
pub open spec fn value_end(s: Seq<u8>, pos: int) -> int
    decreases s.len() - pos,
{
    if pos >= s.len() || pos < 0 || s[pos] == SOH {
        pos
    } else {
        value_end(s, pos + 1)
    }
}

/// One byte expected at `pos`: the position after it, or why not.
pub open spec fn spec_skip(s: Seq<u8>, pos: int, expected: u8) -> Result<int, LexError> {
    if pos >= s.len() {
        Err(LexError::EOI)
    } else if s[pos] != expected {
        Err(LexError::Unexpected { expected, but_got: s[pos] })
    } else {
        Ok(pos + 1)
    }
}

/// Lexing one tag at `pos`: the digit span is consumed up to the equals
/// byte, the equals byte is consumed, and the span is parsed as a tag
/// number. Returns the result and the cursor position afterwards, which
/// advances over whatever was consumed also when the lex fails.
pub open spec fn spec_lex_tag(s: Seq<u8>, pos: int) -> (Result<u16, LexError>, int) {
    let end = digits_end(s, pos);
    match spec_skip(s, end, EQUALS) {
        Err(e) => (Err(e), end),
        Ok(p) => match spec_parse_unsigned(s.subrange(pos, end), u16::MAX as int) {
            Ok(v) => (Ok(v as u16), p),
            Err(_) => (Err(LexError::MalformedTag), p),
        },
    }
}

/// Lexing one value at `pos`: the span up to the next control byte or
/// the end of input; the control byte is consumed when one is present.
pub open spec fn spec_lex_value(s: Seq<u8>, pos: int) -> (Seq<u8>, int) {
    let end = value_end(s, pos);
    (s.subrange(pos, end), if end < s.len() { end + 1 } else { end })
}

pub proof fn lemma_digits_end_range(s: Seq<u8>, pos: int)
    ensures
        digits_end(s, pos) >= pos,
        pos <= s.len() ==> digits_end(s, pos) <= s.len(),
        pos > s.len() ==> digits_end(s, pos) == pos,
    decreases s.len() - pos,
{
    if pos < s.len() && pos >= 0 && is_digit(s[pos]) {
        lemma_digits_end_range(s, pos + 1);
    }
}

pub proof fn lemma_value_end_range(s: Seq<u8>, pos: int)
    ensures
        value_end(s, pos) >= pos,
        pos <= s.len() ==> value_end(s, pos) <= s.len(),
        pos > s.len() ==> value_end(s, pos) == pos,
    decreases s.len() - pos,
{
    if pos < s.len() && pos >= 0 && s[pos] != SOH {
        lemma_value_end_range(s, pos + 1);
    }
}

/// Characterization of `digits_end`: everything before it is a digit and
/// it stops at a non-digit or the end.
pub proof fn lemma_digits_end(s: Seq<u8>, pos: int)
    requires
        0 <= pos <= s.len(),
    ensures
        pos <= digits_end(s, pos) <= s.len(),
        forall|j: int| pos <= j < digits_end(s, pos) ==> is_digit(#[trigger] s[j]),
        digits_end(s, pos) < s.len() ==> !is_digit(s[digits_end(s, pos)]),
    decreases s.len() - pos,
{
    if pos < s.len() && is_digit(s[pos]) {
        lemma_digits_end(s, pos + 1);
    }
}

/// `digits_end` is the unique stop position of the digit scan.
pub proof fn lemma_digits_end_is(s: Seq<u8>, pos: int, q: int)
    requires
        0 <= pos <= q <= s.len(),
        forall|j: int| pos <= j < q ==> is_digit(#[trigger] s[j]),
        q < s.len() ==> !is_digit(s[q]),
    ensures
        digits_end(s, pos) == q,
    decreases q - pos,
{
    if pos < q {
        lemma_digits_end_is(s, pos + 1, q);
    }
}

/// `value_end` is the unique stop position of the value scan.
pub proof fn lemma_value_end_is(s: Seq<u8>, pos: int, q: int)
    requires
        0 <= pos <= q <= s.len(),
        forall|j: int| pos <= j < q ==> #[trigger] s[j] != SOH,
        q < s.len() ==> s[q] == SOH,
    ensures
        value_end(s, pos) == q,
    decreases q - pos,
{
    if pos < q {
        lemma_value_end_is(s, pos + 1, q);
    }
}

/// Facts about a successful tag lex: the digit span is nonempty and ends
/// right before the consumed equals byte, and a tag of ten or more spans
/// at least two digits.
pub proof fn lemma_lex_tag_ok(s: Seq<u8>, pos: int)
    requires
        0 <= pos <= s.len(),
        spec_lex_tag(s, pos).0 is Ok,
    ensures
        pos < digits_end(s, pos) < s.len(),
        spec_lex_tag(s, pos).1 == digits_end(s, pos) + 1,
        spec_lex_tag(s, pos).0 matches Ok(t) && t >= 10 ==> digits_end(s, pos) >= pos + 2,
{
    lemma_digits_end(s, pos);
    let end = digits_end(s, pos);
    let sub = s.subrange(pos, end);
    lemma_digit_prefix_len(sub);
    if spec_parse_unsigned(sub, u16::MAX as int) is Ok {
        assert(digit_prefix_len(sub) == sub.len());
        assert(all_digits(sub)) by {
            assert(sub.take(sub.len() as int) =~= sub);
        }
        lemma_digits_val_nonneg(sub);
    }
}

/// The result of the decoder's field loop from a given cursor position
/// with the body fields collected so far: every further field is
/// appended through the typed constructor, and the checksum field (tag
/// 10) ends the collection, validating the measured body length and the
/// computed checksum. A position where no tag can be lexed ends the loop
/// with the fields collected.
pub open spec fn spec_decode_loop(
    s: Seq<u8>,
    body_start: int,
    declared: int,
    pos: int,
    fields: Seq<FieldView>,
) -> Result<Seq<FieldView>, Error>
    decreases s.len() - pos,
    via spec_decode_loop_decreases
{
    let (tr, p) = spec_lex_tag(s, pos);
    match tr {
        Err(_) => Ok(fields),
        Ok(tag) => {
            let (val, p2) = spec_lex_value(s, p);
            if tag == 10 {
                let (probe, p3) = spec_lex_tag(s, p2);
                if probe is Ok {
                    Err(Error::UnexpectedChecksum)
                } else {
                    let before = p3 - 1 - val.len() - 1 - 2;
                    let received = before - body_start;
                    if received != declared {
                        Err(Error::BodyLength {
                            received: received as usize,
                            expected: declared as usize,
                        })
                    } else {
                        let calculated = byte_sum(s.subrange(0, before)) % 256;
                        match spec_parse_unsigned(val, u8::MAX as int) {
                            Err(e) => Err(Error::BadValue(ValueError::Int(e))),
                            Ok(expected) => {
                                if calculated != expected {
                                    Err(Error::ChecksumMismatch {
                                        calculated: calculated as u8,
                                        expected: expected as u8,
                                    })
                                } else {
                                    spec_decode_loop(s, body_start, declared, p3, fields)
                                }
                            }
                        }
                    }
                }
            } else {
                match spec_try_new(tag, val) {
                    Err(e) => Err(Error::BadValue(ValueError::Int(e))),
                    Ok(f) => spec_decode_loop(s, body_start, declared, p2, fields.push(f)),
                }
            }
        }
    }
}

#[via_fn]
proof fn spec_decode_loop_decreases(
    s: Seq<u8>,
    body_start: int,
    declared: int,
    pos: int,
    fields: Seq<FieldView>,
) {
    let (tr, p) = spec_lex_tag(s, pos);
    if tr is Ok {
        lemma_digits_end_range(s, pos);
        let end = digits_end(s, pos);
        // a successful tag lex consumed the equals byte, so end < s.len()
        assert(end < s.len());
        assert(pos < p <= s.len());
        lemma_value_end_range(s, p);
        let (val, p2) = spec_lex_value(s, p);
        assert(pos < p2 <= s.len());
        lemma_digits_end_range(s, p2);
        let (probe, p3) = spec_lex_tag(s, p2);
        assert(pos < p3 <= s.len());
    }
}

/// A field appearing after the checksum field always fails the decode:
/// whenever the field loop reaches a checksum field (tag 10) and a
/// further tag can be lexed after its value, the result is the
/// unexpected-checksum error, whatever else the input holds.
pub proof fn lemma_unexpected_checksum(
    s: Seq<u8>,
    body_start: int,
    declared: int,
    pos: int,
    fields: Seq<FieldView>,
)
    requires
        spec_lex_tag(s, pos).0 == Ok::<u16, LexError>(10u16),
        spec_lex_tag(s, spec_lex_value(s, spec_lex_tag(s, pos).1).1).0 is Ok,
    ensures
        spec_decode_loop(s, body_start, declared, pos, fields) == Err::<Seq<FieldView>, Error>(
            Error::UnexpectedChecksum,
        ),
{
}

/// The decode result assembled from the two mandatory header values and
/// the outcome of the field loop.
pub open spec fn spec_finish(
    bs: BeginString,
    mt: MsgType,
    rest: Result<Seq<FieldView>, Error>,
) -> Result<MessageView, Error> {
    match rest {
        Ok(fields) => Ok(MessageView {
            header: HeaderView { begin_string: bs, msg_type: mt, fields: Seq::empty() },
            body: BodyView { fields },
        }),
        Err(e) => Err(e),
    }
}

/// What decoding a byte buffer yields: the version field (tag 8), the
/// body-length field (tag 9) and the message-type field (tag 35) in that
/// fixed order, one field that seeds the body, and then the field loop.
pub open spec fn spec_decode(s: Seq<u8>) -> Result<MessageView, Error> {
    let (tr1, p1) = spec_lex_tag(s, 0);
    match tr1 {
        Err(e) => Err(Error::Lexer(e)),
        Ok(tag1) => {
            let (val1, p2) = spec_lex_value(s, p1);
            if tag1 != 8 {
                Err(Error::BadTag(tag1))
            } else {
                match BeginString::spec_from_bytes(val1) {
                    Err(_) => Err(Error::BadValue(ValueError::UnsupportedVersion)),
                    Ok(bs) => {
                        let (tr2, p3) = spec_lex_tag(s, p2);
                        match tr2 {
                            Err(e) => Err(Error::Lexer(e)),
                            Ok(tag2) => {
                                let (val2, p4) = spec_lex_value(s, p3);
                                if tag2 != 9 {
                                    Err(Error::MissingMandatoryField)
                                } else {
                                    match spec_parse_unsigned(val2, usize::MAX as int) {
                                        Err(e) => Err(Error::BadValue(ValueError::Int(e))),
                                        Ok(declared) => spec_decode_from_type(s, p4, bs, declared),
                                    }
                                }
                            }
                        }
                    }
                }
            }
        }
    }
}

/// Continuation of `spec_decode` from the message-type field on; the
/// cursor position here is also where the body-length measurement
/// starts.
pub open spec fn spec_decode_from_type(
    s: Seq<u8>,
    body_start: int,
    bs: BeginString,
    declared: int,
) -> Result<MessageView, Error> {
    let (tr3, p5) = spec_lex_tag(s, body_start);
    match tr3 {
        Err(e) => Err(Error::Lexer(e)),
        Ok(tag3) => {
            if tag3 != 35 {
                Err(Error::BadTag(tag3))
            } else {
                let (val3, p6) = spec_lex_value(s, p5);
                match MsgType::spec_from_bytes(val3) {
                    Err(_) => Err(Error::BadValue(ValueError::UnsupportedMsgType)),
                    Ok(mt) => {
                        let (tr4, p7) = spec_lex_tag(s, p6);
                        match tr4 {
                            Err(e) => Err(Error::Lexer(e)),
                            Ok(tag4) => {
                                let (val4, p8) = spec_lex_value(s, p7);
                                match spec_try_new(tag4, val4) {
                                    Err(e) => Err(Error::BadValue(ValueError::Int(e))),
                                    Ok(f) => spec_finish(
                                        bs,
                                        mt,
                                        spec_decode_loop(s, body_start, declared, p8, seq![f]),
                                    ),
                                }
                            }
                        }
                    }
                }
            }
        }
    }
}

/// Lexes one tag at `pos`: consumes the digit span and the following
/// equals byte, and parses the span as a tag number. The returned cursor
/// advances over whatever was consumed, also when the lex fails.
pub fn lex_tag(input: &[u8], pos: usize) -> (r: (Result<u16, LexError>, usize))
    requires
        pos <= input@.len(),
    ensures
        r.0 == spec_lex_tag(input@, pos as int).0,
        r.1 as int == spec_lex_tag(input@, pos as int).1,
        pos <= r.1 <= input@.len(),
{
    let ghost s = input@;
    let mut i: usize = pos;
    while i < input.len()
        invariant_except_break
            pos <= i <= s.len(),
            s == input@,
            forall|j: int| pos <= j < i ==> is_digit(#[trigger] s[j]),
        ensures
            pos <= i <= s.len(),
            s == input@,
            forall|j: int| pos <= j < i ==> is_digit(#[trigger] s[j]),
            i == s.len() || !is_digit(s[i as int]),
        decreases s.len() - i,
    {
        let b = input[i];
        if !(b >= 48 && b <= 57) {
            break;
        }
        i = i + 1;
    }
    proof {
        lemma_digits_end_is(s, pos as int, i as int);
    }
    if i == input.len() {
        return (Err(LexError::EOI), i);
    }
    let b = input[i];
    if b != EQUALS {
        return (Err(LexError::Unexpected { expected: EQUALS, but_got: b }), i);
    }
    let p = i + 1;
    let tag_bytes = slice_subrange(input, pos, i);
    match parse_u16(tag_bytes) {
        Ok(v) => (Ok(v), p),
        Err(_) => (Err(LexError::MalformedTag), p),
    }
}

/// Lexes one value at `pos`: the span up to the next control byte or the
/// end of input; consumes the control byte when one is present.
pub fn lex_value<'a>(input: &'a [u8], pos: usize) -> (r: (&'a [u8], usize))
    requires
        pos <= input@.len(),
    ensures
        r.0@ == spec_lex_value(input@, pos as int).0,
        r.1 as int == spec_lex_value(input@, pos as int).1,
        pos <= r.1 <= input@.len(),
        r.1 as int >= pos + r.0@.len(),
{
    let ghost s = input@;
    let mut i: usize = pos;
    while i < input.len()
        invariant_except_break
            pos <= i <= s.len(),
            s == input@,
            forall|j: int| pos <= j < i ==> #[trigger] s[j] != SOH,
        ensures
            pos <= i <= s.len(),
            s == input@,
            forall|j: int| pos <= j < i ==> #[trigger] s[j] != SOH,
            i == s.len() || s[i as int] == SOH,
        decreases s.len() - i,
    {
        let b = input[i];
        if b == SOH {
            break;
        }
        i = i + 1;
    }
    proof {
        lemma_value_end_is(s, pos as int, i as int);
    }
    let v = slice_subrange(input, pos, i);
    if i < input.len() {
        (v, i + 1)
    } else {
        (v, i)
    }
}

/// Decodes one complete, pre-trimmed message from a byte buffer, or
/// reports the first violation as a typed error. The result is exactly
/// what `spec_decode` says of the bytes.
pub fn decode(bytes: &[u8]) -> (r: Result<Message, Error>)
    ensures
        (match r {
            Ok(m) => spec_decode(bytes@) == Ok::<MessageView, Error>(m@),
            Err(e) => spec_decode(bytes@) == Err::<MessageView, Error>(e),
        }),
{
    let ghost s = bytes@;

    // Protocol-version field (tag 8).
    let (tr1, p1) = lex_tag(bytes, 0);
    let tag1 = match tr1 {
        Ok(t) => t,
        Err(e) => {
            return Err(Error::Lexer(e));
        }
    };
    let (value1, p2) = lex_value(bytes, p1);
    if tag1 != BeginString::tag() {
        return Err(Error::BadTag(tag1));
    }
    let begin_string = match BeginString::from_fix_bytes(value1) {
        Ok(b) => b,
        Err(_) => {
            return Err(Error::BadValue(ValueError::UnsupportedVersion));
        }
    };

    // Body-length field (tag 9).
    let (tr2, p3) = lex_tag(bytes, p2);
    let tag2 = match tr2 {
        Ok(t) => t,
        Err(e) => {
            return Err(Error::Lexer(e));
        }
    };
    let (value2, p4) = lex_value(bytes, p3);
    if tag2 != 9 {
        return Err(Error::MissingMandatoryField);
    }
    let declared = match parse_usize(value2) {
        Ok(n) => n,
        Err(e) => {
            return Err(Error::BadValue(ValueError::Int(e)));
        }
    };
    let body_start = p4;

    // Message-type field (tag 35).
    let (tr3, p5) = lex_tag(bytes, p4);
    let tag3 = match tr3 {
        Ok(t) => t,
        Err(e) => {
            return Err(Error::Lexer(e));
        }
    };
    if tag3 != MsgType::tag() {
        return Err(Error::BadTag(tag3));
    }
    let (value3, p6) = lex_value(bytes, p5);
    let msg_type = match MsgType::from_fix_bytes(value3) {
        Ok(t) => t,
        Err(_) => {
            return Err(Error::BadValue(ValueError::UnsupportedMsgType));
        }
    };
    proof {
        // tag 35 spans at least two digits, and the type code is one byte
        lemma_lex_tag_ok(s, p4 as int);
    }

    // The first body field.
    let builder = Message::builder(begin_string, msg_type);
    let (tr4, p7) = lex_tag(bytes, p6);
    let tag4 = match tr4 {
        Ok(t) => t,
        Err(e) => {
            return Err(Error::Lexer(e));
        }
    };
    let (value4, p8) = lex_value(bytes, p7);
    let first = match Field::try_new(tag4, value4) {
        Ok(f) => f,
        Err(e) => {
            return Err(Error::BadValue(ValueError::Int(e)));
        }
    };
    proof {
        lemma_lex_tag_ok(s, p6 as int);
    }
    let mut builder = builder.with_field(first);
    let mut pos = p8;
    let ghost gbs = begin_string;
    let ghost gmt = msg_type;
    proof {
        assert(builder.inner@.body.fields =~= seq![first@]);
        assert(body_start as int + 6 <= pos as int);
        assert(spec_decode(s) == spec_finish(
            gbs,
            gmt,
            spec_decode_loop(s, body_start as int, declared as int, pos as int, seq![first@]),
        ));
    }

    // Remaining fields, until the checksum field or until no further tag
    // can be lexed.
    loop
        invariant
            s == bytes@,
            pos <= s.len(),
            body_start as int + 6 <= pos as int,
            body_start <= s.len(),
            builder.inner@.header == (HeaderView {
                begin_string: gbs,
                msg_type: gmt,
                fields: Seq::<FieldView>::empty(),
            }),
            spec_decode(s) == spec_finish(
                gbs,
                gmt,
                spec_decode_loop(
                    s,
                    body_start as int,
                    declared as int,
                    pos as int,
                    builder.inner@.body.fields,
                ),
            ),
        ensures
            spec_decode(s) == spec_finish(
                gbs,
                gmt,
                Ok::<Seq<FieldView>, Error>(builder.inner@.body.fields),
            ),
            builder.inner@.header == (HeaderView {
                begin_string: gbs,
                msg_type: gmt,
                fields: Seq::<FieldView>::empty(),
            }),
        decreases s.len() - pos,
    {
        let (trl, p) = lex_tag(bytes, pos);
        let tagl = match trl {
            Ok(t) => t,
            Err(_) => {
                break;
            }
        };
        proof {
            lemma_lex_tag_ok(s, pos as int);
        }
        let (valuel, pv) = lex_value(bytes, p);
        if tagl == 10 {
            let (probe, p_after) = lex_tag(bytes, pv);
            match probe {
                Ok(_) => {
                    return Err(Error::UnexpectedChecksum);
                }
                Err(_) => {}
            }
            let before = p_after - 1 - valuel.len() - 1 - 2;
            let received = before - body_start;
            if received != declared {
                return Err(Error::BodyLength { received, expected: declared });
            }
            let mut digest = Digest::new();
            let upto = slice_subrange(bytes, 0, before);
            digest.push(upto);
            let calculated = digest.checksum();
            proof {
                lemma_byte_sum_nonneg(s.subrange(0, before as int));
            }
            let expected = match parse_u8(valuel) {
                Ok(v) => v,
                Err(e) => {
                    return Err(Error::BadValue(ValueError::Int(e)));
                }
            };
            if calculated != expected {
                return Err(Error::ChecksumMismatch { calculated, expected });
            }
            pos = p_after;
        } else {
            let f = match Field::try_new(tagl, valuel) {
                Ok(f) => f,
                Err(e) => {
                    return Err(Error::BadValue(ValueError::Int(e)));
                }
            };
            builder = builder.with_field(f);
            pos = pv;
        }
    }
    let ghost collected = builder.inner@.body.fields;
    let message = builder.build();
    proof {
        let mv = MessageView {
            header: HeaderView { begin_string: gbs, msg_type: gmt, fields: Seq::empty() },
            body: BodyView { fields: collected },
        };
        assert(message@ =~= mv);
    }
    Ok(message)
}

} // verus!
