//! Round trip: a message built via the builder and then encoded decodes
//! from its own bytes back to an equal message.

use vstd::prelude::*;
use crate::begin_string::BeginString;
use crate::constants::{EQUALS, SOH};
use crate::decoder::{
    lemma_digits_end_is, lemma_value_end_is, spec_decode, spec_decode_from_type, spec_decode_loop, spec_finish,
    spec_lex_tag, spec_lex_value, Error, LexError,
};
use crate::digest::{byte_sum, lemma_byte_sum_nonneg};
use crate::encoder::{
    spec_encode_fields, spec_encode_msg, spec_framed, spec_regular_section, spec_trailer,
};
use crate::field::{spec_try_new, FieldView};
use crate::message::{BodyView, HeaderView, MessageView};
use crate::msg_type::MsgType;
use crate::num::{
    is_digit, lemma_parse_spec_digits, lemma_spec_digits_wf, spec_digits, spec_parse_unsigned,
    ParseIntError,
};

verus! {

/// No byte of the sequence is the control byte.
pub open spec fn soh_free(v: Seq<u8>) -> bool {
    forall|i: int| 0 <= i < v.len() ==> #[trigger] v[i] != SOH
}

/// A field that survives the wire unchanged: its value holds no control
/// byte, and a custom tag neither fakes the checksum field nor shadows a
/// tag that decodes into a typed variant.
pub open spec fn wire_safe_field(f: FieldView) -> bool {
    match f {
        FieldView::MsgSeqNum(_) => true,
        FieldView::SenderCompID(v) => soh_free(v),
        FieldView::SendingTime(v) => soh_free(v),
        FieldView::TargetCompID(v) => soh_free(v),
        FieldView::Custom { tag, value } => tag != 10 && tag != 34 && tag != 49 && tag != 52
            && tag != 56 && soh_free(value),
    }
}

pub proof fn lemma_soh_free_digits(n: int)
    requires
        n >= 0,
    ensures
        soh_free(spec_digits(n)),
{
    lemma_spec_digits_wf(n);
}

/// A wire-safe field's value holds no control byte, and its tag is not
/// the checksum tag.
pub proof fn lemma_wire_safe_field(f: FieldView)
    requires
        wire_safe_field(f),
    ensures
        soh_free(f.value()),
        f.tag() != 10,
{
    match f {
        FieldView::MsgSeqNum(n) => {
            lemma_soh_free_digits(n as int);
        }
        _ => {}
    }
}

/// Typed reconstruction undoes serialization for every wire-safe field.
pub proof fn lemma_try_new_inverse(f: FieldView)
    requires
        wire_safe_field(f),
    ensures
        spec_try_new(f.tag(), f.value()) == Ok::<FieldView, ParseIntError>(f),
{
    match f {
        FieldView::MsgSeqNum(n) => {
            lemma_parse_spec_digits(n as int, u64::MAX as int);
        }
        _ => {}
    }
}

/// Recognizing a message type's own wire bytes yields that message type.
pub proof fn lemma_msg_type_inverse(mt: MsgType)
    ensures
        MsgType::spec_from_bytes(mt.spec_bytes()) == Ok::<
            MsgType,
            crate::msg_type::ParseError,
        >(mt),
{
}

/// Recognizing a version's own wire bytes yields that version.
pub proof fn lemma_begin_string_inverse(bs: BeginString)
    ensures
        BeginString::spec_from_bytes(bs.spec_bytes()) == Ok::<
            BeginString,
            crate::begin_string::ParseError,
        >(bs),
{
}

/// Where the bytes from `pos` spell `tag=value` followed by a control
/// byte, the lexer reads back exactly that tag and that value.
pub proof fn lemma_field_at(s: Seq<u8>, pos: int, t: u16, v: Seq<u8>)
    requires
        0 <= pos,
        soh_free(v),
        pos + spec_digits(t as int).len() + 1 + v.len() + 1 <= s.len(),
        s.subrange(pos, pos + spec_digits(t as int).len() + 1 + v.len() + 1) == spec_digits(
            t as int,
        ) + seq![EQUALS] + v + seq![SOH],
    ensures
        spec_lex_tag(s, pos).0 == Ok::<u16, LexError>(t),
        spec_lex_tag(s, pos).1 == pos + spec_digits(t as int).len() + 1,
        spec_lex_value(s, pos + spec_digits(t as int).len() + 1).0 == v,
        spec_lex_value(s, pos + spec_digits(t as int).len() + 1).1 == pos + spec_digits(
            t as int,
        ).len() + 1 + v.len() + 1,
{
    let d = spec_digits(t as int);
    let dl = d.len() as int;
    let vl = v.len() as int;
    let w = d + seq![EQUALS] + v + seq![SOH];
    let wl = dl + 1 + vl + 1;
    lemma_spec_digits_wf(t as int);
    assert forall|i: int| 0 <= i < wl implies #[trigger] s[pos + i] == w[i] by {
        assert(s.subrange(pos, pos + wl)[i] == s[pos + i]);
    }
    assert forall|i: int| 0 <= i < dl implies #[trigger] w[i] == d[i] by {
        assert((d + seq![EQUALS])[i] == d[i]);
        assert((d + seq![EQUALS] + v)[i] == (d + seq![EQUALS])[i]);
    }
    assert(w[dl] == EQUALS) by {
        assert((d + seq![EQUALS])[dl] == EQUALS);
        assert((d + seq![EQUALS] + v)[dl] == (d + seq![EQUALS])[dl]);
    }
    assert forall|i: int| 0 <= i < vl implies #[trigger] w[dl + 1 + i] == v[i] by {
        assert((d + seq![EQUALS] + v)[dl + 1 + i] == v[i]);
    }
    assert(w[dl + 1 + vl] == SOH);

    // the digit scan stops exactly at the equals byte
    assert(s[pos + dl] == EQUALS);
    assert forall|j: int| pos <= j < pos + dl implies is_digit(#[trigger] s[j]) by {
        assert(s[pos + (j - pos)] == w[j - pos]);
        assert(w[j - pos] == d[j - pos]);
        assert(is_digit(d[j - pos]));
    }
    lemma_digits_end_is(s, pos, pos + dl);

    // the digit span parses back to the tag
    assert(s.subrange(pos, pos + dl) =~= d) by {
        assert forall|i: int| 0 <= i < dl implies #[trigger] s.subrange(pos, pos + dl)[i]
            == d[i] by {
            assert(s[pos + i] == w[i]);
        }
    }
    lemma_parse_spec_digits(t as int, u16::MAX as int);

    // the value scan stops exactly at the control byte
    assert(s[pos + dl + 1 + vl] == SOH);
    assert forall|j: int| pos + dl + 1 <= j < pos + dl + 1 + vl implies #[trigger] s[j]
        != SOH by {
        assert(s[pos + (j - pos)] == w[j - pos]);
        assert(w[dl + 1 + (j - (pos + dl + 1))] == v[j - (pos + dl + 1)]);
        assert(v[j - (pos + dl + 1)] != SOH);
    }
    lemma_value_end_is(s, pos + dl + 1, pos + dl + 1 + vl);
    assert(s.subrange(pos + dl + 1, pos + dl + 1 + vl) =~= v) by {
        assert forall|i: int| 0 <= i < vl implies #[trigger] s.subrange(
            pos + dl + 1,
            pos + dl + 1 + vl,
        )[i] == v[i] by {
            assert(s[pos + dl + 1 + i] == w[dl + 1 + i]);
        }
    }
}

/// Splitting a known subrange of `s` at a concatenation boundary.
proof fn lemma_peel(s: Seq<u8>, pos: int, a: Seq<u8>, b: Seq<u8>)
    requires
        0 <= pos,
        pos + a.len() + b.len() <= s.len(),
        s.subrange(pos, pos + a.len() + b.len()) == a + b,
    ensures
        s.subrange(pos, pos + a.len()) == a,
        s.subrange(pos + a.len(), pos + a.len() + b.len()) == b,
{
    let al = a.len() as int;
    let bl = b.len() as int;
    assert(s.subrange(pos, pos + al) =~= a) by {
        assert forall|i: int| 0 <= i < al implies #[trigger] s.subrange(pos, pos + al)[i]
            == a[i] by {
            assert(s.subrange(pos, pos + al)[i] == s[pos + i]);
            assert(s.subrange(pos, pos + al + bl)[i] == s[pos + i]);
            assert((a + b)[i] == a[i]);
        }
    }
    assert(s.subrange(pos + al, pos + al + bl) =~= b) by {
        assert forall|i: int| 0 <= i < bl implies #[trigger] s.subrange(
            pos + al,
            pos + al + bl,
        )[i] == b[i] by {
            assert(s.subrange(pos + al, pos + al + bl)[i] == s[pos + al + i]);
            assert(s.subrange(pos, pos + al + bl)[al + i] == s[pos + al + i]);
            assert((a + b)[al + i] == b[i]);
        }
    }
}

/// Joining two adjacent known subranges of `s`.
proof fn lemma_glue(s: Seq<u8>, pos: int, a: Seq<u8>, b: Seq<u8>)
    requires
        0 <= pos,
        pos + a.len() + b.len() <= s.len(),
        s.subrange(pos, pos + a.len()) == a,
        s.subrange(pos + a.len(), pos + a.len() + b.len()) == b,
    ensures
        s.subrange(pos, pos + a.len() + b.len()) == a + b,
{
    let al = a.len() as int;
    let bl = b.len() as int;
    assert(s.subrange(pos, pos + al + bl) =~= a + b) by {
        assert forall|i: int| 0 <= i < al + bl implies #[trigger] s.subrange(
            pos,
            pos + al + bl,
        )[i] == (a + b)[i] by {
            assert(s.subrange(pos, pos + al + bl)[i] == s[pos + i]);
            if i < al {
                assert(s.subrange(pos, pos + al)[i] == s[pos + i]);
                assert((a + b)[i] == a[i]);
            } else {
                assert(s.subrange(pos + al, pos + al + bl)[i - al] == s[pos + i]);
                assert((a + b)[i] == b[i - al]);
            }
        }
    }
}

/// A known one-byte subrange names the byte itself.
proof fn lemma_byte_at(s: Seq<u8>, pos: int, b: u8)
    requires
        0 <= pos < s.len(),
        s.subrange(pos, pos + 1) == seq![b],
    ensures
        s[pos] == b,
{
    assert(s.subrange(pos, pos + 1)[0] == s[pos]);
}

/// As `lemma_field_at`, but with the digit span, the equals byte, the
/// value span and the control byte each given as its own window.
proof fn lemma_field_at_windows(s: Seq<u8>, pos: int, t: u16, v: Seq<u8>)
    requires
        0 <= pos,
        soh_free(v),
        pos + spec_digits(t as int).len() + 1 + v.len() + 1 <= s.len(),
        s.subrange(pos, pos + spec_digits(t as int).len()) == spec_digits(t as int),
        s[pos + spec_digits(t as int).len()] == EQUALS,
        s.subrange(
            pos + spec_digits(t as int).len() + 1,
            pos + spec_digits(t as int).len() + 1 + v.len(),
        ) == v,
        s[pos + spec_digits(t as int).len() + 1 + v.len()] == SOH,
    ensures
        spec_lex_tag(s, pos).0 == Ok::<u16, LexError>(t),
        spec_lex_tag(s, pos).1 == pos + spec_digits(t as int).len() + 1,
        spec_lex_value(s, pos + spec_digits(t as int).len() + 1).0 == v,
        spec_lex_value(s, pos + spec_digits(t as int).len() + 1).1 == pos + spec_digits(
            t as int,
        ).len() + 1 + v.len() + 1,
{
    let d = spec_digits(t as int);
    let dl = d.len() as int;
    let vl = v.len() as int;
    lemma_spec_digits_wf(t as int);

    // the digit scan stops exactly at the equals byte
    assert forall|j: int| pos <= j < pos + dl implies is_digit(#[trigger] s[j]) by {
        assert(s.subrange(pos, pos + dl)[j - pos] == s[j]);
        assert(is_digit(d[j - pos]));
    }
    lemma_digits_end_is(s, pos, pos + dl);

    // the digit span parses back to the tag
    lemma_parse_spec_digits(t as int, u16::MAX as int);

    // the value scan stops exactly at the control byte
    assert forall|j: int| pos + dl + 1 <= j < pos + dl + 1 + vl implies #[trigger] s[j]
        != SOH by {
        assert(s.subrange(pos + dl + 1, pos + dl + 1 + vl)[j - (pos + dl + 1)] == s[j]);
        assert(v[j - (pos + dl + 1)] != SOH);
    }
    lemma_value_end_is(s, pos + dl + 1, pos + dl + 1 + vl);
}

/// Front decomposition of the field serialization: the first field and
/// its control byte, then the rest.
pub proof fn lemma_encode_fields_first(fs: Seq<FieldView>)
    requires
        fs.len() > 0,
    ensures
        spec_encode_fields(fs) == fs[0].encoded() + seq![SOH] + spec_encode_fields(
            fs.drop_first(),
        ),
    decreases fs.len(),
{
    if fs.len() == 1 {
        assert(fs.drop_last() =~= Seq::<FieldView>::empty());
        assert(fs.drop_first() =~= Seq::<FieldView>::empty());
        assert(fs.last() == fs[0]);
        assert(spec_encode_fields(fs) =~= fs[0].encoded() + seq![SOH] + spec_encode_fields(
            fs.drop_first(),
        ));
    } else {
        let head = fs.drop_last();
        lemma_encode_fields_first(head);
        assert(head[0] == fs[0]);
        assert(head.drop_first() =~= fs.drop_first().drop_last());
        assert(fs.drop_first().last() == fs.last());
        assert(spec_encode_fields(fs) == spec_encode_fields(head) + fs.last().encoded()
            + seq![SOH]);
        assert(spec_encode_fields(fs.drop_first()) == spec_encode_fields(
            fs.drop_first().drop_last(),
        ) + fs.drop_first().last().encoded() + seq![SOH]);
        assert(spec_encode_fields(fs) =~= fs[0].encoded() + seq![SOH] + spec_encode_fields(
            fs.drop_first(),
        ));
    }
}

/// Bytes of the trailing checksum field carrying value `k`, control
/// byte included.
pub open spec fn checksum_field_bytes(k: int) -> Seq<u8> {
    spec_digits(10) + seq![EQUALS] + spec_digits(k) + seq![SOH]
}

/// Reading one `tag=value` field off the front of a known suffix: the
/// lexer yields the tag and the value, and the remaining suffix is what
/// follows the field's control byte.
proof fn lemma_read_field(s: Seq<u8>, pos: int, t: u16, v: Seq<u8>, rest_bytes: Seq<u8>)
    requires
        0 <= pos <= s.len(),
        s.subrange(pos, s.len() as int) == spec_digits(t as int) + seq![EQUALS] + v + seq![SOH]
            + rest_bytes,
        soh_free(v),
    ensures
        spec_lex_tag(s, pos).0 == Ok::<u16, LexError>(t),
        spec_lex_tag(s, pos).1 == pos + spec_digits(t as int).len() + 1,
        spec_lex_value(s, pos + spec_digits(t as int).len() + 1).0 == v,
        spec_lex_value(s, pos + spec_digits(t as int).len() + 1).1 == pos + spec_digits(
            t as int,
        ).len() + 1 + v.len() + 1,
        s.subrange(pos + spec_digits(t as int).len() + 1 + v.len() + 1, s.len() as int)
            == rest_bytes,
{
    let d = spec_digits(t as int);
    let w = d + seq![EQUALS] + v + seq![SOH];
    let wl: int = d.len() as int + 1 + v.len() as int + 1;
    let suffix = s.subrange(pos, s.len() as int);
    assert(suffix.len() == wl + rest_bytes.len());
    assert(s.subrange(pos, pos + wl) =~= w) by {
        assert forall|i: int| 0 <= i < wl implies #[trigger] s.subrange(pos, pos + wl)[i]
            == w[i] by {
            assert(s.subrange(pos, pos + wl)[i] == s[pos + i]);
            assert(suffix[i] == s[pos + i]);
            assert(suffix[i] == (w + rest_bytes)[i]);
        }
    }
    lemma_field_at(s, pos, t, v);
    assert(s.subrange(pos + wl, s.len() as int) =~= rest_bytes) by {
        assert forall|i: int| 0 <= i < rest_bytes.len() implies #[trigger] s.subrange(
            pos + wl,
            s.len() as int,
        )[i] == rest_bytes[i] by {
            assert(s.subrange(pos + wl, s.len() as int)[i] == s[pos + wl + i]);
            assert(suffix[wl + i] == s[pos + wl + i]);
            assert(suffix[wl + i] == (w + rest_bytes)[wl + i]);
        }
    }
}

/// Walking the encoded fields from `pos`: every remaining field is
/// collected in order, and the trailing checksum field validates the
/// measured body length and the computed checksum and ends the loop.
proof fn lemma_decode_loop_encoded(
    s: Seq<u8>,
    body_start: int,
    declared: int,
    pos: int,
    done: Seq<FieldView>,
    rest: Seq<FieldView>,
    k: int,
)
    requires
        0 <= body_start <= pos <= s.len(),
        forall|i: int| 0 <= i < rest.len() ==> wire_safe_field(#[trigger] rest[i]),
        s.subrange(pos, s.len() as int) == spec_encode_fields(rest) + checksum_field_bytes(k),
        0 <= k < 256,
        k == byte_sum(s.subrange(0, pos + spec_encode_fields(rest).len())) % 256,
        declared == pos + spec_encode_fields(rest).len() - body_start,
    ensures
        spec_decode_loop(s, body_start, declared, pos, done) == Ok::<Seq<FieldView>, Error>(
            done + rest,
        ),
    decreases rest.len(),
{
    let cfb = checksum_field_bytes(k);
    let suffix = s.subrange(pos, s.len() as int);
    assert(suffix.len() == spec_encode_fields(rest).len() + cfb.len());
    assert(spec_digits(1) == seq![49u8]);
    assert(spec_digits(10) == seq![49u8, 48]);
    if rest.len() == 0 {
        let dk = spec_digits(k);
        lemma_spec_digits_wf(k);
        lemma_soh_free_digits(k);
        assert(spec_encode_fields(rest) == Seq::<u8>::empty());
        assert(suffix =~= spec_digits(10) + seq![EQUALS] + dk + seq![SOH]
            + Seq::<u8>::empty());
        lemma_read_field(s, pos, 10u16, dk, Seq::<u8>::empty());
        let p2 = pos + 3 + dk.len() + 1;
        assert(p2 == s.len());
        // the probe for a further tag fails at the end of input
        assert(spec_lex_tag(s, p2).0 is Err);
        assert(spec_lex_tag(s, p2).1 == s.len());
        // the measured body length starts right at the checksum field
        let before = s.len() - 1 - dk.len() - 1 - 2;
        assert(before == pos);
        lemma_parse_spec_digits(k, u8::MAX as int);
        assert(byte_sum(s.subrange(0, pos)) % 256 == k);
        // the loop ends at the end of input with the collected fields
        assert(spec_decode_loop(s, body_start, declared, s.len() as int, done)
            == Ok::<Seq<FieldView>, Error>(done));
        assert(done + rest =~= done);
    } else {
        let f = rest[0];
        let rest2 = rest.drop_first();
        lemma_encode_fields_first(rest);
        let d = spec_digits(f.tag() as int);
        let v = f.value();
        lemma_wire_safe_field(f);
        lemma_spec_digits_wf(f.tag() as int);
        let rest_bytes = spec_encode_fields(rest2) + cfb;
        assert(suffix =~= d + seq![EQUALS] + v + seq![SOH] + rest_bytes);
        lemma_read_field(s, pos, f.tag(), v, rest_bytes);
        lemma_try_new_inverse(f);
        let wl: int = d.len() as int + 1 + v.len() as int + 1;
        let pos2 = pos + wl;
        assert forall|i: int| 0 <= i < rest2.len() implies wire_safe_field(
            #[trigger] rest2[i],
        ) by {
            assert(rest2[i] == rest[i + 1]);
            assert(wire_safe_field(rest[i + 1]));
        }
        assert(pos2 + spec_encode_fields(rest2).len() == pos + spec_encode_fields(rest).len());
        lemma_decode_loop_encoded(s, body_start, declared, pos2, done.push(f), rest2, k);
        assert(done.push(f) + rest2 =~= done + rest);
    }
}

/// The framing part of the round trip: on the encoding of a suitable
/// message, the lexer reads back the version field and the body-length
/// field, and the regular section and the trailer lie at their computed
/// positions.
#[verifier::rlimit(100)]
proof fn lemma_round_trip_framing(m: MessageView, k: int, body_start: int)
    requires
        m.header.fields.len() == 0,
        m.body.fields.len() >= 1,
        spec_encode_msg(m).len() <= usize::MAX,
        0 <= k < 256,
        k == byte_sum(spec_framed(m)) % 256,
        body_start == 13 + spec_digits(spec_regular_section(m).len() as int).len(),
    ensures
        spec_lex_tag(spec_encode_msg(m), 0).0 == Ok::<u16, LexError>(8u16),
        spec_lex_tag(spec_encode_msg(m), 0).1 == 2,
        spec_lex_value(spec_encode_msg(m), 2).0 == m.header.begin_string.spec_bytes(),
        spec_lex_value(spec_encode_msg(m), 2).1 == 10,
        BeginString::spec_from_bytes(m.header.begin_string.spec_bytes()) == Ok::<
            BeginString,
            crate::begin_string::ParseError,
        >(m.header.begin_string),
        spec_lex_tag(spec_encode_msg(m), 10).0 == Ok::<u16, LexError>(9u16),
        spec_lex_tag(spec_encode_msg(m), 10).1 == 12,
        spec_lex_value(spec_encode_msg(m), 12).0 == spec_digits(
            spec_regular_section(m).len() as int,
        ),
        spec_lex_value(spec_encode_msg(m), 12).1 == body_start,
        spec_parse_unsigned(
            spec_digits(spec_regular_section(m).len() as int),
            usize::MAX as int,
        ) == Ok::<int, ParseIntError>(spec_regular_section(m).len() as int),
        spec_encode_msg(m).subrange(body_start, spec_framed(m).len() as int)
            == spec_regular_section(m),
        spec_encode_msg(m).subrange(spec_framed(m).len() as int, spec_encode_msg(m).len() as int)
            == checksum_field_bytes(k),
        spec_framed(m).len() == body_start + spec_regular_section(m).len(),
        13 <= body_start <= spec_framed(m).len() <= spec_encode_msg(m).len(),
{
    let s = spec_encode_msg(m);
    let reg = spec_regular_section(m);
    let framed = spec_framed(m);
    let trailer = spec_trailer(framed);
    let el = reg.len() as int;
    let bs = m.header.begin_string;
    let bsb = bs.spec_bytes();
    let cfb = checksum_field_bytes(k);
    let soh = seq![SOH];
    let eq = seq![61u8];
    let x8e = (FieldView::Custom { tag: 8, value: bsb }).encoded();
    let x9e = (FieldView::Custom { tag: 9, value: spec_digits(el) }).encoded();
    let l9 = spec_digits(el);

    assert(spec_digits(8) == seq![56u8]);
    assert(spec_digits(9) == seq![57u8]);
    assert(spec_digits(1) == seq![49u8]);
    assert(spec_digits(10) == seq![49u8, 48]);
    lemma_soh_free_digits(el);
    lemma_spec_digits_wf(el);
    lemma_spec_digits_wf(k);
    assert(soh_free(bsb));

    // Peel the encoding along its own seams, outermost first.
    assert(s.subrange(0, s.len() as int) =~= s);
    lemma_peel(s, 0, framed, trailer);
    lemma_peel(s, 0, x8e + soh + x9e + soh, reg);
    lemma_peel(s, 0, x8e + soh + x9e, soh);
    lemma_peel(s, 0, x8e + soh, x9e);
    lemma_peel(s, 0, x8e, soh);
    lemma_peel(s, 0, spec_digits(8) + eq, bsb);
    lemma_peel(s, 0, spec_digits(8), eq);
    lemma_byte_at(s, 1, 61);
    lemma_byte_at(s, 9, SOH);
    lemma_peel(s, 10, spec_digits(9) + eq, l9);
    lemma_peel(s, 10, spec_digits(9), eq);
    lemma_byte_at(s, 11, 61);
    lemma_byte_at(s, 12 + l9.len() as int, SOH);
    assert(body_start == 13 + l9.len());

    // The two framing fields lex back to what was encoded.
    lemma_field_at_windows(s, 0, 8u16, bsb);
    lemma_begin_string_inverse(bs);
    lemma_field_at_windows(s, 10, 9u16, l9);
    assert(el <= usize::MAX);
    lemma_parse_spec_digits(el, usize::MAX as int);

    // The trailer window holds the checksum field.
    assert(trailer == cfb);
    assert(framed.len() == body_start + reg.len()) by {
        assert(framed.len() == (1 + 1 + bsb.len() + 1) + (1 + 1 + l9.len() + 1) + reg.len());
    }
}

/// The body-opening part of the round trip: within the regular section,
/// the lexer reads back the message-type field and the first body
/// field, and the remaining encoded fields start at `p8`.
#[verifier::rlimit(100)]
proof fn lemma_round_trip_first_field(m: MessageView, body_start: int, p8: int)
    requires
        m.header.fields.len() == 0,
        m.body.fields.len() >= 1,
        wire_safe_field(m.body.fields[0]),
        0 <= body_start,
        body_start + spec_regular_section(m).len() <= spec_encode_msg(m).len(),
        spec_encode_msg(m).subrange(
            body_start,
            body_start + spec_regular_section(m).len() as int,
        ) == spec_regular_section(m),
        p8 == body_start + 5 + spec_digits(m.body.fields[0].tag() as int).len() + 1
            + m.body.fields[0].value().len() + 1,
    ensures
        spec_lex_tag(spec_encode_msg(m), body_start).0 == Ok::<u16, LexError>(35u16),
        spec_lex_tag(spec_encode_msg(m), body_start).1 == body_start + 3,
        spec_lex_value(spec_encode_msg(m), body_start + 3).0 == m.header.msg_type.spec_bytes(),
        spec_lex_value(spec_encode_msg(m), body_start + 3).1 == body_start + 5,
        MsgType::spec_from_bytes(m.header.msg_type.spec_bytes()) == Ok::<
            MsgType,
            crate::msg_type::ParseError,
        >(m.header.msg_type),
        spec_lex_tag(spec_encode_msg(m), body_start + 5).0 == Ok::<u16, LexError>(
            m.body.fields[0].tag(),
        ),
        spec_lex_value(
            spec_encode_msg(m),
            spec_lex_tag(spec_encode_msg(m), body_start + 5).1,
        ).0 == m.body.fields[0].value(),
        spec_lex_value(
            spec_encode_msg(m),
            spec_lex_tag(spec_encode_msg(m), body_start + 5).1,
        ).1 == p8,
        spec_try_new(m.body.fields[0].tag(), m.body.fields[0].value()) == Ok::<
            FieldView,
            ParseIntError,
        >(m.body.fields[0]),
        spec_encode_msg(m).subrange(p8, body_start + spec_regular_section(m).len() as int)
            == spec_encode_fields(m.body.fields.drop_first()),
        p8 + spec_encode_fields(m.body.fields.drop_first()).len() == body_start
            + spec_regular_section(m).len(),
        body_start + 5 <= p8,
{
    let s = spec_encode_msg(m);
    let reg = spec_regular_section(m);
    let mt = m.header.msg_type;
    let mtb = mt.spec_bytes();
    let fields = m.body.fields;
    let f0 = fields[0];
    let soh = seq![SOH];
    let eq = seq![61u8];
    let x35e = (FieldView::Custom { tag: 35, value: mtb }).encoded();
    let efh = spec_encode_fields(m.header.fields);
    let efb = spec_encode_fields(fields);
    let ef2 = spec_encode_fields(fields.drop_first());
    let enc0 = f0.encoded();
    let d0 = spec_digits(f0.tag() as int);
    let v0 = f0.value();
    let p6 = body_start + 5;

    assert(efh == Seq::<u8>::empty());
    assert(spec_digits(3) == seq![51u8]);
    assert(spec_digits(35) == seq![51u8, 53]);
    assert(soh_free(mtb));
    lemma_wire_safe_field(f0);
    lemma_spec_digits_wf(f0.tag() as int);
    lemma_encode_fields_first(fields);

    // Peel the regular section along its own seams.
    lemma_peel(s, body_start, x35e + soh + efh, efb);
    lemma_peel(s, body_start, x35e + soh, efh);
    lemma_peel(s, body_start, x35e, soh);
    lemma_peel(s, body_start, spec_digits(35) + eq, mtb);
    lemma_peel(s, body_start, spec_digits(35), eq);
    lemma_byte_at(s, body_start + 2, 61);
    lemma_byte_at(s, body_start + 4, SOH);

    assert(s.subrange(p6, p6 + efb.len()) == enc0 + soh + ef2);
    lemma_peel(s, p6, enc0 + soh, ef2);
    lemma_peel(s, p6, enc0, soh);
    lemma_peel(s, p6, d0 + eq, v0);
    lemma_peel(s, p6, d0, eq);
    lemma_byte_at(s, p6 + d0.len() as int, 61);
    lemma_byte_at(s, p6 + d0.len() as int + 1 + v0.len() as int, SOH);
    assert(p8 == p6 + d0.len() + 1 + v0.len() + 1);

    // The message-type field and the first body field lex back.
    lemma_field_at_windows(s, body_start, 35u16, mtb);
    lemma_msg_type_inverse(mt);
    lemma_field_at_windows(s, p6, f0.tag(), v0);
    lemma_try_new_inverse(f0);

    assert(p8 + ef2.len() == body_start + reg.len()) by {
        assert(efb.len() == enc0.len() + 1 + ef2.len());
        assert(reg.len() == 5 + efb.len());
    }
}

/// Assembling the decode result: where the lexer facts pin the four
/// leading fields of the input and the field loop yields the body
/// fields, decoding yields the message they describe.
proof fn lemma_assemble_decode(
    s: Seq<u8>,
    bs: BeginString,
    mt: MsgType,
    body_start: int,
    declared: int,
    tag0: u16,
    f0: FieldView,
    p8: int,
    fields: Seq<FieldView>,
)
    requires
        spec_lex_tag(s, 0).0 == Ok::<u16, LexError>(8u16),
        spec_lex_tag(s, 0).1 == 2,
        BeginString::spec_from_bytes(spec_lex_value(s, 2).0) == Ok::<
            BeginString,
            crate::begin_string::ParseError,
        >(bs),
        spec_lex_value(s, 2).1 == 10,
        spec_lex_tag(s, 10).0 == Ok::<u16, LexError>(9u16),
        spec_lex_tag(s, 10).1 == 12,
        spec_parse_unsigned(spec_lex_value(s, 12).0, usize::MAX as int) == Ok::<
            int,
            ParseIntError,
        >(declared),
        spec_lex_value(s, 12).1 == body_start,
        spec_lex_tag(s, body_start).0 == Ok::<u16, LexError>(35u16),
        spec_lex_tag(s, body_start).1 == body_start + 3,
        MsgType::spec_from_bytes(spec_lex_value(s, body_start + 3).0) == Ok::<
            MsgType,
            crate::msg_type::ParseError,
        >(mt),
        spec_lex_value(s, body_start + 3).1 == body_start + 5,
        spec_lex_tag(s, body_start + 5).0 == Ok::<u16, LexError>(tag0),
        spec_try_new(
            tag0,
            spec_lex_value(s, spec_lex_tag(s, body_start + 5).1).0,
        ) == Ok::<FieldView, ParseIntError>(f0),
        spec_lex_value(s, spec_lex_tag(s, body_start + 5).1).1 == p8,
        spec_decode_loop(s, body_start, declared, p8, seq![f0]) == Ok::<Seq<FieldView>, Error>(
            fields,
        ),
    ensures
        spec_decode(s) == Ok::<MessageView, Error>(MessageView {
            header: HeaderView { begin_string: bs, msg_type: mt, fields: Seq::empty() },
            body: BodyView { fields },
        }),
{
    assert(spec_decode_from_type(s, body_start, bs, declared) == spec_finish(
        bs,
        mt,
        spec_decode_loop(s, body_start, declared, p8, seq![f0]),
    ));
}

/// Round trip: a message with no optional header fields and a nonempty
/// body of wire-safe fields decodes from its own encoding back to
/// itself (provided the encoding fits in an addressable buffer). A
/// message with optional header fields does not round-trip: the decoder
/// collects every field after the message type into the body.
pub proof fn lemma_encode_decode_round_trip(m: MessageView)
    requires
        m.header.fields.len() == 0,
        m.body.fields.len() >= 1,
        forall|i: int| 0 <= i < m.body.fields.len() ==> wire_safe_field(
            #[trigger] m.body.fields[i],
        ),
        spec_encode_msg(m).len() <= usize::MAX,
    ensures
        spec_decode(spec_encode_msg(m)) == Ok::<MessageView, Error>(m),
{
    let s = spec_encode_msg(m);
    let framed = spec_framed(m);
    let el = spec_regular_section(m).len() as int;
    lemma_byte_sum_nonneg(framed);
    let k = byte_sum(framed) % 256;
    let fields = m.body.fields;
    let f0 = fields[0];
    let body_start: int = 13 + spec_digits(el).len() as int;
    let p8: int = body_start + 5 + spec_digits(f0.tag() as int).len() as int + 1
        + f0.value().len() as int + 1;
    lemma_round_trip_framing(m, k, body_start);
    lemma_round_trip_first_field(m, body_start, p8);

    assert forall|i: int| 0 <= i < fields.drop_first().len() implies wire_safe_field(
        #[trigger] fields.drop_first()[i],
    ) by {
        assert(fields.drop_first()[i] == fields[i + 1]);
        assert(wire_safe_field(fields[i + 1]));
    }
    let ef2 = spec_encode_fields(fields.drop_first());
    let cfb = checksum_field_bytes(k);
    assert(byte_sum(s.subrange(0, p8 + ef2.len())) % 256 == k) by {
        assert(s.subrange(0, framed.len() as int) =~= framed) by {
            assert(s == framed + spec_trailer(framed));
        }
    }
    lemma_glue(s, p8, ef2, cfb);
    lemma_decode_loop_encoded(s, body_start, el, p8, seq![f0], fields.drop_first(), k);
    assert(spec_decode_loop(s, body_start, el, p8, seq![f0]) == Ok::<Seq<FieldView>, Error>(
        fields,
    )) by {
        assert(seq![f0] + fields.drop_first() =~= fields);
    }
    lemma_assemble_decode(
        s,
        m.header.begin_string,
        m.header.msg_type,
        body_start,
        el,
        f0.tag(),
        f0,
        p8,
        fields,
    );
    assert((MessageView {
        header: HeaderView {
            begin_string: m.header.begin_string,
            msg_type: m.header.msg_type,
            fields: Seq::empty(),
        },
        body: BodyView { fields },
    }) =~= m);
}

} // verus!
