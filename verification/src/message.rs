//! The message model: header, body, the message aggregate, and the
//! staged builder that cannot finalize a message without a body field.

use vstd::prelude::*;
use crate::begin_string::BeginString;
use crate::field::{Field, FieldView};
use crate::msg_type::MsgType;

verus! {

/// The header section of a message: the mandatory protocol-version and
/// message-type values, plus an ordered sequence of optional fields.
#[derive(Debug)]
pub struct Header {
    /// The protocol version (tag 8).
    pub begin_string: BeginString,
    /// The message type (tag 35).
    pub msg_type: MsgType,
    /// Optional additional header fields, in wire order.
    pub fields: Vec<Field>,
}

/// The body section of a message: business fields whose insertion order
/// is the wire order.
#[derive(Debug)]
pub struct Body {
    /// The body fields, in wire order.
    pub fields: Vec<Field>,
}

/// A complete message: exactly one header and one body.
#[derive(Debug)]
pub struct Message {
    /// The message header.
    pub header: Header,
    /// The message body.
    pub body: Body,
}

/// Mathematical model of a `Header`.
#[verifier::ext_equal]
pub struct HeaderView {
    /// The protocol version.
    pub begin_string: BeginString,
    /// The message type.
    pub msg_type: MsgType,
    /// The optional header fields, in wire order.
    pub fields: Seq<FieldView>,
}

/// Mathematical model of a `Body`.
#[verifier::ext_equal]
pub struct BodyView {
    /// The body fields, in wire order.
    pub fields: Seq<FieldView>,
}

/// Mathematical model of a `Message`.
#[verifier::ext_equal]
pub struct MessageView {
    /// The header model.
    pub header: HeaderView,
    /// The body model.
    pub body: BodyView,
}

impl View for Header {
    type V = HeaderView;

    open spec fn view(&self) -> HeaderView {
        HeaderView {
            begin_string: self.begin_string,
            msg_type: self.msg_type,
            fields: self.fields@.map_values(|f: Field| f@),
        }
    }
}

impl View for Body {
    type V = BodyView;

    open spec fn view(&self) -> BodyView {
        BodyView { fields: self.fields@.map_values(|f: Field| f@) }
    }
}

impl View for Message {
    type V = MessageView;

    open spec fn view(&self) -> MessageView {
        MessageView { header: self.header@, body: self.body@ }
    }
}

impl Message {
    /// Creates a builder holding the two mandatory header values, an
    /// empty optional-header section and an empty body.
    pub fn builder(begin_string: BeginString, msg_type: MsgType) -> (b: MessageBuilder<false>)
        ensures
            b.inner@.header.begin_string == begin_string,
            b.inner@.header.msg_type == msg_type,
            b.inner@.header.fields == Seq::<FieldView>::empty(),
            b.inner@.body.fields == Seq::<FieldView>::empty(),
    {
        let header = Header { begin_string, msg_type, fields: Vec::new() };
        let b = MessageBuilder { inner: Message { header, body: Body { fields: Vec::new() } } };
        proof {
            assert(b.inner@.header.fields =~= Seq::<FieldView>::empty());
            assert(b.inner@.body.fields =~= Seq::<FieldView>::empty());
        }
        b
    }
}

/// Staged builder for `Message`. The type-state flag `IS_INIT` records
/// whether at least one body field was added; only an initialized
/// builder can finalize, so a built message never has an empty body.
pub struct MessageBuilder<const IS_INIT: bool> {
    /// The message under construction.
    pub inner: Message,
}

impl<const IS_INIT: bool> MessageBuilder<IS_INIT> {
    /// Appends a field to the optional header section.
    pub fn with_header(self, field: Field) -> (b: MessageBuilder<IS_INIT>)
        ensures
            b.inner@.header.begin_string == self.inner@.header.begin_string,
            b.inner@.header.msg_type == self.inner@.header.msg_type,
            b.inner@.header.fields == self.inner@.header.fields.push(field@),
            b.inner@.body == self.inner@.body,
    {
        let MessageBuilder { inner } = self;
        let Message { header, body } = inner;
        let Header { begin_string, msg_type, mut fields } = header;
        let ghost old_fields = fields@;
        fields.push(field);
        let b = MessageBuilder {
            inner: Message { header: Header { begin_string, msg_type, fields }, body },
        };
        proof {
            assert(b.inner@.header.fields =~= old_fields.map_values(|f: Field| f@).push(field@));
        }
        b
    }

    /// Appends a field to the body, transitioning to the initialized
    /// state from which the message can be finalized.
    pub fn with_field(self, field: Field) -> (b: MessageBuilder<true>)
        ensures
            b.inner@.header == self.inner@.header,
            b.inner@.body.fields == self.inner@.body.fields.push(field@),
    {
        let MessageBuilder { inner } = self;
        let Message { header, body } = inner;
        let Body { mut fields } = body;
        let ghost old_fields = fields@;
        fields.push(field);
        let b = MessageBuilder { inner: Message { header, body: Body { fields } } };
        proof {
            assert(b.inner@.body.fields =~= old_fields.map_values(|f: Field| f@).push(field@));
        }
        b
    }
}

impl MessageBuilder<true> {
    /// Finalizes the construction and returns the message.
    pub fn build(self) -> (m: Message)
        ensures
            m@ == self.inner@,
    {
        self.inner
    }
}

} // verus!
