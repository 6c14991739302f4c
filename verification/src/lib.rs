//! A verified codec for a FIX-style wire format: `tag=value` fields separated
//! by a control byte, framed by a protocol-version marker, a body-length
//! field, and a trailing modulo-256 checksum.

pub mod begin_string;
pub mod byte_buf;
pub mod constants;
pub mod decoder;
pub mod encoder;
pub mod digest;
pub mod field;
pub mod message;
pub mod msg_type;
pub mod num;
pub mod roundtrip;

pub use digest::Digest;
