//! The message-type field value (tag 35).

use vstd::prelude::*;

verus! {

/// Value of the message-type field (tag 35): the administrative message
/// kinds of the session layer, each a single-character wire code.
#[derive(Clone, Copy, Debug, PartialEq, Eq, Structural)]
pub enum MsgType {
    /// Session initiation request (`35=A`).
    Logon,
    /// Session maintenance signal (`35=0`).
    Heartbeat,
    /// Heartbeat request from the counterparty (`35=1`).
    TestRequest,
    /// Request for retransmission of missed messages (`35=2`).
    ResendRequest,
    /// Report of a problem with a received message (`35=3`).
    Reject,
    /// Reset of expected sequence numbers (`35=4`).
    SequenceReset,
    /// Graceful session termination request (`35=5`).
    Logout,
}

/// Failure to recognize a message-type value.
#[derive(Debug, Clone, PartialEq, Eq, Structural)]
pub enum ParseError {
    /// The bytes are not a supported message-type code.
    Unsupported,
}

impl MsgType {
    /// Tag of the message-type field.
    pub fn tag() -> (t: u16)
        ensures
            t == 35,
    {
        35
    }

    /// The single wire byte of this message-type code.
    pub open spec fn spec_byte(self) -> u8 {
        match self {
            MsgType::Logon => 65,
            MsgType::Heartbeat => 48,
            MsgType::TestRequest => 49,
            MsgType::ResendRequest => 50,
            MsgType::Reject => 51,
            MsgType::SequenceReset => 52,
            MsgType::Logout => 53,
        }
    }

    /// Wire bytes of this message-type value.
    pub open spec fn spec_bytes(self) -> Seq<u8> {
        seq![self.spec_byte()]
    }

    /// Owned wire bytes of this message-type value.
    pub fn bytes(self) -> (r: Vec<u8>)
        ensures
            r@ == self.spec_bytes(),
    {
        let mut v: Vec<u8> = Vec::new();
        let b: u8 = match self {
            MsgType::Logon => 65,
            MsgType::Heartbeat => 48,
            MsgType::TestRequest => 49,
            MsgType::ResendRequest => 50,
            MsgType::Reject => 51,
            MsgType::SequenceReset => 52,
            MsgType::Logout => 53,
        };
        v.push(b);
        proof {
            assert(v@ =~= self.spec_bytes());
        }
        v
    }

    /// Which message type, if any, the bytes denote.
    pub open spec fn spec_from_bytes(s: Seq<u8>) -> Result<MsgType, ParseError> {
        if s.len() != 1 {
            Err(ParseError::Unsupported)
        } else if s[0] == 65 {
            Ok(MsgType::Logon)
        } else if s[0] == 48 {
            Ok(MsgType::Heartbeat)
        } else if s[0] == 49 {
            Ok(MsgType::TestRequest)
        } else if s[0] == 50 {
            Ok(MsgType::ResendRequest)
        } else if s[0] == 51 {
            Ok(MsgType::Reject)
        } else if s[0] == 52 {
            Ok(MsgType::SequenceReset)
        } else if s[0] == 53 {
            Ok(MsgType::Logout)
        } else {
            Err(ParseError::Unsupported)
        }
    }

    /// Recognizes a message-type value from its wire bytes.
    pub fn from_fix_bytes(bytes: &[u8]) -> (r: Result<MsgType, ParseError>)
        ensures
            r == MsgType::spec_from_bytes(bytes@),
    {
        if bytes.len() != 1 {
            return Err(ParseError::Unsupported);
        }
        match bytes[0] {
            65 => Ok(MsgType::Logon),
            48 => Ok(MsgType::Heartbeat),
            49 => Ok(MsgType::TestRequest),
            50 => Ok(MsgType::ResendRequest),
            51 => Ok(MsgType::Reject),
            52 => Ok(MsgType::SequenceReset),
            53 => Ok(MsgType::Logout),
            _ => Err(ParseError::Unsupported),
        }
    }
}

} // verus!
