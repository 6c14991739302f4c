//! The protocol-version field value (tag 8).

use vstd::prelude::*;

verus! {

/// Value of the protocol-version field (tag 8). Only one version is
/// supported.
#[derive(Clone, Copy, Debug, PartialEq, Eq, Structural)]
pub enum BeginString {
    /// The `FIX.4.4` protocol version (`8=FIX.4.4`).
    FIX44,
}

/// Failure to recognize a protocol-version value.
#[derive(Debug, Clone, PartialEq, Eq, Structural)]
pub enum ParseError {
    /// The bytes are not a supported protocol version.
    Unsupported,
}

impl BeginString {
    /// Tag of the protocol-version field.
    pub fn tag() -> (t: u16)
        ensures
            t == 8,
    {
        8
    }

    /// Wire bytes of this version value (`"FIX.4.4"`).
    pub open spec fn spec_bytes(self) -> Seq<u8> {
        seq![70u8, 73, 88, 46, 52, 46, 52]
    }

    /// Owned wire bytes of this version value.
    pub fn bytes(self) -> (r: Vec<u8>)
        ensures
            r@ == self.spec_bytes(),
    {
        let mut v: Vec<u8> = Vec::new();
        v.push(70);
        v.push(73);
        v.push(88);
        v.push(46);
        v.push(52);
        v.push(46);
        v.push(52);
        proof {
            assert(v@ =~= self.spec_bytes());
        }
        v
    }

    /// Which version, if any, the bytes denote.
    pub open spec fn spec_from_bytes(s: Seq<u8>) -> Result<BeginString, ParseError> {
        if s == BeginString::FIX44.spec_bytes() {
            Ok(BeginString::FIX44)
        } else {
            Err(ParseError::Unsupported)
        }
    }

    /// Recognizes a version value; any bytes other than `"FIX.4.4"` are
    /// unsupported.
    pub fn from_fix_bytes(bytes: &[u8]) -> (r: Result<BeginString, ParseError>)
        ensures
            r == BeginString::spec_from_bytes(bytes@),
    {
        if bytes.len() == 7 && bytes[0] == 70 && bytes[1] == 73 && bytes[2] == 88 && bytes[3] == 46
            && bytes[4] == 52 && bytes[5] == 46 && bytes[6] == 52 {
            proof {
                assert(bytes@ =~= BeginString::FIX44.spec_bytes());
            }
            Ok(BeginString::FIX44)
        } else {
            proof {
                let w = BeginString::FIX44.spec_bytes();
                if bytes@ == w {
                    assert(bytes@.len() == 7);
                    assert(bytes@[0] == 70 && bytes@[1] == 73 && bytes@[2] == 88 && bytes@[3] == 46
                        && bytes@[4] == 52 && bytes@[5] == 46 && bytes@[6] == 52);
                }
            }
            Err(ParseError::Unsupported)
        }
    }
}

} // verus!
