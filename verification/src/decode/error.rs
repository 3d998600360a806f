//! Decode-side error type.

use vstd::prelude::*;

verus! {

/// The standard library's I/O error, carried through as an opaque value.
#[verifier::external_type_specification]
#[verifier::external_body]
pub struct ExIoError(std::io::Error);

/// Why a stream could not be decoded.
#[derive(Debug)]
pub enum DecodeError {
    /// The data ends before a structural read is complete.
    UnexpectedEof,
    /// The bytes do not follow the JPEG syntax. The text is a short reason.
    Malformed(&'static str),
    /// The stream is valid JPEG but uses a feature that is not decoded
    /// (arithmetic coding, hierarchical mode, 12-bit precision, ...).
    Unsupported(&'static str),
    /// Image dimensions or a component layout that is not accepted (zero or
    /// too large dimensions, unsupported component count).
    InvalidDimensions(&'static str),
    /// I/O failure of the sink that the caller writes to.
    Io(std::io::Error),
}

impl DecodeError {
    /// What [`DecodeError::message`] says.
    pub open spec fn spec_message(&self, io_text: Seq<char>) -> Seq<char> {
        match *self {
            DecodeError::UnexpectedEof => "unexpected end of JPEG data"@,
            DecodeError::Malformed(why) => "malformed JPEG: "@ + why@,
            DecodeError::Unsupported(what) => "unsupported JPEG feature: "@ + what@,
            DecodeError::InvalidDimensions(why) => "invalid dimensions: "@ + why@,
            DecodeError::Io(_) => "I/O error: "@ + io_text,
        }
    }

    /// A sentence about the error. `io_text` describes the I/O error that it
    /// carries, if it carries one.
    pub fn message(&self, io_text: &str) -> (r: String)
        ensures
            r@ == self.spec_message(io_text@),
    {
        match self {
            DecodeError::UnexpectedEof => "unexpected end of JPEG data".to_owned(),
            DecodeError::Malformed(why) => joined("malformed JPEG: ", why),
            DecodeError::Unsupported(what) => joined("unsupported JPEG feature: ", what),
            DecodeError::InvalidDimensions(why) => joined("invalid dimensions: ", why),
            DecodeError::Io(_) => joined("I/O error: ", io_text),
        }
    }
}

/// Two texts, one after the other.
fn joined(a: &str, b: &str) -> (r: String)
    ensures
        r@ == a@ + b@,
{
    let mut r = a.to_owned();
    r.append(b);
    r
}

impl vstd::std_specs::convert::FromSpecImpl<std::io::Error> for DecodeError {
    open spec fn obeys_from_spec() -> bool {
        true
    }

    open spec fn from_spec(e: std::io::Error) -> DecodeError {
        DecodeError::Io(e)
    }
}

impl From<std::io::Error> for DecodeError {
    fn from(e: std::io::Error) -> (r: DecodeError) {
        DecodeError::Io(e)
    }
}

pub type Result<T> = std::result::Result<T, DecodeError>;

} // verus!
