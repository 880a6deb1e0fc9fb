//! The error kinds that the library surfaces to its callers.

use vstd::prelude::*;

verus! {

/// What went wrong while decoding, classifying or executing a command.
#[derive(Clone, Debug, PartialEq)]
pub enum Error {
    /// The classifier rejected the arguments, or a number failed to parse.
    InvalidInput(String),
    /// A frame on the wire or a durable record could not be decoded.
    InvalidData(String),
    /// The input ended before a full frame was read.
    UnexpectedEof,
    /// A key was not bound to a value of the requested kind.
    NotFound(String),
}

impl Error {
    /// A short human-readable rendering, used by the outer layers for logging.
    pub fn message(&self) -> (r: String)
        ensures
            r@ == self.message_spec(),
    {
        match self {
            Error::InvalidInput(s) => s.clone(),
            Error::InvalidData(s) => s.clone(),
            Error::UnexpectedEof => {
                let r = String::from_str("unexpected end of input");
                proof {
                    reveal_strlit("unexpected end of input");
                }
                r
            },
            Error::NotFound(s) => s.clone(),
        }
    }

    pub open spec fn message_spec(&self) -> Seq<char> {
        match self {
            Error::InvalidInput(s) => s@,
            Error::InvalidData(s) => s@,
            Error::UnexpectedEof => "unexpected end of input"@,
            Error::NotFound(s) => s@,
        }
    }
}

} // verus!
