//! The error taxonomy: every failure the calendar pipeline can raise.

use vstd::prelude::*;

verus! {

/// Errors raised while building or querying the calendar.
///
/// Each variant carries a human-readable description of the offending
/// input: the failing line for `Parse`, the offending triple for
/// `InvalidDate`.
#[derive(Debug, Clone)]
pub enum Error {
    /// The fetch of the source CSV failed in transport.
    Network(String),
    /// The Shift-JIS byte buffer could not be decoded to UTF-8.
    Decode(String),
    /// A CSV line or its date field could not be parsed.
    Parse(String),
    /// A caller-supplied year/month/day triple names no calendar date.
    InvalidDate(String),
}

impl Error {
    pub open spec fn spec_message(self) -> Seq<char> {
        match self {
            Error::Network(s) => s@,
            Error::Decode(s) => s@,
            Error::Parse(s) => s@,
            Error::InvalidDate(s) => s@,
        }
    }

    /// The description carried by the error.
    pub fn message(&self) -> (r: &str)
        ensures
            r@ == self.spec_message(),
    {
        match self {
            Error::Network(s) => s.as_str(),
            Error::Decode(s) => s.as_str(),
            Error::Parse(s) => s.as_str(),
            Error::InvalidDate(s) => s.as_str(),
        }
    }
}

} // verus!
