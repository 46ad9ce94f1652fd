//! The ways an operation of the store can fail.

use vstd::prelude::*;

verus! {

/// Why an operation did not complete. An operation that fails leaves the
/// key-value store as it found it.
#[derive(Clone, Copy, Debug, PartialEq, Eq, Structural)]
pub enum Error {
    /// A misaligned index, an empty range or data of the wrong size.
    InvalidArgument,
    /// A batch that had to be there was not.
    NotFound,
    /// Stored bytes that do not decode.
    Codec,
    /// The key-value driver reported an error.
    KvFailure,
}

impl Error {
    /// A short description of the error.
    pub fn message(&self) -> (r: &'static str)
        ensures
            r@ == error_text(*self),
    {
        match self {
            Error::InvalidArgument => "invalid argument",
            Error::NotFound => "not found",
            Error::Codec => "malformed stored bytes",
            Error::KvFailure => "key-value store failure",
        }
    }
}

/// The text that `Error::message` gives for each error.
pub open spec fn error_text(e: Error) -> Seq<char> {
    match e {
        Error::InvalidArgument => "invalid argument"@,
        Error::NotFound => "not found"@,
        Error::Codec => "malformed stored bytes"@,
        Error::KvFailure => "key-value store failure"@,
    }
}

} // verus!
