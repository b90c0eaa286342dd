//! Error type shared by the library.

use vstd::prelude::*;

verus! {

/// Errors raised while encoding, decoding or writing MCAP data.
#[derive(Debug, Clone, PartialEq, Eq)]
pub enum Error {
    /// A record is malformed or a value does not fit its wire field.
    InvalidRecord(String),
    /// The input ended before a complete record could be read (byte offset).
    UnexpectedEof(u64),
    /// A chunk stream is configured with a compression this build cannot produce.
    UnsupportedCompression,
}

/// Result type used throughout the library.
pub type Result<T> = core::result::Result<T, Error>;

/// Whether `e` is an `InvalidRecord` error carrying the message `m`.
pub open spec fn invalid_with(e: Error, m: Seq<char>) -> bool {
    e matches Error::InvalidRecord(s) && s@ == m
}

/// Build an `InvalidRecord` error carrying `message`.
pub fn invalid(message: &str) -> (r: Error)
    ensures
        r matches Error::InvalidRecord(m) && m@ == message@,
{
    Error::InvalidRecord(message.to_owned())
}

} // verus!
