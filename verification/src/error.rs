//! The error type shared by the line store's queries.

use vstd::prelude::*;

verus! {

/// What can go wrong when querying a line store.
#[derive(Debug, PartialEq, Eq)]
pub enum Lerror {
    /// The requested line index is at or past the line count; both are
    /// carried so the caller can report them.
    OutOfBounds { index: usize, len: usize },
    /// An input/output failure reported by the caller's byte source,
    /// carried as its message.
    IO(String),
    /// The requested line's bytes are not valid UTF-8.
    Decode { index: usize },
}

} // verus!
