//! The errors of the index.

use vstd::prelude::*;

verus! {

/// Why an operation on the index was given up.
#[derive(Debug, Clone, PartialEq, Eq)]
pub enum Error {
    /// The stored index breaks one of its structural rules.
    CorruptedIndex,
    /// The key-value store failed; the message is the store's own.
    Backend(String),
    /// A node or a state could not be written as bytes or read back.
    EncodingFailure,
    /// A branch was taken that a sound index never takes.
    Unreachable,
}

} // verus!
