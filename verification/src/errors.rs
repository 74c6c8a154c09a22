//! Errors the cursor can return. Both are recoverable; draining more than a
//! buffer holds is a caller bug and is excluded by precondition instead.

use vstd::prelude::*;

verus! {

/// A seek resolved to a position that would be negative or would not fit in
/// the offset type.
#[derive(Clone, Copy, Debug, PartialEq, Eq, Structural)]
pub struct InvalidSeekError;

/// An exact read found fewer bytes before the end of the stream than the
/// destination requested.
#[derive(Clone, Copy, Debug, PartialEq, Eq, Structural)]
pub struct ReadExactError {
    /// How many bytes remained before the end of the stream.
    pub remaining: u64,
    /// How many bytes the destination asked for.
    pub buf_len: usize,
}

} // verus!
