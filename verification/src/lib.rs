//! Core of a log-structured-merge storage engine: the immutable block and
//! sorted-string-table formats, their builders, and the iterator composition
//! layer that merges sorted streams.

pub mod block;
pub mod codec;
pub mod iterators;
pub mod keys;
pub mod lsm_iterator;
pub mod table;

use vstd::prelude::*;

verus! {

/// Errors surfaced by decoding and by iterator stepping.
#[derive(Clone, Copy, Debug, PartialEq, Eq, Structural)]
pub enum Error {
    /// A buffer was too short or inconsistent for the layout it claims.
    Truncated,
    /// The table has no backing bytes (a metadata-only table).
    MissingFile,
    /// A fused iterator was stepped after it had already failed.
    Sealed,
    /// A source iterator failed to advance.
    Step,
}

} // verus!
