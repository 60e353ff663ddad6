//! Errors the storage layer reports to its callers.

use vstd::prelude::*;

verus! {

/// Errors a read of the log can produce.
#[derive(Debug, Clone, Copy, PartialEq, Eq, Structural)]
pub enum StorageError {
    /// The requested low index was already compacted away.
    Compacted,
    /// A required index is not recoverable locally.
    Unavailable,
    /// An asynchronous fetch is outstanding; the caller must retry later.
    LogTemporarilyUnavailable,
    /// The requested range does not fit the log: `low` above `high`, or
    /// `high` past one beyond the last index.
    OutOfBounds { low: u64, high: u64 },
}

} // verus!
