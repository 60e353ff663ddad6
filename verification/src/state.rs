//! Mirrors of the consensus driver's state records, held as plain values.

use vstd::prelude::*;

verus! {

use crate::entry::Entry;

/// Durable consensus state of the peer.
#[derive(Debug, Clone, Copy, PartialEq, Eq, Structural)]
pub struct HardState {
    pub term: u64,
    pub vote: u64,
    pub commit: u64,
}

/// Local log state: the hard state plus the last log index.
#[derive(Debug, Clone, Copy, PartialEq, Eq, Structural)]
pub struct RaftLocalState {
    pub hard_state: HardState,
    pub last_index: u64,
}

/// Position and term of the last entry discarded by log truncation.
#[derive(Debug, Clone, Copy, PartialEq, Eq, Structural)]
pub struct TruncatedState {
    pub index: u64,
    pub term: u64,
}

/// Apply-side state: the applied position plus the truncation mark.
#[derive(Debug, Clone, Copy, PartialEq, Eq, Structural)]
pub struct RaftApplyState {
    pub applied_index: u64,
    pub truncated_state: TruncatedState,
}

/// First index still available in the log.
pub fn first_index(state: &RaftApplyState) -> (r: u64)
    requires
        state.truncated_state.index < u64::MAX,
    ensures
        r == state.truncated_state.index + 1,
{
    state.truncated_state.index + 1
}

/// Last index of the log.
pub fn last_index(state: &RaftLocalState) -> (r: u64)
    ensures
        r == state.last_index,
{
    state.last_index
}

/// A durable write staged for the engine: the entries to persist, and the
/// range of stale higher-index entries to delete (`cut_logs`, both bounds
/// exclusive of the entries kept).
#[derive(Debug)]
pub struct WriteTask {
    pub entries: Vec<Entry>,
    pub cut_logs: Option<(u64, u64)>,
}

impl WriteTask {
    /// An empty write task.
    pub fn new() -> (t: WriteTask)
        ensures
            t.entries@.len() == 0,
            t.cut_logs is None,
    {
        WriteTask { entries: Vec::new(), cut_logs: None }
    }
}

} // verus!
