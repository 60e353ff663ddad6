//! The asynchronous log-fetch protocol: tasks handed to the background
//! worker, results it posts back, and the per-`low` slot states.

use vstd::prelude::*;

verus! {

use crate::entry::{Entry, run_from, size_total, views_of};
use crate::errors::StorageError;

/// How many times a range is fetched asynchronously before the storage falls
/// back to a synchronous engine read.
pub const MAX_ASYNC_FETCH_TRY_CNT: usize = 3;

/// A partial result whose missing tail is within this many entries is
/// completed synchronously, one entry at a time.
pub const RAFT_LOG_MULTI_GET_CNT: u64 = 8;

/// What a range read may do when the cache cannot serve it.
#[derive(Debug, Clone, Copy, PartialEq, Eq, Structural)]
pub struct GetEntriesContext {
    pub can_async: bool,
}

impl GetEntriesContext {
    /// The context of a read issued with no surrounding driver state.
    pub fn empty(can_async: bool) -> (c: GetEntriesContext)
        ensures
            c.can_async == can_async,
    {
        GetEntriesContext { can_async }
    }

    /// Whether the read may be served by scheduling a background fetch.
    pub fn can_async(&self) -> (b: bool)
        ensures
            b == self.can_async,
    {
        self.can_async
    }
}

/// A fetch task for the background worker: read `[low, high)` under
/// `max_size` bytes and post the result back under the key `low`.
#[derive(Debug)]
pub struct FetchTask {
    pub region_id: u64,
    pub context: GetEntriesContext,
    pub low: u64,
    pub high: u64,
    pub max_size: u64,
    pub tried_cnt: usize,
    pub term: u64,
}

/// What the background worker posts back for a task keyed by `low`.
#[derive(Debug)]
pub struct RaftlogFetchResult {
    pub ents: Result<Vec<Entry>, StorageError>,
    /// The `low` of the task that produced this result.
    pub low: u64,
    /// The byte budget the task carried.
    pub max_size: u64,
    /// Whether the engine stopped because of the byte budget.
    pub hit_size_limit: bool,
    /// How many asynchronous attempts this `low` has seen.
    pub tried_cnt: usize,
    /// The peer's term when the task was issued.
    pub term: u64,
}

/// The slot kept per `low`: a task is in flight, or its result awaits reuse.
#[derive(Debug)]
pub enum RaftlogFetchState {
    Fetching,
    Fetched(RaftlogFetchResult),
}

/// What the storage relies on of every result the worker posts for `low`:
/// the worker echoes the key and a try count within the retry budget, and
/// entries it returns form a non-empty bounded run starting at `low`.
pub open spec fn result_wf(r: RaftlogFetchResult, low: u64) -> bool {
    &&& r.low == low
    &&& r.tried_cnt <= MAX_ASYNC_FETCH_TRY_CNT
    &&& match r.ents {
        Ok(v) => {
            &&& v@.len() > 0
            &&& run_from(views_of(v@), low)
            &&& low + v@.len() <= u64::MAX
            &&& size_total(views_of(v@)) <= i64::MAX
        },
        Err(_) => true,
    }
}

/// Counters for the fetch paths a read can take.
#[derive(Debug, Clone, Copy, PartialEq, Eq, Structural)]
pub struct AsyncFetchStats {
    pub async_fetch: u64,
    pub sync_fetch: u64,
    pub fallback_fetch: u64,
    pub fetch_invalid: u64,
    pub fetch_unused: u64,
}

impl AsyncFetchStats {
    /// All counters at zero.
    pub fn new() -> (s: AsyncFetchStats)
        ensures
            s == (AsyncFetchStats {
                async_fetch: 0,
                sync_fetch: 0,
                fallback_fetch: 0,
                fetch_invalid: 0,
                fetch_unused: 0,
            }),
    {
        AsyncFetchStats {
            async_fetch: 0,
            sync_fetch: 0,
            fallback_fetch: 0,
            fetch_invalid: 0,
            fetch_unused: 0,
        }
    }

    /// Hand the counters to the metrics sink and reset them.
    pub fn flush_stats(&mut self) -> (r: AsyncFetchStats)
        ensures
            r == *old(self),
            *final(self) == AsyncFetchStats::new_spec(),
    {
        let r = *self;
        *self = AsyncFetchStats::new();
        r
    }

    /// The zeroed counters.
    pub open spec fn new_spec() -> AsyncFetchStats {
        AsyncFetchStats {
            async_fetch: 0,
            sync_fetch: 0,
            fallback_fetch: 0,
            fetch_invalid: 0,
            fetch_unused: 0,
        }
    }
}

/// Saturating bump of a statistics counter.
pub open spec fn bumped(c: u64) -> u64 {
    if c == u64::MAX {
        c
    } else {
        (c + 1) as u64
    }
}

/// Bump a statistics counter, saturating at the top.
pub fn bump(c: &mut u64)
    ensures
        *final(c) == bumped(*old(c)),
{
    if *c < u64::MAX {
        *c = *c + 1;
    }
}

} // verus!
