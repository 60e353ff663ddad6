//! The entry storage facade: it combines the entry cache, the asynchronous
//! fetch coordinator and the durable engine to serve range reads, term
//! lookups and appends for one replicated-log peer.

use vstd::prelude::*;

verus! {

use std::collections::HashMap;

use crate::cache::{window_after_append, CachedEntries, EntryCache};
use crate::engine::RaftEngine;
use crate::entry::{
    cap_take, is_run, lemma_size_total_nonneg, lemma_size_total_split, payload_total,
    run_bounded, run_from, size_total, views_of, Entry, EntryView,
};
use crate::errors::StorageError;
use crate::fetch::{
    bump, bumped, result_wf, AsyncFetchStats, FetchTask, GetEntriesContext, RaftlogFetchResult,
    RaftlogFetchState, MAX_ASYNC_FETCH_TRY_CNT, RAFT_LOG_MULTI_GET_CNT,
};
use crate::state::{HardState, RaftApplyState, RaftLocalState, WriteTask};

/// The hit/miss and fetch-path counters handed out by a metrics flush.
#[derive(Debug, Clone, Copy, PartialEq, Eq, Structural)]
pub struct MetricsReport {
    pub hit: u64,
    pub miss: u64,
    pub fetch: AsyncFetchStats,
}


/// The result's entries reach `high`.
pub open spec fn res_covers(v: Seq<Entry>, low: u64, high: u64) -> bool {
    low + v.len() >= high
}

/// The missing tail is within a few entries and the async budget is spent.
pub open spec fn res_stitchable(v: Seq<Entry>, low: u64, high: u64, tried_cnt: int) -> bool {
    &&& low + v.len() - 1 + RAFT_LOG_MULTI_GET_CNT > high - 1
    &&& tried_cnt + 1 == MAX_ASYNC_FETCH_TRY_CNT
}

/// What a result covering `[low, high)` delivers under `max_size`.
pub open spec fn covered_part(v: Seq<Entry>, low: u64, high: u64, res_max: u64, max_size: u64) -> Seq<Entry> {
    let t = v.take(high - low);
    if max_size < res_max {
        t.take(cap_take(views_of(t), 0, max_size as int))
    } else {
        t
    }
}

/// What a size-capped result delivers when reused under `max_size`.
pub open spec fn reused_part(v: Seq<Entry>, res_max: u64, max_size: u64) -> Seq<Entry> {
    if max_size < res_max {
        v.take(cap_take(views_of(v), 0, max_size as int))
    } else {
        v
    }
}

/// A prefix of a run starting at `low` is a run starting at `low`.
proof fn lemma_prefix_run(v: Seq<Entry>, low: u64, d: Seq<Entry>)
    requires
        run_from(views_of(v), low),
        d.len() <= v.len(),
        forall|i: int| 0 <= i < d.len() ==> d[i] == v[i],
    ensures
        run_from(views_of(d), low),
{
    assert forall|i: int| 0 <= i < d.len() implies (#[trigger] views_of(d)[i]).index == low
        + i by {
        assert(views_of(d)[i] == d[i]@);
        assert(views_of(v)[i] == v[i]@);
    }
}

/// A prefix never carries more serialized bytes than the whole.
proof fn lemma_prefix_size(v: Seq<Entry>, d: Seq<Entry>)
    requires
        d.len() <= v.len(),
        forall|i: int| 0 <= i < d.len() ==> d[i] == v[i],
    ensures
        0 <= size_total(views_of(d)) <= size_total(views_of(v)),
{
    assert(views_of(d) =~= views_of(v).take(d.len() as int));
    lemma_size_total_split(views_of(v), d.len() as int);
    lemma_size_total_nonneg(views_of(v).take(d.len() as int));
    lemma_size_total_nonneg(views_of(v).skip(d.len() as int));
}

/// Extending a prefix of views by one adds that entry's size.
proof fn lemma_size_take_snoc(s: Seq<EntryView>, i: int)
    requires
        0 <= i < s.len(),
    ensures
        size_total(s.take(i + 1)) == size_total(s.take(i)) + s[i].serialized_size(),
{
    assert(s.take(i + 1).drop_last() =~= s.take(i));
    assert(s.take(i + 1).last() == s[i]);
}

/// A take of views never carries more serialized bytes than the whole.
proof fn lemma_size_take_bound(s: Seq<EntryView>, k: int)
    requires
        0 <= k <= s.len(),
    ensures
        0 <= size_total(s.take(k)) <= size_total(s),
{
    lemma_size_total_split(s, k);
    lemma_size_total_nonneg(s.take(k));
    lemma_size_total_nonneg(s.skip(k));
}


/// Complete a partial fetch result: if the byte budget is already spent,
/// trim the result to it; otherwise read the short missing tail `[last+1,
/// high)` from the engine one entry at a time, stopping at the budget, and
/// deliver the whole run into `buf`.
#[verifier::rlimit(100)]
#[verifier::loop_isolation(false)]
fn stitch_tail<E: RaftEngine>(
    engine: &E,
    region_id: u64,
    low: u64,
    high: u64,
    max_size: u64,
    ents: Vec<Entry>,
    buf: &mut Vec<Entry>,
) -> (r: Result<usize, StorageError>)
    requires
        low < high,
        ents@.len() >= 1,
        low + ents@.len() <= u64::MAX,
        low + ents@.len() < high,
        run_from(views_of(ents@), low),
        size_total(views_of(ents@)) <= i64::MAX,
    ensures
        final(buf)@.len() >= old(buf)@.len(),
        final(buf)@.take(old(buf)@.len() as int) == old(buf)@,
        r is Err ==> final(buf)@ == old(buf)@,
        r matches Ok(n) ==> {
            let ext = final(buf)@.skip(old(buf)@.len() as int);
            &&& n == ext.len()
            &&& 1 <= n <= high - low
            &&& run_from(views_of(ext), low)
            &&& size_total(views_of(ext)) <= u64::MAX
        },
        max_size <= size_total(views_of(ents@)) ==> {
            let d = ents@.take(cap_take(views_of(ents@), 0, max_size as int));
            &&& final(buf)@ == old(buf)@ + d
            &&& r == Ok::<usize, StorageError>(d.len() as usize)
        },
        max_size > size_total(views_of(ents@)) ==> match r {
            Ok(n) => {
                let ext = final(buf)@.skip(old(buf)@.len() as int);
                &&& ents@.len() <= n <= high - low
                &&& ext.take(ents@.len() as int) == ents@
                &&& forall|i: int|
                    ents@.len() <= i < n ==> #[trigger] engine.log().contains_key(
                        (low + i) as u64,
                    )
                &&& forall|i: int|
                    ents@.len() <= i < n ==> (#[trigger] ext[i])@ == engine.log()[((low
                        + i) as u64)]
                &&& (n < high - low ==> {
                    let key = (low + n) as u64;
                    &&& engine.log().contains_key(key)
                    &&& size_total(views_of(ext)) + engine.log()[key].serialized_size()
                        > max_size
                })
            },
            Err(_) => final(buf)@ == old(buf)@,
        },
{
    let mut ents = ents;
    let ghost v = ents@;
    let len0: usize = ents.len();
    proof {
        assert(views_of(v)[len0 - 1] == v[len0 - 1]@);
        assert(views_of(v)[len0 - 1].index == low + (len0 - 1));
        lemma_size_total_nonneg(views_of(v));
        assert forall|t: int|
            0 <= t < v.len() implies (#[trigger] v[t]@.serialized_size()) <= u64::MAX by {
            crate::entry::lemma_size_total_elem(views_of(v), t);
            assert(views_of(v)[t] == v[t]@);
        }
        assert(views_of(v).take(0) =~= Seq::<EntryView>::empty());
    }
    let last: u64 = ents[len0 - 1].index;
    let mut fetched: u64 = 0;
    let mut si: usize = 0;
    while si < len0
        invariant
            0 <= si <= len0,
            len0 == v.len(),
            ents@ == v,
            size_total(views_of(v)) <= i64::MAX,
            fetched as int == size_total(views_of(v).take(si as int)),
            fetched <= i64::MAX,
        decreases len0 - si,
    {
        proof {
            crate::entry::lemma_size_total_elem(views_of(v), si as int);
            lemma_size_take_snoc(views_of(v), si as int);
            lemma_size_take_bound(views_of(v), si as int + 1);
            assert(views_of(v)[si as int] == v[si as int]@);
        }
        let m: u64 = ents[si].compute_size();
        fetched = fetched + m;
        si = si + 1;
    }
    proof {
        assert(views_of(v).take(len0 as int) =~= views_of(v));
    }
    if max_size <= fetched {
        proof {
            assert forall|t: int|
                0 <= t < ents@.len() implies (#[trigger] ents@[t]@.serialized_size())
                <= u64::MAX by {
                assert(ents@[t] == v[t]);
            }
        }
        crate::entry::limit_entries(&mut ents, max_size);
        let count: usize = ents.len();
        let ghost dpart = v.take(cap_take(views_of(v), 0, max_size as int));
        proof {
            assert(views_of(v).len() == v.len());
            crate::entry::lemma_cap_take_bounds(views_of(v), 0, max_size as int);
            crate::entry::lemma_cap_take_first(views_of(v), max_size as int);
            assert(ents@ == dpart);
            lemma_prefix_run(v, low, dpart);
            lemma_prefix_size(v, dpart);
        }
        buf.append(&mut ents);
        proof {
            assert(buf@.take(old(buf)@.len() as int) =~= old(buf)@);
            assert(buf@.skip(old(buf)@.len() as int) =~= dpart);
            assert(count >= 1);
            assert(count as int <= high - low);
            assert(run_from(views_of(dpart), low));
            assert(size_total(views_of(dpart)) <= u64::MAX);
        }
        return Ok(count);
    }
    // read the missing tail one entry at a time, within the budget
    let mut idx: u64 = last + 1;
    while idx < high
        invariant
            low < high,
            len0 == v.len(),
            1 <= len0,
            low + len0 <= u64::MAX,
            last == low + len0 - 1,
            last + 1 <= idx <= high,
            ents@.len() == idx - low,
            ents@.take(len0 as int) == v,
            run_from(views_of(ents@), low),
            forall|t: int|
                len0 <= t < ents@.len() ==> #[trigger] engine.log().contains_key(
                    ((low + t) as u64),
                ),
            forall|t: int|
                len0 <= t < ents@.len() ==> (#[trigger] ents@[t])@ == engine.log()[((low
                    + t) as u64)],
            fetched as int == size_total(views_of(ents@)),
            fetched <= max_size,
            buf@ == old(buf)@,
        decreases high - idx,
    {
        let got = engine.get_entry(region_id, idx);
        match got {
            Err(e) => {
                return Err(e);
            },
            Ok(None) => {
                return Err(StorageError::Unavailable);
            },
            Ok(Some(ent)) => {
                let ghost ge = ent@;
                let size: u64 = ent.compute_size();
                if fetched as u128 + size as u128 > max_size as u128 {
                    let count: usize = ents.len();
                    let ghost ex = ents@;
                    buf.append(&mut ents);
                    proof {
                        assert(buf@.take(old(buf)@.len() as int) =~= old(buf)@);
                        assert(buf@.skip(old(buf)@.len() as int) =~= ex);
                        assert(count >= 1);
                        assert(count as int <= high - low);
                        assert(ex.take(len0 as int) == v);
                        assert(size_total(views_of(ex)) <= u64::MAX);
                        assert(run_from(views_of(ex), low));
                        assert((low + count) as u64 == idx);
                        assert(size_total(views_of(ex)) + ge.serialized_size() > max_size);
                        assert(engine.log().contains_key(idx));
                        let ext = buf@.skip(old(buf)@.len() as int);
                        assert(ext == ex);
                        assert forall|i: int|
                            len0 <= i < ext.len() implies #[trigger] engine.log().contains_key(
                                (low + i) as u64,
                            ) by {
                            assert((ex[i])@ == engine.log()[(low + i) as u64]);
                        }
                        assert forall|i: int|
                            len0 <= i < ext.len() implies (#[trigger] ext[i])@
                                == engine.log()[((low + i) as u64)] by {
                            assert(ext[i] == ex[i]);
                            assert((ex[i])@ == engine.log()[(low + i) as u64]);
                        }
                    }
                    return Ok(count);
                }
                fetched = fetched + size;
                let ghost prev = ents@;
                ents.push(ent);
                proof {
                    assert(ents@.len() == prev.len() + 1);
                    assert(ents@[prev.len() as int] == ents@.last());
                    assert(ents@.last()@ == ge);
                    assert(low + prev.len() == idx);
                    assert(ents@.take(len0 as int) =~= prev.take(len0 as int));
                    assert forall|t: int|
                        0 <= t < ents@.len() implies (#[trigger] views_of(ents@)[t]).index == low
                        + t by {
                        assert(views_of(ents@)[t] == ents@[t]@);
                        if t < prev.len() {
                            assert(ents@[t] == prev[t]);
                            assert(views_of(prev)[t] == prev[t]@);
                        } else {
                            assert(ents@[t]@ == ge);
                        }
                    }
                    assert forall|t: int|
                        len0 <= t < ents@.len() implies #[trigger] engine.log().contains_key(
                            ((low + t) as u64),
                        ) by {
                        if t < prev.len() {
                            assert(engine.log().contains_key(((low + t) as u64)));
                        } else {
                            assert((low + t) as u64 == idx);
                        }
                    }
                    assert forall|t: int|
                        len0 <= t < ents@.len() implies (#[trigger] ents@[t])@
                            == engine.log()[((low + t) as u64)] by {
                        if t < prev.len() {
                            assert(ents@[t] == prev[t]);
                        } else {
                            assert(ents@[t]@ == ge);
                            assert((low + t) as u64 == idx);
                        }
                    }
                    assert(views_of(ents@).drop_last() =~= views_of(prev));
                    assert(views_of(ents@).last() == ge);
                }
                idx = idx + 1;
            },
        }
    }
    let count: usize = ents.len();
    let ghost ex = ents@;
    buf.append(&mut ents);
    proof {
        assert(buf@.take(old(buf)@.len() as int) =~= old(buf)@);
        assert(buf@.skip(old(buf)@.len() as int) =~= ex);
        assert(count >= 1);
        assert(count as int == high - low);
        assert(ex.take(len0 as int) == v);
        assert(size_total(views_of(ex)) <= u64::MAX);
        assert(run_from(views_of(ex), low));
        let ext = buf@.skip(old(buf)@.len() as int);
        assert(ext == ex);
        assert forall|i: int|
            len0 <= i < ext.len() implies #[trigger] engine.log().contains_key(
                (low + i) as u64,
            ) by {
            assert((ex[i])@ == engine.log()[(low + i) as u64]);
        }
        assert forall|i: int|
            len0 <= i < ext.len() implies (#[trigger] ext[i])@ == engine.log()[((low
                + i) as u64)] by {
            assert(ext[i] == ex[i]);
            assert((ex[i])@ == engine.log()[(low + i) as u64]);
        }
    }
    Ok(count)
}

/// Per-peer storage for log entries: the cache, the engine, mirrors of the
/// consensus state records, and the asynchronous fetch slots.
pub struct EntryStorage<E: RaftEngine> {
    region_id: u64,
    peer_id: u64,
    raft_engine: E,
    cache: EntryCache,
    raft_state: RaftLocalState,
    apply_state: RaftApplyState,
    last_term: u64,
    applied_term: u64,
    raftlog_fetch_stats: AsyncFetchStats,
    async_fetch_results: HashMap<u64, RaftlogFetchState>,
    fetch_outbox: Vec<FetchTask>,
    evict_bytes: u64,
}

impl<E: RaftEngine> EntryStorage<E> {
    /// The fetch slots, keyed by each request's original `low`.
    pub closed spec fn slots(&self) -> Map<u64, RaftlogFetchState> {
        self.async_fetch_results@
    }

    /// Fetch tasks queued for the background worker, oldest first.
    pub closed spec fn outbox(&self) -> Seq<FetchTask> {
        self.fetch_outbox@
    }

    /// The entry cache.
    pub closed spec fn entry_cache(&self) -> EntryCache {
        self.cache
    }

    /// The durable engine.
    pub closed spec fn engine(&self) -> E {
        self.raft_engine
    }

    /// The local raft state record.
    pub closed spec fn local_state(&self) -> RaftLocalState {
        self.raft_state
    }

    /// The apply state record.
    pub closed spec fn applied(&self) -> RaftApplyState {
        self.apply_state
    }

    /// Term of the last log entry.
    pub closed spec fn spec_last_term(&self) -> u64 {
        self.last_term
    }

    /// Term of the last applied entry.
    pub closed spec fn spec_applied_term(&self) -> u64 {
        self.applied_term
    }

    /// The fetch-path counters.
    pub closed spec fn stats(&self) -> AsyncFetchStats {
        self.raftlog_fetch_stats
    }

    /// The region this peer belongs to.
    pub closed spec fn spec_region_id(&self) -> u64 {
        self.region_id
    }

    /// This peer's id.
    pub closed spec fn spec_peer_id(&self) -> u64 {
        self.peer_id
    }

    /// Bytes evicted from the cache under memory pressure so far.
    pub closed spec fn spec_evict_bytes(&self) -> u64 {
        self.evict_bytes
    }

    /// Well-formedness: the cache is well-formed; queued fetch tasks carry
    /// distinct keys, each marked in-flight in the slots; and every posted
    /// result in a slot satisfies the worker's interface promises.
    pub open spec fn wf(&self) -> bool {
        &&& self.entry_cache().wf()
        &&& forall|i: int, j: int|
            0 <= i < j < self.outbox().len() ==> (#[trigger] self.outbox()[i]).low != (
            #[trigger] self.outbox()[j]).low
        &&& forall|i: int|
            0 <= i < self.outbox().len() ==> self.slots().contains_key(
                (#[trigger] self.outbox()[i]).low,
            ) && self.slots()[self.outbox()[i].low] is Fetching
        &&& forall|k: u64|
            #[trigger] self.slots().contains_key(k) ==> match self.slots()[k] {
                RaftlogFetchState::Fetched(r) => result_wf(r, k),
                RaftlogFetchState::Fetching => true,
            }
    }

    /// Build the storage around an engine and the peer's state records. The
    /// cache starts empty.
    pub fn new(
        region_id: u64,
        peer_id: u64,
        raft_engine: E,
        raft_state: RaftLocalState,
        apply_state: RaftApplyState,
        last_term: u64,
        applied_term: u64,
    ) -> (s: Self)
        ensures
            s.wf(),
            s.spec_region_id() == region_id,
            s.spec_peer_id() == peer_id,
            s.engine() == raft_engine,
            s.local_state() == raft_state,
            s.applied() == apply_state,
            s.spec_last_term() == last_term,
            s.spec_applied_term() == applied_term,
            s.entry_cache().window().len() == 0,
            s.entry_cache().batches().len() == 0,
            s.entry_cache().persisted_mark() == 0,
            s.entry_cache().deltas() == seq![0int],
            s.slots() == Map::<u64, RaftlogFetchState>::empty(),
            s.outbox() == Seq::<FetchTask>::empty(),
            s.stats() == AsyncFetchStats::new_spec(),
            s.spec_evict_bytes() == 0,
    {
        let s = EntryStorage {
            region_id,
            peer_id,
            raft_engine,
            cache: EntryCache::new(),
            raft_state,
            apply_state,
            last_term,
            applied_term,
            raftlog_fetch_stats: AsyncFetchStats::new(),
            async_fetch_results: HashMap::new(),
            fetch_outbox: Vec::new(),
            evict_bytes: 0,
        };
        s
    }


    /// The fetch machinery — slots, task queue, counters — is the same in
    /// `a` and `b`.
    pub open spec fn fetch_eq(a: &Self, b: &Self) -> bool {
        &&& a.slots() == b.slots()
        &&& a.outbox() == b.outbox()
        &&& a.stats() == b.stats()
    }

    /// The peer's identity, engine and eviction counter are the same.
    pub open spec fn ident_eq(a: &Self, b: &Self) -> bool {
        &&& a.spec_region_id() == b.spec_region_id()
        &&& a.spec_peer_id() == b.spec_peer_id()
        &&& a.engine() == b.engine()
        &&& a.spec_evict_bytes() == b.spec_evict_bytes()
    }

    /// The consensus state records and terms are the same.
    pub open spec fn records_eq(a: &Self, b: &Self) -> bool {
        &&& a.local_state() == b.local_state()
        &&& a.applied() == b.applied()
        &&& a.spec_last_term() == b.spec_last_term()
        &&& a.spec_applied_term() == b.spec_applied_term()
    }

    /// The cache is the same.
    pub open spec fn cache_eq(a: &Self, b: &Self) -> bool {
        a.entry_cache() == b.entry_cache()
    }

    /// Whether `[low, high)` lies within the readable log.
    pub open spec fn range_ok(&self, low: u64, high: u64) -> bool {
        &&& low <= high
        &&& low > self.applied().truncated_state.index
        &&& high <= self.local_state().last_index + 1
    }

    /// The error a bad range draws: bounds errors first, then compaction.
    pub open spec fn range_err(&self, low: u64, high: u64) -> StorageError {
        if low > high {
            StorageError::OutOfBounds { low, high }
        } else if low <= self.applied().truncated_state.index {
            StorageError::Compacted
        } else {
            StorageError::OutOfBounds { low, high }
        }
    }

    fn check_range(&self, low: u64, high: u64) -> (r: Result<(), StorageError>)
        ensures
            r is Ok <==> self.range_ok(low, high),
            r is Err ==> r == Err::<(), StorageError>(self.range_err(low, high)),
    {
        if low > high {
            return Err(StorageError::OutOfBounds { low, high });
        }
        if low <= self.apply_state.truncated_state.index {
            return Err(StorageError::Compacted);
        }
        if self.raft_state.last_index < u64::MAX && high > self.raft_state.last_index + 1 {
            return Err(StorageError::OutOfBounds { low, high });
        }
        Ok(())
    }

    /// First index still available: one past the truncation mark.
    pub fn first_index(&self) -> (r: u64)
        requires
            self.applied().truncated_state.index < u64::MAX,
        ensures
            r == self.applied().truncated_state.index + 1,
    {
        crate::state::first_index(&self.apply_state)
    }

    /// Last index of the log.
    pub fn last_index(&self) -> (r: u64)
        ensures
            r == self.local_state().last_index,
    {
        crate::state::last_index(&self.raft_state)
    }

    /// Term of the last log entry.
    pub fn last_term(&self) -> (r: u64)
        ensures
            r == self.spec_last_term(),
    {
        self.last_term
    }

    /// Set the term of the last log entry.
    pub fn set_last_term(&mut self, term: u64)
        ensures
            final(self).spec_last_term() == term,
            Self::cache_eq(old(self), final(self)),
            Self::fetch_eq(old(self), final(self)),
            Self::ident_eq(old(self), final(self)),
            final(self).local_state() == old(self).local_state(),
            final(self).applied() == old(self).applied(),
            final(self).spec_applied_term() == old(self).spec_applied_term(),
            old(self).wf() ==> final(self).wf(),
    {
        self.last_term = term;
    }

    /// Set the term of the last applied entry.
    pub fn set_applied_term(&mut self, applied_term: u64)
        ensures
            final(self).spec_applied_term() == applied_term,
            Self::cache_eq(old(self), final(self)),
            Self::fetch_eq(old(self), final(self)),
            Self::ident_eq(old(self), final(self)),
            final(self).local_state() == old(self).local_state(),
            final(self).applied() == old(self).applied(),
            final(self).spec_last_term() == old(self).spec_last_term(),
            old(self).wf() ==> final(self).wf(),
    {
        self.applied_term = applied_term;
    }

    /// Term of the last applied entry.
    pub fn applied_term(&self) -> (r: u64)
        ensures
            r == self.spec_applied_term(),
    {
        self.applied_term
    }

    /// The local raft state record.
    pub fn raft_state(&self) -> (r: &RaftLocalState)
        ensures
            *r == self.local_state(),
    {
        &self.raft_state
    }

    /// Mutable access to the local raft state record.
    pub fn raft_state_mut(&mut self) -> (r: &mut RaftLocalState)
        ensures
            *r == old(self).local_state(),
            final(self).local_state() == *final(r),
            Self::cache_eq(old(self), final(self)),
            Self::fetch_eq(old(self), final(self)),
            Self::ident_eq(old(self), final(self)),
            final(self).applied() == old(self).applied(),
            final(self).spec_last_term() == old(self).spec_last_term(),
            final(self).spec_applied_term() == old(self).spec_applied_term(),
            old(self).wf() ==> final(self).wf(),
    {
        &mut self.raft_state
    }

    /// The applied index.
    pub fn applied_index(&self) -> (r: u64)
        ensures
            r == self.applied().applied_index,
    {
        self.apply_state.applied_index
    }

    /// Replace the apply state record; application and truncation only move
    /// forward over a peer's lifetime.
    pub fn set_applied_state(&mut self, apply_state: RaftApplyState)
        requires
            apply_state.applied_index >= old(self).applied().applied_index,
            apply_state.truncated_state.index >= old(self).applied().truncated_state.index,
        ensures
            final(self).applied() == apply_state,
            final(self).applied().applied_index >= old(self).applied().applied_index,
            final(self).applied().truncated_state.index >= old(
                self,
            ).applied().truncated_state.index,
            Self::cache_eq(old(self), final(self)),
            Self::fetch_eq(old(self), final(self)),
            Self::ident_eq(old(self), final(self)),
            final(self).local_state() == old(self).local_state(),
            final(self).spec_last_term() == old(self).spec_last_term(),
            final(self).spec_applied_term() == old(self).spec_applied_term(),
            old(self).wf() ==> final(self).wf(),
    {
        self.apply_state = apply_state;
    }

    /// The apply state record.
    pub fn apply_state(&self) -> (r: &RaftApplyState)
        ensures
            *r == self.applied(),
    {
        &self.apply_state
    }

    /// Mutable access to the apply state record.
    pub fn apply_state_mut(&mut self) -> (r: &mut RaftApplyState)
        ensures
            *r == old(self).applied(),
            final(self).applied() == *final(r),
            Self::cache_eq(old(self), final(self)),
            Self::fetch_eq(old(self), final(self)),
            Self::ident_eq(old(self), final(self)),
            final(self).local_state() == old(self).local_state(),
            final(self).spec_last_term() == old(self).spec_last_term(),
            final(self).spec_applied_term() == old(self).spec_applied_term(),
            old(self).wf() ==> final(self).wf(),
    {
        &mut self.apply_state
    }

    /// The commit index.
    pub fn commit_index(&self) -> (r: u64)
        ensures
            r == self.local_state().hard_state.commit,
    {
        self.raft_state.hard_state.commit
    }

    /// Advance the commit index; it never moves backward.
    pub fn set_commit_index(&mut self, commit: u64)
        requires
            commit >= old(self).local_state().hard_state.commit,
        ensures
            final(self).local_state().hard_state.commit == commit,
            final(self).local_state().hard_state.commit >= old(
                self,
            ).local_state().hard_state.commit,
            final(self).local_state() == (RaftLocalState {
                hard_state: HardState { commit, ..old(self).local_state().hard_state },
                ..old(self).local_state()
            }),
            Self::cache_eq(old(self), final(self)),
            Self::fetch_eq(old(self), final(self)),
            Self::ident_eq(old(self), final(self)),
            final(self).applied() == old(self).applied(),
            final(self).spec_last_term() == old(self).spec_last_term(),
            final(self).spec_applied_term() == old(self).spec_applied_term(),
            old(self).wf() ==> final(self).wf(),
    {
        self.raft_state.hard_state.commit = commit;
    }

    /// The hard state record.
    pub fn hard_state(&self) -> (r: &HardState)
        ensures
            *r == self.local_state().hard_state,
    {
        &self.raft_state.hard_state
    }

    /// Index of the last truncated entry.
    pub fn truncated_index(&self) -> (r: u64)
        ensures
            r == self.applied().truncated_state.index,
    {
        self.apply_state.truncated_state.index
    }

    /// Term of the last truncated entry.
    pub fn truncated_term(&self) -> (r: u64)
        ensures
            r == self.applied().truncated_state.term,
    {
        self.apply_state.truncated_state.term
    }

    /// The region this peer serves.
    pub fn region_id(&self) -> (r: u64)
        ensures
            r == self.spec_region_id(),
    {
        self.region_id
    }

    /// The durable engine.
    pub fn raft_engine(&self) -> (r: &E)
        ensures
            *r == self.engine(),
    {
        &self.raft_engine
    }

    /// Drop the fetch slot kept for `low`, whatever its state. The caller
    /// asserts that no task for `low` is still queued for the worker.
    #[verifier::rlimit(50)]
    pub fn clean_async_fetch_res(&mut self, low: u64)
        requires
            old(self).wf(),
            forall|i: int|
                0 <= i < old(self).outbox().len() ==> (#[trigger] old(self).outbox()[i]).low
                    != low,
        ensures
            final(self).wf(),
            final(self).slots() == old(self).slots().remove(low),
            final(self).outbox() == old(self).outbox(),
            final(self).stats() == old(self).stats(),
            Self::cache_eq(old(self), final(self)),
            Self::ident_eq(old(self), final(self)),
            Self::records_eq(old(self), final(self)),
    {
        broadcast use vstd::std_specs::hash::group_hash_axioms;

        self.async_fetch_results.remove(&low);
        proof {
            assert(self.slots() =~= old(self).slots().remove(low));
        }
    }

    /// Apply what the worker posted for `low`: install a result, or clear a
    /// stale slot (`None`) — a still-pending fetch is never cleared, and
    /// clearing a completed one counts as an unused fetch. Results arrive
    /// only for tasks already handed to the worker.
    pub fn update_async_fetch_res(&mut self, low: u64, res: Option<RaftlogFetchResult>)
        requires
            old(self).wf(),
            forall|i: int|
                0 <= i < old(self).outbox().len() ==> (#[trigger] old(self).outbox()[i]).low
                    != low,
            match res {
                Some(r) => result_wf(r, low),
                None => true,
            },
        ensures
            final(self).wf(),
            final(self).entry_cache() == old(self).entry_cache(),
            final(self).outbox() == old(self).outbox(),
            final(self).local_state() == old(self).local_state(),
            final(self).applied() == old(self).applied(),
            final(self).engine() == old(self).engine(),
            match res {
                Some(r) => {
                    &&& final(self).slots() == old(self).slots().insert(
                        low,
                        RaftlogFetchState::Fetched(r),
                    )
                    &&& final(self).stats() == old(self).stats()
                },
                None => {
                    if old(self).slots().contains_key(low) && old(self).slots()[low]
                        is Fetching {
                        &&& final(self).slots() == old(self).slots()
                        &&& final(self).stats() == old(self).stats()
                    } else {
                        &&& final(self).slots() == old(self).slots().remove(low)
                        &&& final(self).stats() == (AsyncFetchStats {
                            fetch_unused: if old(self).slots().contains_key(low) {
                                bumped(old(self).stats().fetch_unused)
                            } else {
                                old(self).stats().fetch_unused
                            },
                            ..old(self).stats()
                        })
                    }
                },
            },
    {
        broadcast use vstd::std_specs::hash::group_hash_axioms;

        let pending = match self.async_fetch_results.get(&low) {
            Some(s) => matches!(s, RaftlogFetchState::Fetching),
            None => false,
        };
        if pending && res.is_none() {
            return ;
        }
        match res {
            Some(r) => {
                self.async_fetch_results.insert(low, RaftlogFetchState::Fetched(r));
                proof {
                    assert(self.slots() =~= old(self).slots().insert(
                        low,
                        RaftlogFetchState::Fetched(r),
                    ));
                }
            },
            None => {
                let prev = self.async_fetch_results.remove(&low);
                if prev.is_some() {
                    bump(&mut self.raftlog_fetch_stats.fetch_unused);
                }
                proof {
                    assert(self.slots() =~= old(self).slots().remove(low));
                }
            },
        }
    }

    /// Hand the queued fetch tasks over to the worker; the queue empties.
    #[verifier::rlimit(50)]
    pub fn take_fetch_tasks(&mut self) -> (r: Vec<FetchTask>)
        requires
            old(self).wf(),
        ensures
            final(self).wf(),
            r@ == old(self).outbox(),
            final(self).outbox() == Seq::<FetchTask>::empty(),
            final(self).slots() == old(self).slots(),
            final(self).stats() == old(self).stats(),
            Self::cache_eq(old(self), final(self)),
            Self::ident_eq(old(self), final(self)),
            Self::records_eq(old(self), final(self)),
    {
        let mut v: Vec<FetchTask> = Vec::new();
        core::mem::swap(&mut v, &mut self.fetch_outbox);
        v
    }

    /// Compact the cache below `idx`; the persisted clamp and trace
    /// draining of [`EntryCache::compact_to`] apply.
    pub fn compact_entry_cache(&mut self, idx: u64)
        requires
            old(self).wf(),
        ensures
            final(self).wf(),
            ({
                let c0 = old(self).entry_cache();
                let c = crate::cache::clamped(idx, c0.persisted_mark());
                let k = crate::cache::drain_count(c0.batches(), c);
                let f = crate::cache::drain_idx(c0.batches(), c);
                let dl = crate::cache::window_drop(c0.window(), f);
                &&& final(self).entry_cache().batches() == c0.batches().skip(k)
                &&& final(self).entry_cache().window() == c0.window().skip(dl)
                &&& final(self).entry_cache().persisted_mark() == c0.persisted_mark()
            }),
            Self::fetch_eq(old(self), final(self)),
            Self::ident_eq(old(self), final(self)),
            Self::records_eq(old(self), final(self)),
    {
        self.cache.compact_to(idx);
    }

    /// Whether the cache window holds nothing.
    pub fn is_entry_cache_empty(&self) -> (r: bool)
        ensures
            r == (self.entry_cache().window().len() == 0),
    {
        self.cache.is_empty()
    }

    /// Evict entries from the cache under memory pressure: half the window,
    /// or all but the last entry. Freed bytes go on the eviction counter.
    pub fn evict_entry_cache(&mut self, half: bool)
        requires
            old(self).wf(),
        ensures
            final(self).wf(),
            final(self).entry_cache().persisted_mark() == old(
                self,
            ).entry_cache().persisted_mark(),
            final(self).entry_cache().hits() == old(self).entry_cache().hits(),
            final(self).entry_cache().misses() == old(self).entry_cache().misses(),
            old(self).entry_cache().window().len() == 0 ==> final(self).entry_cache() == old(
                self,
            ).entry_cache() && final(self).spec_evict_bytes() == old(self).spec_evict_bytes(),
            // On a non-empty window this is exactly a compaction to the
            // drain point — half way in, or one short of the window's end —
            // still clamped by the persisted mark; the freed bytes go on
            // the eviction counter, saturating.
            old(self).entry_cache().window().len() > 0 ==> ({
                let c0 = old(self).entry_cache();
                let target = if half {
                    (c0.window()[c0.window().len() as int / 2].index + 1) as u64
                } else {
                    c0.cache_high()
                };
                let c = crate::cache::clamped(target, c0.persisted_mark());
                let k = crate::cache::drain_count(c0.batches(), c);
                let f = crate::cache::drain_idx(c0.batches(), c);
                let dl = crate::cache::window_drop(c0.window(), f);
                let freed = crate::cache::dangle_sum(c0.batches().take(k)) + payload_total(
                    c0.window().take(dl),
                );
                &&& final(self).entry_cache().batches() == c0.batches().skip(k)
                &&& final(self).entry_cache().window() == c0.window().skip(dl)
                &&& final(self).entry_cache().deltas() == c0.deltas().push(-freed)
                &&& final(self).spec_evict_bytes() as int == if old(self).spec_evict_bytes()
                    + freed <= u64::MAX {
                    old(self).spec_evict_bytes() + freed
                } else {
                    u64::MAX as int
                }
            }),
            Self::fetch_eq(old(self), final(self)),
            Self::records_eq(old(self), final(self)),
            final(self).spec_region_id() == old(self).spec_region_id(),
            final(self).spec_peer_id() == old(self).spec_peer_id(),
            final(self).engine() == old(self).engine(),
            final(self).spec_evict_bytes() >= old(self).spec_evict_bytes(),
    {
        if !self.cache.is_empty() {
            let freed: u64 = self.cache.evict(half);
            if self.evict_bytes <= u64::MAX - freed {
                self.evict_bytes = self.evict_bytes + freed;
            } else {
                self.evict_bytes = u64::MAX;
            }
        }
    }

    /// Hand all counters to the metrics sink and reset them. Memory usage
    /// itself is published as it changes, not here.
    #[verifier::rlimit(100)]
    pub fn flush_entry_cache_metrics(&mut self) -> (m: MetricsReport)
        requires
            old(self).wf(),
        ensures
            final(self).wf(),
            m.hit == old(self).entry_cache().hits(),
            m.miss == old(self).entry_cache().misses(),
            m.fetch == old(self).stats(),
            final(self).entry_cache().hits() == 0,
            final(self).entry_cache().misses() == 0,
            final(self).stats() == AsyncFetchStats::new_spec(),
            final(self).entry_cache().window() == old(self).entry_cache().window(),
            final(self).entry_cache().batches() == old(self).entry_cache().batches(),
            final(self).entry_cache().deltas() == old(self).entry_cache().deltas(),
            final(self).entry_cache().persisted_mark() == old(
                self,
            ).entry_cache().persisted_mark(),
            final(self).slots() == old(self).slots(),
            final(self).outbox() == old(self).outbox(),
            final(self).local_state() == old(self).local_state(),
            final(self).applied() == old(self).applied(),
    {
        let c = self.cache.flush_stats();
        let f = self.raftlog_fetch_stats.flush_stats();
        MetricsReport { hit: c.0, miss: c.1, fetch: f }
    }

    /// Record the highest durably persisted index; persistence only
    /// advances.
    pub fn update_cache_persisted(&mut self, persisted: u64)
        requires
            old(self).wf(),
            persisted >= old(self).entry_cache().persisted_mark(),
        ensures
            final(self).wf(),
            final(self).entry_cache().persisted_mark() == persisted,
            final(self).entry_cache().persisted_mark() >= old(
                self,
            ).entry_cache().persisted_mark(),
            final(self).entry_cache().window() == old(self).entry_cache().window(),
            final(self).entry_cache().batches() == old(self).entry_cache().batches(),
            final(self).entry_cache().deltas() == old(self).entry_cache().deltas(),
            final(self).entry_cache().hits() == old(self).entry_cache().hits(),
            final(self).entry_cache().misses() == old(self).entry_cache().misses(),
            Self::fetch_eq(old(self), final(self)),
            Self::ident_eq(old(self), final(self)),
            Self::records_eq(old(self), final(self)),
    {
        self.cache.update_persisted(persisted);
    }

    /// Record a committed batch in the cache's trace queue (see
    /// [`EntryCache::trace_cached_entries`]).
    pub fn trace_cached_entries(&mut self, entries: CachedEntries)
        requires
            old(self).wf(),
            entries@.entries.len() > 0,
            run_from(entries@.entries, entries@.start),
            entries@.end == entries@.start + entries@.entries.len(),
            old(self).entry_cache().batches().len() > 0 ==> old(
                self,
            ).entry_cache().batches().last().end <= entries@.start,
            old(self).entry_cache().window().len() > 0 ==> entries@.end <= old(
                self,
            ).entry_cache().cache_high() + 1,
            old(self).entry_cache().current_bytes() + payload_total(entries@.entries)
                <= i64::MAX,
        ensures
            final(self).wf(),
            final(self).entry_cache().window() == old(self).entry_cache().window(),
            final(self).entry_cache().batches().len() == old(self).entry_cache().batches().len()
                + 1,
            final(self).entry_cache().batches().last().start == entries@.start,
            final(self).entry_cache().batches().last().end == entries@.end,
            final(self).entry_cache().persisted_mark() == old(
                self,
            ).entry_cache().persisted_mark(),
            Self::fetch_eq(old(self), final(self)),
            Self::ident_eq(old(self), final(self)),
            Self::records_eq(old(self), final(self)),
    {
        self.cache.trace_cached_entries(entries);
    }

    /// Throw the cache away: publish the negation of everything retained,
    /// then start over empty (the delta stream then sums to zero).
    pub fn clear(&mut self)
        requires
            old(self).wf(),
        ensures
            final(self).wf(),
            final(self).entry_cache().window().len() == 0,
            final(self).entry_cache().batches().len() == 0,
            final(self).entry_cache().persisted_mark() == 0,
            crate::cache::int_sum(final(self).entry_cache().deltas()) == 0,
            Self::fetch_eq(old(self), final(self)),
            Self::ident_eq(old(self), final(self)),
            Self::records_eq(old(self), final(self)),
    {
        self.cache.reset();
    }

    /// The term of the entry at `idx`. The truncation mark answers
    /// directly; a term-stable log answers with `last_term`; otherwise the
    /// cache is consulted, and then the engine.
    pub fn term(&self, idx: u64) -> (r: Result<u64, StorageError>)
        requires
            self.wf(),
        ensures
            ({
                let trunc = self.applied().truncated_state.index;
                let tterm = self.applied().truncated_state.term;
                let last = self.local_state().last_index;
                let lterm = self.spec_last_term();
                let c = self.entry_cache();
                &&& (idx == trunc ==> r == Ok::<u64, StorageError>(tterm))
                &&& (idx < trunc ==> r == Err::<u64, StorageError>(StorageError::Compacted))
                &&& (idx > trunc && idx > last ==> r == Err::<u64, StorageError>(
                    StorageError::OutOfBounds {
                        low: idx,
                        high: if idx == u64::MAX {
                            u64::MAX
                        } else {
                            (idx + 1) as u64
                        },
                    },
                ))
                &&& (trunc < idx <= last && (tterm == lterm || idx == last) ==> r == Ok::<
                    u64,
                    StorageError,
                >(lterm))
                &&& (trunc < idx <= last && !(tterm == lterm || idx == last) && c.window().len()
                    > 0 && c.cache_low() <= idx <= c.cache_high() ==> r == Ok::<
                    u64,
                    StorageError,
                >(c.window()[idx - c.cache_low()].term))
                &&& (trunc < idx <= last && !(tterm == lterm || idx == last) && !(c.window().len()
                    > 0 && c.cache_low() <= idx <= c.cache_high()) ==> {
                    &&& (r matches Ok(t) ==> self.engine().log().contains_key(idx) && t
                        == self.engine().log()[idx].term)
                    &&& (!self.engine().log().contains_key(idx) ==> r is Err)
                })
            }),
    {
        let trunc_idx: u64 = self.apply_state.truncated_state.index;
        if idx == trunc_idx {
            return Ok(self.apply_state.truncated_state.term);
        }
        if idx < trunc_idx {
            return Err(StorageError::Compacted);
        }
        if idx > self.raft_state.last_index {
            let hi: u64 = if idx == u64::MAX {
                u64::MAX
            } else {
                idx + 1
            };
            return Err(StorageError::OutOfBounds { low: idx, high: hi });
        }
        if self.apply_state.truncated_state.term == self.last_term || idx
            == self.raft_state.last_index {
            return Ok(self.last_term);
        }
        let in_cache: bool = match (self.cache.first_index(), self.cache.last_index()) {
            (Some(lo), Some(hi)) => lo <= idx && idx <= hi,
            _ => false,
        };
        if in_cache {
            match self.cache.entry(idx) {
                Some(e) => {
                    return Ok(e.term);
                },
                None => {
                    proof {
                        assert(false);
                    }
                },
            }
        }
        match self.raft_engine.get_entry(self.region_id, idx) {
            Ok(Some(e)) => Ok(e.term),
            Ok(None) => Err(StorageError::Unavailable),
            Err(e) => Err(e),
        }
    }

    /// Serve `[low, high)` from a completed asynchronous fetch, or schedule
    /// one. A completed result is reused when it covers the range, was
    /// size-capped under a budget at least as tight, or can be stitched to
    /// completion with a few synchronous reads; a stale result is refetched
    /// until the retry budget forces a synchronous fallback. While a fetch
    /// for `low` is in flight nothing new is scheduled.
    #[verifier::rlimit(100)]
    pub fn async_fetch(
        &mut self,
        region_id: u64,
        low: u64,
        high: u64,
        max_size: u64,
        context: GetEntriesContext,
        buf: &mut Vec<Entry>,
    ) -> (r: Result<usize, StorageError>)
        requires
            old(self).wf(),
            low < high,
        ensures
            final(self).wf(),
            Self::cache_eq(old(self), final(self)),
            Self::records_eq(old(self), final(self)),
            Self::ident_eq(old(self), final(self)),
            final(self).engine() == old(self).engine(),
            final(buf)@.len() >= old(buf)@.len(),
            final(buf)@.take(old(buf)@.len() as int) == old(buf)@,
            r matches Ok(n) ==> {
                let ext = final(buf)@.skip(old(buf)@.len() as int);
                &&& n == ext.len()
                &&& 1 <= n <= high - low
                &&& run_from(views_of(ext), low)
                &&& size_total(views_of(ext)) <= u64::MAX
            },
            r is Err ==> final(buf)@ == old(buf)@,
            // Which branch ran, and what it did, follows the slot kept for
            // `low` at the time of the call.
            ({
                let s0 = old(self).slots();
                let out0 = old(self).outbox();
                let st0 = old(self).stats();
                let scheduled = |tried: usize, invalid: bool|
                    {
                        &&& r == Err::<usize, StorageError>(
                            StorageError::LogTemporarilyUnavailable,
                        )
                        &&& final(self).slots() == s0.remove(low).insert(
                            low,
                            RaftlogFetchState::Fetching,
                        )
                        &&& final(self).outbox() == out0.push(
                            FetchTask {
                                region_id,
                                context,
                                low,
                                high,
                                max_size,
                                tried_cnt: tried,
                                term: old(self).local_state().hard_state.term,
                            },
                        )
                        &&& final(self).stats() == (AsyncFetchStats {
                            async_fetch: bumped(st0.async_fetch),
                            fetch_invalid: if invalid {
                                bumped(st0.fetch_invalid)
                            } else {
                                st0.fetch_invalid
                            },
                            ..st0
                        })
                    };
                let fell_back = |invalid: bool|
                    {
                        &&& final(self).slots() == s0.remove(low)
                        &&& final(self).outbox() == out0
                        &&& final(self).stats() == (AsyncFetchStats {
                            fallback_fetch: bumped(st0.fallback_fetch),
                            fetch_invalid: if invalid {
                                bumped(st0.fetch_invalid)
                            } else {
                                st0.fetch_invalid
                            },
                            ..st0
                        })
                        &&& (r matches Ok(n) ==> {
                            let ext = final(buf)@.skip(old(buf)@.len() as int);
                            &&& forall|i: int|
                                0 <= i < n ==> #[trigger] old(self).engine().log().contains_key(
                                    (low + i) as u64,
                                )
                            &&& forall|i: int|
                                0 <= i < n ==> (#[trigger] ext[i])@ == old(
                                    self,
                                ).engine().log()[(low + i) as u64]
                            &&& (n < high - low ==> {
                                let key = (low + n) as u64;
                                &&& old(self).engine().log().contains_key(key)
                                &&& size_total(views_of(ext)) + old(
                                    self,
                                ).engine().log()[key].serialized_size() > max_size
                            })
                        })
                    };
                let consumed = ({
                    &&& final(self).slots() == s0.remove(low)
                    &&& final(self).outbox() == out0
                    &&& final(self).stats() == st0
                });
                if !s0.contains_key(low) {
                    scheduled(1, false)
                } else {
                    match s0[low] {
                        RaftlogFetchState::Fetching => {
                            &&& r == Err::<usize, StorageError>(
                                StorageError::LogTemporarilyUnavailable,
                            )
                            &&& Self::fetch_eq(old(self), final(self))
                        },
                        RaftlogFetchState::Fetched(res) => match res.ents {
                            Err(e) => {
                                &&& r == Err::<usize, StorageError>(e)
                                &&& consumed
                            },
                            Ok(v) => {
                                if res_covers(v@, low, high) {
                                    let d = covered_part(v@, low, high, res.max_size, max_size);
                                    &&& final(buf)@ == old(buf)@ + d
                                    &&& r == Ok::<usize, StorageError>(d.len() as usize)
                                    &&& consumed
                                } else if res.hit_size_limit && max_size <= res.max_size {
                                    let d = reused_part(v@, res.max_size, max_size);
                                    &&& final(buf)@ == old(buf)@ + d
                                    &&& r == Ok::<usize, StorageError>(d.len() as usize)
                                    &&& consumed
                                } else if res_stitchable(v@, low, high, res.tried_cnt as int) {
                                    &&& consumed
                                    &&& (max_size <= size_total(views_of(v@)) ==> {
                                        let d = v@.take(
                                            cap_take(views_of(v@), 0, max_size as int),
                                        );
                                        &&& final(buf)@ == old(buf)@ + d
                                        &&& r == Ok::<usize, StorageError>(d.len() as usize)
                                    })
                                    &&& (max_size > size_total(views_of(v@)) ==> match r {
                                        Ok(n) => {
                                            let ext = final(buf)@.skip(old(buf)@.len() as int);
                                            &&& v@.len() <= n <= high - low
                                            &&& ext.take(v@.len() as int) == v@
                                            &&& forall|i: int|
                                                v@.len() <= i < n ==> #[trigger] old(
                                                    self,
                                                ).engine().log().contains_key((low + i) as u64)
                                            &&& forall|i: int|
                                                v@.len() <= i < n ==> (#[trigger] ext[i])@ == old(
                                                    self,
                                                ).engine().log()[(low + i) as u64]
                                            &&& (n < high - low ==> {
                                                let key = (low + n) as u64;
                                                &&& old(self).engine().log().contains_key(key)
                                                &&& size_total(views_of(ext)) + old(
                                                    self,
                                                ).engine().log()[key].serialized_size()
                                                    > max_size
                                            })
                                        },
                                        Err(_) => final(buf)@ == old(buf)@,
                                    })
                                } else if res.tried_cnt + 1 >= MAX_ASYNC_FETCH_TRY_CNT {
                                    fell_back(true)
                                } else {
                                    scheduled((res.tried_cnt + 1) as usize, true)
                                }
                            },
                        },
                    }
                }
            }),
    {
        broadcast use vstd::std_specs::hash::group_hash_axioms;

        let pending: bool = match self.async_fetch_results.get(&low) {
            Some(s) => matches!(s, RaftlogFetchState::Fetching),
            None => false,
        };
        if pending {
            return Err(StorageError::LogTemporarilyUnavailable);
        }
        let ghost s0 = self.slots();
        let removed = self.async_fetch_results.remove(&low);
        proof {
            assert(self.slots() =~= s0.remove(low));
            if !s0.contains_key(low) {
                assert(self.slots() =~= s0);
            }
            assert forall|i: int|
                0 <= i < self.outbox().len() implies (#[trigger] self.outbox()[i]).low
                != low by {
                assert(s0[self.outbox()[i].low] is Fetching);
            }
        }
        let tried_cnt: usize;
        match removed {
            Some(slot) => {
                match slot {
                    RaftlogFetchState::Fetching => {
                        proof {
                            assert(false);
                        }
                        tried_cnt = 1;
                    },
                    RaftlogFetchState::Fetched(res) => {
                        let ghost resg = res;
                        proof {
                            assert(result_wf(resg, low));
                        }
                        let res_max: u64 = res.max_size;
                        let res_hit: bool = res.hit_size_limit;
                        let res_tried: usize = res.tried_cnt;
                        match res.ents {
                            Err(e) => {
                                return Err(e);
                            },
                            Ok(mut ents) => {
                                let ghost v = ents@;
                                let len0: usize = ents.len();
                                let last: u64 = ents[len0 - 1].index;
                                proof {
                                    assert(views_of(v)[len0 - 1] == v[len0 - 1]@);
                                    assert(views_of(v)[0] == v[0]@);
                                    assert(views_of(v)[len0 - 1].index == low + (len0 - 1));
                                    assert(last == low + (len0 - 1));
                                    lemma_size_total_nonneg(views_of(v));
                                    assert forall|t: int|
                                        0 <= t < v.len() implies (#[trigger] v[t]@
                                            .serialized_size()) <= u64::MAX by {
                                        crate::entry::lemma_size_total_elem(views_of(v), t);
                                        assert(views_of(v)[t] == v[t]@);
                                    }
                                }
                                if last + 1 >= high {
                                    // covers [low, high)
                                    ents.truncate((high - low) as usize);
                                    proof {
                                        assert(ents@ =~= v.take(high - low));
                                    }
                                    if max_size < res_max {
                                        proof {
                                            assert forall|t: int|
                                                0 <= t < ents@.len() implies (#[trigger] ents@[
                                                t]@.serialized_size()) <= u64::MAX by {
                                                assert(ents@[t] == v[t]);
                                            }
                                        }
                                        crate::entry::limit_entries(&mut ents, max_size);
                                    }
                                    let count: usize = ents.len();
                                    let ghost dpart = covered_part(
                                        v,
                                        low,
                                        high,
                                        res_max,
                                        max_size,
                                    );
                                    proof {
                                        assert(views_of(v.take(high - low)).len() == v.take(
                                            high - low,
                                        ).len());
                                        crate::entry::lemma_cap_take_bounds(
                                            views_of(v.take(high - low)),
                                            0,
                                            max_size as int,
                                        );
                                        crate::entry::lemma_cap_take_first(
                                            views_of(v.take(high - low)),
                                            max_size as int,
                                        );
                                        assert(ents@ == dpart);
                                        lemma_prefix_run(v, low, dpart);
                                        lemma_prefix_size(v, dpart);
                                    }
                                    buf.append(&mut ents);
                                    proof {
                                        assert(buf@.take(old(buf)@.len() as int) =~= old(buf)@);
                                        assert(buf@.skip(old(buf)@.len() as int) =~= dpart);
                                        assert(count >= 1);
                                        assert(count as int <= high - low);
                                        assert(run_from(views_of(dpart), low));
                                        assert(size_total(views_of(dpart)) <= u64::MAX);
                                    }
                                    return Ok(count);
                                } else if res_hit && max_size <= res_max {
                                    if max_size < res_max {
                                        proof {
                                            assert forall|t: int|
                                                0 <= t < ents@.len() implies (#[trigger] ents@[
                                                t]@.serialized_size()) <= u64::MAX by {
                                                assert(ents@[t] == v[t]);
                                            }
                                        }
                                        crate::entry::limit_entries(&mut ents, max_size);
                                    }
                                    let count: usize = ents.len();
                                    let ghost dpart = reused_part(v, res_max, max_size);
                                    proof {
                                        assert(views_of(v).len() == v.len());
                                        crate::entry::lemma_cap_take_bounds(
                                            views_of(v),
                                            0,
                                            max_size as int,
                                        );
                                        crate::entry::lemma_cap_take_first(
                                            views_of(v),
                                            max_size as int,
                                        );
                                        assert(ents@ == dpart);
                                        lemma_prefix_run(v, low, dpart);
                                        lemma_prefix_size(v, dpart);
                                    }
                                    buf.append(&mut ents);
                                    proof {
                                        assert(buf@.take(old(buf)@.len() as int) =~= old(buf)@);
                                        assert(buf@.skip(old(buf)@.len() as int) =~= dpart);
                                    }
                                    return Ok(count);
                                } else {
                                    let stitch: bool = (last as u128 + RAFT_LOG_MULTI_GET_CNT
                                        as u128 > (high - 1) as u128) && res_tried + 1
                                        == MAX_ASYNC_FETCH_TRY_CNT;
                                    if stitch {
                                        let got = stitch_tail(
                                            &self.raft_engine,
                                            region_id,
                                            low,
                                            high,
                                            max_size,
                                            ents,
                                            buf,
                                        );
                                        proof {
                                            if got is Ok && max_size > size_total(views_of(v)) {
                                                let n = got->Ok_0 as int;
                                                let ext = buf@.skip(old(buf)@.len() as int);
                                                assert forall|i: int|
                                                    v.len() <= i < n implies #[trigger] old(
                                                    self,
                                                ).engine().log().contains_key(
                                                    (low + i) as u64,
                                                ) by {
                                                    assert(self.engine().log().contains_key(
                                                        (low + i) as u64,
                                                    ));
                                                }
                                            }
                                        }
                                        return got;
                                    }
                                    // stale: the range or budget moved on
                                    bump(&mut self.raftlog_fetch_stats.fetch_invalid);
                                    tried_cnt = res_tried + 1;
                                }
                            },
                        }
                    },
                }
            },
            None => {
                tried_cnt = 1;
            },
        }
        if tried_cnt >= MAX_ASYNC_FETCH_TRY_CNT {
            bump(&mut self.raftlog_fetch_stats.fallback_fetch);
            let got = self.raft_engine.fetch_entries_to(region_id, low, high, max_size, buf);
            match got {
                Ok(c) => {
                    proof {
                        assert(buf@.take(old(buf)@.len() as int) =~= old(buf)@);
                        let ext = buf@.skip(old(buf)@.len() as int);
                        assert forall|t: int|
                            0 <= t < views_of(ext).len() implies (#[trigger] views_of(
                            ext,
                        )[t]).index == low + t by {
                            assert(views_of(ext)[t] == ext[t]@);
                            assert(ext[t] == buf@[old(buf)@.len() + t]);
                        }
                        assert forall|t: int|
                            0 <= t < c implies #[trigger] old(self).engine().log().contains_key(
                                (low + t) as u64,
                            ) by {
                            assert(buf@[old(buf)@.len() + t]@.index == low + t);
                        }
                        assert forall|t: int|
                            0 <= t < c implies (#[trigger] ext[t])@ == old(
                                self,
                            ).engine().log()[(low + t) as u64] by {
                            assert(ext[t] == buf@[old(buf)@.len() + t]);
                            assert(buf@[old(buf)@.len() + t]@.index == low + t);
                        }
                    }
                    return Ok(c);
                },
                Err(e) => {
                    return Err(e);
                },
            }
        }
        bump(&mut self.raftlog_fetch_stats.async_fetch);
        self.async_fetch_results.insert(low, RaftlogFetchState::Fetching);
        let term: u64 = self.raft_state.hard_state.term;
        self.fetch_outbox.push(
            FetchTask { region_id, context, low, high, max_size, tried_cnt, term },
        );
        proof {
            assert(self.slots() =~= old(self).slots().remove(low).insert(
                low,
                RaftlogFetchState::Fetching,
            ));
            if !old(self).slots().contains_key(low) {
                assert(self.slots() =~= old(self).slots().insert(
                    low,
                    RaftlogFetchState::Fetching,
                ));
            }
        }
        Err(StorageError::LogTemporarilyUnavailable)
    }

    /// Serve the entries of `[low, high)` under the byte budget `max_size`.
    /// The range is checked against the truncation mark and the last index;
    /// a range wholly inside the cache window is served from it; a range
    /// below the window is fetched from the engine — through the
    /// asynchronous coordinator when the context allows — and a range
    /// straddling the window's start is stitched from both, the budget
    /// spanning the whole request. The caller keeps the window a suffix of
    /// the log, so a valid range never runs past the window's end.
    #[verifier::rlimit(100)]
    pub fn entries(
        &mut self,
        low: u64,
        high: u64,
        max_size: u64,
        context: GetEntriesContext,
    ) -> (r: Result<Vec<Entry>, StorageError>)
        requires
            old(self).wf(),
            ({
                let c = old(self).entry_cache();
                old(self).range_ok(low, high) && low < high && c.window().len() > 0 && high
                    > c.cache_low() ==> high <= c.cache_high() + 1
            }),
        ensures
            final(self).wf(),
            final(self).entry_cache().window() == old(self).entry_cache().window(),
            final(self).entry_cache().batches() == old(self).entry_cache().batches(),
            final(self).entry_cache().deltas() == old(self).entry_cache().deltas(),
            final(self).entry_cache().persisted_mark() == old(
                self,
            ).entry_cache().persisted_mark(),
            Self::records_eq(old(self), final(self)),
            Self::ident_eq(old(self), final(self)),
            !old(self).range_ok(low, high) ==> r == Err::<Vec<Entry>, StorageError>(
                old(self).range_err(low, high),
            ) && Self::fetch_eq(old(self), final(self)) && final(self).entry_cache() == old(
                self,
            ).entry_cache(),
            old(self).range_ok(low, high) && low == high ==> (r matches Ok(v) ==> v@.len() == 0)
                && r is Ok && Self::fetch_eq(old(self), final(self)) && final(self).entry_cache()
                == old(self).entry_cache(),
            low < high ==> (r matches Ok(v) ==> run_from(views_of(v@), low) && v@.len() <= high
                - low),
            // A range wholly inside the window is served from it, exactly.
            ({
                let c = old(self).entry_cache();
                (old(self).range_ok(low, high) && low < high && c.window().len() > 0 && low
                    >= c.cache_low()) ==> {
                    let lo = c.cache_low();
                    let sub = c.window().subrange(low - lo, high - lo);
                    let d = sub.take(cap_take(sub, 0, max_size as int));
                    &&& r is Ok
                    &&& (r matches Ok(v) ==> views_of(v@) == d)
                    &&& final(self).entry_cache().hits() == bumped(c.hits())
                    &&& final(self).entry_cache().misses() == c.misses()
                    &&& Self::fetch_eq(old(self), final(self))
                }
            }),
            // A synchronous read below the window hands the engine's own
            // entries through, and stops short only for the byte budget.
            ({
                let c = old(self).entry_cache();
                (old(self).range_ok(low, high) && low < high && !context.can_async && (
                c.window().len() == 0 || high <= c.cache_low())) ==> match r {
                    Ok(v) => {
                        &&& forall|i: int|
                            0 <= i < v@.len() ==> #[trigger] old(
                                self,
                            ).engine().log().contains_key(((low + i) as u64))
                        &&& forall|i: int|
                            0 <= i < v@.len() ==> (#[trigger] v@[i])@ == old(
                                self,
                            ).engine().log()[((low + i) as u64)]
                        &&& (v@.len() < high - low ==> {
                            let key = (low + v@.len()) as u64;
                            &&& old(self).engine().log().contains_key(key)
                            &&& size_total(views_of(v@)) + old(
                                self,
                            ).engine().log()[key].serialized_size() > max_size
                        })
                    },
                    Err(_) => true,
                }
            }),
            // A read that misses the window counts one miss.
            ({
                let c = old(self).entry_cache();
                (old(self).range_ok(low, high) && low < high && (c.window().len() == 0 || low
                    < c.cache_low())) ==> final(self).entry_cache().misses() == bumped(c.misses())
            }),
            // A split read that reaches the window ends with the window's
            // entries, capped by the bytes the prefix already spent; when
            // the prefix came back short, it comes back alone, the window
            // left unconsulted.
            ({
                let c = old(self).entry_cache();
                (old(self).range_ok(low, high) && c.window().len() > 0 && low < c.cache_low()
                    && high > c.cache_low()) ==> match r {
                    Ok(v) => {
                        let lo = c.cache_low();
                        if v@.len() >= lo - low {
                            let pre = v@.take(lo - low);
                            let sub = c.window().subrange(0, high - lo);
                            &&& views_of(v@).skip(lo - low) == sub.take(
                                cap_take(sub, size_total(views_of(pre)), max_size as int),
                            )
                            &&& final(self).entry_cache().hits() == bumped(c.hits())
                        } else {
                            final(self).entry_cache().hits() == c.hits()
                        }
                    },
                    Err(_) => true,
                }
            }),
            // The split prefix, read synchronously, is the engine's, and is
            // short only for the byte budget.
            ({
                let c = old(self).entry_cache();
                (old(self).range_ok(low, high) && !context.can_async && c.window().len() > 0
                    && low < c.cache_low() && high > c.cache_low()) ==> match r {
                    Ok(v) => {
                        let lo = c.cache_low();
                        let pl = if v@.len() < lo - low {
                            v@.len() as int
                        } else {
                            lo - low
                        };
                        &&& forall|i: int|
                            0 <= i < pl ==> #[trigger] old(self).engine().log().contains_key(
                                ((low + i) as u64),
                            )
                        &&& forall|i: int|
                            0 <= i < pl ==> (#[trigger] v@[i])@ == old(self).engine().log()[((low
                                + i) as u64)]
                        &&& (v@.len() < lo - low ==> {
                            let key = (low + v@.len()) as u64;
                            &&& old(self).engine().log().contains_key(key)
                            &&& size_total(views_of(v@)) + old(
                                self,
                            ).engine().log()[key].serialized_size() > max_size
                        })
                    },
                    Err(_) => true,
                }
            }),
    {
        let rid: u64 = self.region_id;
        match self.check_range(low, high) {
            Err(e) => {
                return Err(e);
            },
            Ok(()) => {},
        }
        let mut ents: Vec<Entry> = Vec::new();
        if low == high {
            return Ok(ents);
        }
        let cache_first = self.cache.first_index();
        let below: bool = match cache_first {
            None => true,
            Some(cl) => high <= cl,
        };
        if below {
            // The whole range lies below (or without) the window.
            return self.read_below_window(rid, low, high, max_size, context);
        }
        match cache_first {
            Some(cl) => self.read_through_window(rid, low, high, max_size, context, cl, ents),
            None => {
                proof {
                    assert(false);
                }
                Ok(ents)
            },
        }
    }



    /// Fetch `[low, high)` from the engine — through the asynchronous
    /// coordinator when the context allows — counting one cache miss.
    #[verifier::rlimit(100)]
    fn read_below_window(
        &mut self,
        rid: u64,
        low: u64,
        high: u64,
        max_size: u64,
        context: GetEntriesContext,
    ) -> (r: Result<Vec<Entry>, StorageError>)
        requires
            old(self).wf(),
            rid == old(self).spec_region_id(),
            low < high,
        ensures
            final(self).wf(),
            final(self).entry_cache().window() == old(self).entry_cache().window(),
            final(self).entry_cache().batches() == old(self).entry_cache().batches(),
            final(self).entry_cache().deltas() == old(self).entry_cache().deltas(),
            final(self).entry_cache().persisted_mark() == old(
                self,
            ).entry_cache().persisted_mark(),
            final(self).entry_cache().hits() == old(self).entry_cache().hits(),
            final(self).entry_cache().misses() == bumped(old(self).entry_cache().misses()),
            Self::records_eq(old(self), final(self)),
            Self::ident_eq(old(self), final(self)),
            r matches Ok(v) ==> {
                &&& run_from(views_of(v@), low)
                &&& v@.len() <= high - low
                &&& size_total(views_of(v@)) <= u64::MAX
            },
            // a synchronous read hands the engine's entries through, and
            // stops short of the range only for the byte budget
            !context.can_async ==> (r matches Ok(v) ==> {
                &&& forall|i: int|
                    0 <= i < v@.len() ==> #[trigger] old(self).engine().log().contains_key(
                        ((low + i) as u64),
                    )
                &&& forall|i: int|
                    0 <= i < v@.len() ==> (#[trigger] v@[i])@ == old(self).engine().log()[((low
                        + i) as u64)]
                &&& (v@.len() < high - low ==> {
                    let key = (low + v@.len()) as u64;
                    &&& old(self).engine().log().contains_key(key)
                    &&& size_total(views_of(v@)) + old(self).engine().log()[key].serialized_size()
                        > max_size
                })
            }),
    {
        let mut ents: Vec<Entry> = Vec::new();
        self.cache.note_miss();
        if context.can_async() {
            match self.async_fetch(rid, low, high, max_size, context, &mut ents) {
                Ok(_) => {
                    proof {
                        assert(ents@.skip(0) =~= ents@);
                    }
                    Ok(ents)
                },
                Err(e) => Err(e),
            }
        } else {
            bump(&mut self.raftlog_fetch_stats.sync_fetch);
            match self.raft_engine.fetch_entries_to(rid, low, high, max_size, &mut ents) {
                Ok(_) => {
                    proof {
                        assert(ents@.skip(0) =~= ents@);
                        let ext = ents@;
                        assert forall|t: int|
                            0 <= t < views_of(ext).len() implies (#[trigger] views_of(
                            ext,
                        )[t]).index == low + t by {
                            assert(ext[0 + t] == ext[t]);
                            assert(views_of(ext)[t] == ext[t]@);
                        }
                        assert forall|t: int|
                            0 <= t < ext.len() implies #[trigger] old(
                                self,
                            ).engine().log().contains_key(((low + t) as u64)) by {
                            assert(ext[0 + t]@.index == low + t);
                        }
                        assert forall|t: int|
                            0 <= t < ext.len() implies (#[trigger] ext[t])@ == old(
                                self,
                            ).engine().log()[((low + t) as u64)] by {
                            assert(ext[0 + t]@.index == low + t);
                        }
                    }
                    Ok(ents)
                },
                Err(e) => Err(e),
            }
        }
    }

    /// Serve the part of `[low, high)` that the window covers, fetching any
    /// prefix below `cl` (the window's first index) from the engine first.
    #[verifier::rlimit(100)]
    fn read_through_window(
        &mut self,
        rid: u64,
        low: u64,
        high: u64,
        max_size: u64,
        context: GetEntriesContext,
        cl: u64,
        ents: Vec<Entry>,
    ) -> (r: Result<Vec<Entry>, StorageError>)
        requires
            old(self).wf(),
            rid == old(self).spec_region_id(),
            low < high,
            old(self).entry_cache().window().len() > 0,
            cl == old(self).entry_cache().cache_low(),
            high > cl,
            high <= old(self).entry_cache().cache_high() + 1,
            ents@.len() == 0,
        ensures
            final(self).wf(),
            final(self).entry_cache().window() == old(self).entry_cache().window(),
            final(self).entry_cache().batches() == old(self).entry_cache().batches(),
            final(self).entry_cache().deltas() == old(self).entry_cache().deltas(),
            final(self).entry_cache().persisted_mark() == old(
                self,
            ).entry_cache().persisted_mark(),
            Self::records_eq(old(self), final(self)),
            Self::ident_eq(old(self), final(self)),
            r matches Ok(v) ==> run_from(views_of(v@), low) && v@.len() <= high - low,
            ({
                let c = old(self).entry_cache();
                low >= cl ==> {
                    let sub = c.window().subrange(low - cl, high - cl);
                    let d = sub.take(cap_take(sub, 0, max_size as int));
                    &&& r is Ok
                    &&& (r matches Ok(v) ==> views_of(v@) == d)
                    &&& final(self).entry_cache().hits() == bumped(c.hits())
                    &&& final(self).entry_cache().misses() == c.misses()
                    &&& Self::fetch_eq(old(self), final(self))
                }
            }),
            ({
                let c = old(self).entry_cache();
                low < cl ==> final(self).entry_cache().misses() == bumped(c.misses())
            }),
            ({
                let c = old(self).entry_cache();
                low < cl ==> match r {
                    Ok(v) => {
                        if v@.len() >= cl - low {
                            let pre = v@.take(cl - low);
                            let sub = c.window().subrange(0, high - cl);
                            &&& views_of(v@).skip(cl - low) == sub.take(
                                cap_take(sub, size_total(views_of(pre)), max_size as int),
                            )
                            &&& final(self).entry_cache().hits() == bumped(c.hits())
                        } else {
                            // a short engine prefix comes back alone, the
                            // window left unconsulted
                            final(self).entry_cache().hits() == c.hits()
                        }
                    },
                    Err(_) => true,
                }
            }),
            // the prefix below the window, read synchronously, is the
            // engine's, and is short only for the byte budget
            (low < cl && !context.can_async) ==> match r {
                Ok(v) => {
                    let pl = if v@.len() < cl - low {
                        v@.len() as int
                    } else {
                        cl - low
                    };
                    &&& forall|i: int|
                        0 <= i < pl ==> #[trigger] old(self).engine().log().contains_key(
                            ((low + i) as u64),
                        )
                    &&& forall|i: int|
                        0 <= i < pl ==> (#[trigger] v@[i])@ == old(self).engine().log()[((low + i)
                            as u64)]
                    &&& (v@.len() < cl - low ==> {
                        let key = (low + v@.len()) as u64;
                        &&& old(self).engine().log().contains_key(key)
                        &&& size_total(views_of(v@)) + old(
                            self,
                        ).engine().log()[key].serialized_size() > max_size
                    })
                },
                Err(_) => true,
            },
    {
        let mut ents = ents;
        proof {
            assert(cl == self.cache.cache_low());
        }
        let begin: u64;
        if low < cl {
            // Fetch the part below the window first.
            match self.read_below_window(rid, low, cl, max_size, context) {
                Ok(v) => {
                    ents = v;
                },
                Err(e) => {
                    return Err(e);
                },
            }
            let fetched_count: usize = ents.len();
            if (fetched_count as u64) < cl - low {
                // The engine gave a short read: hand back what came.
                return Ok(ents);
            }
            begin = cl;
        } else {
            begin = low;
        }
        self.cache.note_hit();
        // Count the bytes the prefix already spent against the budget.
        let ghost pre = ents@;
        let mut fs: u64 = 0;
        let mut i: usize = 0;
        proof {
            assert(views_of(pre).take(0) =~= Seq::<EntryView>::empty());
            lemma_size_total_nonneg(views_of(pre));
            if pre.len() == 0 {
                assert(views_of(pre) =~= Seq::<EntryView>::empty());
            }
            assert forall|t: int|
                0 <= t < pre.len() implies (#[trigger] pre[t]@.serialized_size())
                <= u64::MAX by {
                crate::entry::lemma_size_total_elem(views_of(pre), t);
                assert(views_of(pre)[t] == pre[t]@);
            }
        }
        while i < ents.len()
            invariant
                0 <= i <= ents@.len(),
                ents@ == pre,
                size_total(views_of(pre)) <= u64::MAX,
                forall|t: int|
                    0 <= t < pre.len() ==> (#[trigger] pre[t]@.serialized_size()) <= u64::MAX,
                fs as int == size_total(views_of(pre).take(i as int)),
                fs as int <= size_total(views_of(pre)),
            decreases ents@.len() - i,
        {
            proof {
                lemma_size_take_snoc(views_of(pre), i as int);
                lemma_size_take_bound(views_of(pre), i as int + 1);
                assert(views_of(pre)[i as int] == pre[i as int]@);
            }
            let m: u64 = ents[i].compute_size();
            fs = fs + m;
            i = i + 1;
        }
        proof {
            assert(views_of(pre).take(pre.len() as int) =~= views_of(pre));
        }
        self.cache.fetch_entries_to(begin, high, fs, max_size, &mut ents);
        proof {
            let c = old(self).entry_cache();
            let lo = c.cache_low();
            let whole = views_of(ents@);
            crate::entry::lemma_cap_take_bounds(
                c.window().subrange(begin - lo, high - lo),
                fs as int,
                max_size as int,
            );
            assert forall|t: int| 0 <= t < whole.len() implies (#[trigger] whole[t]).index == low
                + t by {
                if t < pre.len() {
                    assert(whole[t] == views_of(pre)[t]);
                } else {
                    let sub = c.window().subrange(begin - lo, high - lo);
                    assert(whole[t] == sub.take(
                        cap_take(sub, fs as int, max_size as int),
                    )[t - pre.len()]);
                    assert(sub[t - pre.len()] == c.window()[begin - lo + t - pre.len()]);
                    assert(c.window()[begin - lo + t - pre.len()].index == c.window()[0].index + (
                    begin - lo + t - pre.len()));
                }
            }
            crate::entry::lemma_cap_take_bounds(
                c.window().subrange(begin - lo, high - lo),
                fs as int,
                max_size as int,
            );
            if begin > low {
                assert(views_of(ents@).skip(lo - low) =~= c.window().subrange(0, high - lo).take(
                    cap_take(
                        c.window().subrange(0, high - lo),
                        size_total(views_of(pre)),
                        max_size as int,
                    ),
                ));
                assert(ents@.take(lo - low) =~= pre);
                if !context.can_async {
                    assert forall|t: int|
                        0 <= t < cl - low implies (#[trigger] ents@[t])@ == old(
                            self,
                        ).engine().log()[((low + t) as u64)] by {
                        assert(ents@[t] == pre[t]);
                        assert((pre[t])@ == old(self).engine().log()[((low + t) as u64)]);
                    }
                }
            } else {
                assert(views_of(ents@) =~= c.window().subrange(low - lo, high - lo).take(
                    cap_take(
                        c.window().subrange(low - lo, high - lo),
                        0,
                        max_size as int,
                    ),
                ));
            }
        }
        Ok(ents)
    }

    /// Install entries at the log's tail: the cache truncates any diverging
    /// uncommitted suffix, the write task carries the entries and the cut
    /// directive for the engine, and `last_index`/`last_term` advance.
    pub fn append(&mut self, entries: Vec<Entry>, task: &mut WriteTask)
        requires
            old(self).wf(),
            entries@.len() > 0 ==> {
                &&& is_run(views_of(entries@))
                &&& run_bounded(views_of(entries@))
                &&& old(self).entry_cache().window().len() > 0 ==> entries@[0]@.index <= old(
                    self,
                ).entry_cache().cache_high() + 1
                &&& old(self).entry_cache().batches().len() > 0 ==> old(
                    self,
                ).entry_cache().batches().last().end <= entries@[0]@.index
                &&& old(self).entry_cache().current_bytes() + payload_total(views_of(entries@))
                    <= i64::MAX
                &&& old(self).local_state().last_index < u64::MAX
            },
        ensures
            final(self).wf(),
            entries@.len() == 0 ==> *final(self) == *old(self) && final(task).entries@ == old(
                task,
            ).entries@ && final(task).cut_logs == old(task).cut_logs,
            entries@.len() > 0 ==> {
                &&& final(self).entry_cache().window() == window_after_append(
                    old(self).entry_cache().window(),
                    views_of(entries@),
                )
                &&& final(self).entry_cache().batches() == old(self).entry_cache().batches()
                &&& final(self).entry_cache().persisted_mark() == old(
                    self,
                ).entry_cache().persisted_mark()
                &&& final(self).local_state().last_index == entries@.last()@.index
                &&& final(self).local_state().hard_state == old(self).local_state().hard_state
                &&& final(self).spec_last_term() == entries@.last()@.term
                &&& final(task).entries@ == entries@
                &&& final(task).cut_logs == Some(
                    (
                        (entries@.last()@.index + 1) as u64,
                        (old(self).local_state().last_index + 1) as u64,
                    ),
                )
                &&& final(self).applied() == old(self).applied()
                &&& final(self).slots() == old(self).slots()
                &&& final(self).outbox() == old(self).outbox()
                &&& final(self).stats() == old(self).stats()
                &&& final(self).engine() == old(self).engine()
            },
    {
        if entries.len() == 0 {
            return ;
        }
        let prev_last_index: u64 = self.raft_state.last_index;
        let last_e: usize = entries.len() - 1;
        let last_index: u64 = entries[last_e].index;
        let last_term: u64 = entries[last_e].term;
        proof {
            let es = views_of(entries@);
            assert(es[0] == entries@[0]@);
            assert(es[es.len() - 1] == entries@[es.len() - 1]@);
            assert(es[es.len() - 1].index == es[0].index + (es.len() - 1));
            assert(entries@.last() == entries@[es.len() - 1]);
        }
        self.cache.append(&entries);
        task.entries = entries;
        task.cut_logs = Some((last_index + 1, prev_last_index + 1));
        self.raft_state.last_index = last_index;
        self.last_term = last_term;
    }
}

/// Per `low`, at most one fetch is outstanding: queued tasks carry distinct
/// keys, and each key is marked in-flight in the slots — and, by
/// `async_fetch`'s contract, nothing new is scheduled for a key while its
/// slot reads `Fetching`.
pub proof fn lemma_single_inflight_fetch<E: RaftEngine>(s: &EntryStorage<E>, i: int, j: int)
    requires
        s.wf(),
        0 <= i < s.outbox().len(),
        0 <= j < s.outbox().len(),
        i != j,
    ensures
        s.outbox()[i].low != s.outbox()[j].low,
        s.slots().contains_key(s.outbox()[i].low),
        s.slots()[s.outbox()[i].low] is Fetching,
{
    if i < j {
        assert(s.outbox()[i].low != s.outbox()[j].low);
    } else {
        assert(s.outbox()[j].low != s.outbox()[i].low);
    }
}

} // verus!
