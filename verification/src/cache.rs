//! The in-memory entry cache: a gap-free window of the log's suffix, the
//! queue of traced committed batches, and byte-exact memory accounting.
//!
//! Every mutation publishes its signed byte delta to an event stream; the
//! running sum of that stream (the gauge) always equals the payload bytes
//! the cache retains — in the window, or dangling from traced batches.

use vstd::prelude::*;

verus! {

use crate::entry::{
    cap_take, is_run, lemma_cap_take_full, lemma_payload_total_concat, lemma_payload_total_elem,
    lemma_payload_total_first, lemma_payload_total_nonneg, lemma_payload_total_snoc,
    lemma_payload_total_split, lemma_payload_total_subrange, payload_total, run_bounded,
    run_from, size_total, views_of, Entry, EntryView,
};

/// The larger of two indexes.
pub open spec fn umax(a: u64, b: u64) -> u64 {
    if a >= b {
        a
    } else {
        b
    }
}

/// Running total of a delta stream.
pub open spec fn int_sum(s: Seq<int>) -> int
    decreases s.len(),
{
    if s.len() == 0 {
        0
    } else {
        int_sum(s.drop_last()) + s.last()
    }
}

pub proof fn lemma_int_sum_push(s: Seq<int>, x: int)
    ensures
        int_sum(s.push(x)) == int_sum(s) + x,
{
    assert(s.push(x).drop_last() =~= s);
}

/// A committed run of entries handed to the apply pipeline, kept by the
/// cache until compaction so the bytes it still holds stay accounted.
#[derive(Debug)]
pub struct CachedEntries {
    /// First index of the batch.
    pub start: u64,
    /// One past the last index of the batch.
    pub end: u64,
    entries: Vec<Entry>,
    dangle_size: u64,
}

/// Mathematical image of a [`CachedEntries`].
pub struct BatchView {
    pub start: u64,
    pub end: u64,
    pub entries: Seq<EntryView>,
    pub dangle: u64,
}

impl View for CachedEntries {
    type V = BatchView;

    closed spec fn view(&self) -> BatchView {
        BatchView {
            start: self.start,
            end: self.end,
            entries: views_of(self.entries@),
            dangle: self.dangle_size,
        }
    }
}

impl CachedEntries {
    /// Capture a non-empty committed run for the apply pipeline.
    pub fn new(entries: Vec<Entry>) -> (r: CachedEntries)
        requires
            entries@.len() > 0,
            is_run(views_of(entries@)),
            run_bounded(views_of(entries@)),
        ensures
            r@.start == entries@[0]@.index,
            r@.end == entries@[0]@.index + entries@.len(),
            r@.entries == views_of(entries@),
            r@.dangle == 0,
    {
        let start: u64 = entries[0].index;
        let last: u64 = entries[entries.len() - 1].index;
        proof {
            let vs = views_of(entries@);
            assert(vs[0] == entries@[0]@);
            assert(vs[entries@.len() - 1] == entries@[entries@.len() - 1]@);
            assert(vs[entries@.len() - 1].index == vs[0].index + (entries@.len() - 1));
            assert(last == start + entries@.len() - 1);
        }
        CachedEntries { start, end: last + 1, entries, dangle_size: 0 }
    }

    /// Take the batch's entries and their dangling byte count; later takes
    /// see an empty batch.
    pub fn take_entries(&mut self) -> (r: (Vec<Entry>, u64))
        ensures
            views_of(r.0@) == old(self)@.entries,
            r.1 == old(self)@.dangle,
            final(self)@.start == old(self)@.start,
            final(self)@.end == old(self)@.end,
            final(self)@.entries == Seq::<EntryView>::empty(),
            final(self)@.dangle == 0,
    {
        let mut v: Vec<Entry> = Vec::new();
        core::mem::swap(&mut v, &mut self.entries);
        let d: u64 = self.dangle_size;
        self.dangle_size = 0;
        proof {
            assert(views_of(self.entries@) =~= Seq::<EntryView>::empty());
        }
        (v, d)
    }
}

/// Total dangling bytes a queue of batches holds.
pub open spec fn dangle_sum(bs: Seq<BatchView>) -> int
    decreases bs.len(),
{
    if bs.len() == 0 {
        0
    } else {
        dangle_sum(bs.drop_last()) + bs.last().dangle
    }
}

pub proof fn lemma_dangle_sum_nonneg(bs: Seq<BatchView>)
    ensures
        dangle_sum(bs) >= 0,
    decreases bs.len(),
{
    if bs.len() > 0 {
        lemma_dangle_sum_nonneg(bs.drop_last());
    }
}

/// Splitting a batch queue splits its dangling total.
pub proof fn lemma_dangle_sum_split(bs: Seq<BatchView>, k: int)
    requires
        0 <= k <= bs.len(),
    ensures
        dangle_sum(bs) == dangle_sum(bs.take(k)) + dangle_sum(bs.skip(k)),
    decreases bs.len(),
{
    if k == bs.len() {
        assert(bs.take(k) =~= bs);
        assert(bs.skip(k) =~= Seq::<BatchView>::empty());
    } else {
        let d = bs.drop_last();
        lemma_dangle_sum_split(d, k);
        assert(d.take(k) =~= bs.take(k));
        assert(bs.skip(k).drop_last() =~= d.skip(k));
        assert(bs.skip(k).last() == bs.last());
    }
}

/// A leading part of a batch queue never holds more dangling bytes than the
/// whole queue.
pub proof fn lemma_dangle_sum_prefix(bs: Seq<BatchView>, k: int)
    requires
        0 <= k <= bs.len(),
    ensures
        0 <= dangle_sum(bs.take(k)) <= dangle_sum(bs),
{
    lemma_dangle_sum_split(bs, k);
    lemma_dangle_sum_nonneg(bs.take(k));
    lemma_dangle_sum_nonneg(bs.skip(k));
}

/// Extending a leading part by one batch adds that batch's dangle.
pub proof fn lemma_dangle_sum_snoc(bs: Seq<BatchView>, k: int)
    requires
        0 <= k < bs.len(),
    ensures
        dangle_sum(bs.take(k + 1)) == dangle_sum(bs.take(k)) + bs[k].dangle,
{
    assert(bs.take(k + 1).drop_last() =~= bs.take(k));
    assert(bs.take(k + 1).last() == bs[k]);
}

/// How much of the window survives an append whose run starts at `first`.
pub open spec fn keep_len(w: Seq<EntryView>, first: u64) -> int {
    if w.len() == 0 {
        0
    } else if first <= w.last().index {
        if first >= w[0].index {
            first - w[0].index
        } else {
            0
        }
    } else {
        w.len() as int
    }
}

/// The window after appending a run: any tail from the run's first index on
/// is dropped, then the run goes on the end.
pub open spec fn window_after_append(w: Seq<EntryView>, es: Seq<EntryView>) -> Seq<EntryView> {
    w.take(keep_len(w, es[0].index)) + es
}

/// Clamp a compaction index so nothing above the persisted mark is dropped.
pub open spec fn clamped(idx: u64, persisted: u64) -> u64 {
    if persisted < u64::MAX && idx > persisted + 1 {
        (persisted + 1) as u64
    } else {
        idx
    }
}

/// How many leading traced batches a compaction to `idx` drains.
pub open spec fn drain_count(bs: Seq<BatchView>, idx: u64) -> int
    decreases bs.len(),
{
    if bs.len() == 0 || bs[0].start >= idx {
        0
    } else {
        1 + drain_count(bs.drop_first(), umax(idx, bs[0].end))
    }
}

/// Where the compaction index lands after draining traced batches: each
/// drained batch extends the compaction past its own end.
pub open spec fn drain_idx(bs: Seq<BatchView>, idx: u64) -> u64
    decreases bs.len(),
{
    if bs.len() == 0 || bs[0].start >= idx {
        idx
    } else {
        drain_idx(bs.drop_first(), umax(idx, bs[0].end))
    }
}

/// How many window entries a compaction landing at `idx` drops.
pub open spec fn window_drop(w: Seq<EntryView>, idx: u64) -> int {
    if w.len() == 0 || idx <= w[0].index {
        0
    } else if idx > w.last().index {
        w.len() as int
    } else {
        idx - w[0].index
    }
}

/// How many leading entries of a batch starting at `start` lie below the
/// window `w` (and so dangle from the batch).
pub open spec fn dangle_count(start: u64, len: int, w: Seq<EntryView>) -> int {
    if w.len() == 0 {
        len
    } else if w[0].index <= start {
        0
    } else if w[0].index >= start + len {
        len
    } else {
        w[0].index - start
    }
}

/// Batch starts increase strictly along a sorted, disjoint queue.
pub proof fn lemma_batch_starts_increase(bs: Seq<BatchView>, i: int, j: int)
    requires
        forall|t: int| 0 <= t < bs.len() ==> (#[trigger] bs[t]).start < bs[t].end,
        forall|t: int| 0 <= t < bs.len() - 1 ==> (#[trigger] bs[t]).end <= bs[t + 1].start,
        0 <= i < j < bs.len(),
    ensures
        bs[i].start < bs[j].start,
    decreases j - i,
{
    if i + 1 == j {
        assert(bs[i].end <= bs[i + 1].start);
    } else {
        lemma_batch_starts_increase(bs, i, j - 1);
        assert(bs[j - 1].end <= bs[j].start);
    }
}

/// In a sorted, disjoint queue whose last batch ends at or below `bound`,
/// every batch does.
pub proof fn lemma_batch_ends_below(bs: Seq<BatchView>, bound: u64)
    requires
        forall|t: int| 0 <= t < bs.len() ==> (#[trigger] bs[t]).start < bs[t].end,
        forall|t: int| 0 <= t < bs.len() - 1 ==> (#[trigger] bs[t]).end <= bs[t + 1].start,
        bs.len() > 0 ==> bs.last().end <= bound,
    ensures
        forall|t: int| 0 <= t < bs.len() ==> (#[trigger] bs[t]).end <= bound,
    decreases bs.len(),
{
    if bs.len() > 1 {
        let d = bs.drop_last();
        assert(bs[bs.len() - 2].end <= bs[bs.len() - 1].start);
        assert(d.last() == bs[bs.len() - 2]);
        assert forall|t: int| 0 <= t < d.len() - 1 implies (#[trigger] d[t]).end <= d[t
            + 1].start by {
            assert(d[t] == bs[t]);
            assert(d[t + 1] == bs[t + 1]);
        }
        lemma_batch_ends_below(d, bound);
        assert forall|t: int| 0 <= t < bs.len() implies (#[trigger] bs[t]).end <= bound by {
            if t < bs.len() - 1 {
                assert(bs[t] == d[t]);
            }
        }
    }
}

/// Appending a run to a window yields a gap-free, bounded window, as long as
/// the run starts no later than one past the window's end.
pub proof fn lemma_window_after_append_run(w: Seq<EntryView>, es: Seq<EntryView>)
    requires
        is_run(w),
        run_bounded(w),
        es.len() > 0,
        is_run(es),
        run_bounded(es),
        w.len() > 0 ==> es[0].index <= w.last().index + 1,
    ensures
        is_run(window_after_append(w, es)),
        run_bounded(window_after_append(w, es)),
        window_after_append(w, es).len() > 0,
        window_after_append(w, es).last() == es.last(),
        keep_len(w, es[0].index) > 0 ==> window_after_append(w, es)[0] == w[0],
{
    let first = es[0].index;
    let k = keep_len(w, first);
    let nw = window_after_append(w, es);
    if w.len() > 0 {
        assert(w.last().index == w[0].index + (w.len() - 1));
        assert(w.last() == w[w.len() - 1]);
    }
    assert(es.last() == es[es.len() - 1]);
    assert(es.last().index == es[0].index + (es.len() - 1));
    assert(nw.last() == es.last());
    if k > 0 {
        assert(nw[0] == w[0]);
        assert(first == w[0].index + k);
    }
    assert forall|t: int| 0 <= t < nw.len() implies #[trigger] nw[t].index == nw[0].index + t by {
        if k > 0 {
            if t < k {
                assert(nw[t] == w[t]);
                assert(w[t].index == w[0].index + t);
            } else {
                assert(nw[t] == es[t - k]);
                assert(es[t - k].index == es[0].index + (t - k));
            }
        } else {
            assert(nw[t] == es[t]);
        }
    }
    assert(nw[0].index + nw.len() <= u64::MAX);
}

/// The entry cache: a gap-free window of the log suffix, traced batches not
/// yet compacted, read counters, and the published memory-delta stream.
#[derive(Debug)]
pub struct EntryCache {
    persisted: u64,
    cache: Vec<Entry>,
    trace: Vec<CachedEntries>,
    hit: u64,
    miss: u64,
    gauge: i64,
    events: Vec<i64>,
}

impl EntryCache {
    /// The cached window of entries.
    pub closed spec fn window(&self) -> Seq<EntryView> {
        views_of(self.cache@)
    }

    /// The traced batches, oldest first.
    pub closed spec fn batches(&self) -> Seq<BatchView> {
        self.trace@.map_values(|b: CachedEntries| b@)
    }

    /// Highest durably persisted index.
    pub closed spec fn persisted_mark(&self) -> u64 {
        self.persisted
    }

    /// Reads served from the window since the last flush.
    pub closed spec fn hits(&self) -> u64 {
        self.hit
    }

    /// Reads the window could not serve since the last flush.
    pub closed spec fn misses(&self) -> u64 {
        self.miss
    }

    /// Every memory delta published so far, oldest first.
    pub closed spec fn deltas(&self) -> Seq<int> {
        self.events@.map_values(|d: i64| d as int)
    }

    /// The memory gauge: the running sum of the published deltas.
    pub closed spec fn gauge_value(&self) -> int {
        self.gauge as int
    }

    /// First index of the window (meaningful when non-empty).
    pub open spec fn cache_low(&self) -> u64 {
        self.window()[0].index
    }

    /// Last index of the window (meaningful when non-empty).
    pub open spec fn cache_high(&self) -> u64 {
        self.window().last().index
    }

    /// Payload bytes dangling from traced batches.
    pub open spec fn dangle_total(&self) -> int {
        dangle_sum(self.batches())
    }

    /// Bytes the cache currently retains: window payloads plus dangles.
    pub open spec fn current_bytes(&self) -> int {
        payload_total(self.window()) + self.dangle_total()
    }

    /// Well-formedness: the window is a gap-free bounded run; traced batches
    /// are non-empty, ordered, disjoint and end within the window; and the
    /// published deltas sum to the gauge, which equals the bytes retained.
    pub open spec fn wf(&self) -> bool {
        &&& is_run(self.window())
        &&& run_bounded(self.window())
        &&& forall|i: int|
            0 <= i < self.batches().len() ==> (#[trigger] self.batches()[i]).start
                < self.batches()[i].end
        &&& forall|i: int|
            0 <= i < self.batches().len() - 1 ==> (#[trigger] self.batches()[i]).end
                <= self.batches()[i + 1].start
        &&& (self.window().len() > 0 ==> forall|i: int|
            0 <= i < self.batches().len() ==> (#[trigger] self.batches()[i]).end
                <= self.cache_high() + 1)
        &&& int_sum(self.deltas()) == self.gauge_value()
        &&& self.gauge_value() == self.current_bytes()
        &&& self.current_bytes() <= i64::MAX
    }

    /// A fresh, empty cache. Publishes the zero baseline delta, so the
    /// stream sums to the bytes retained from the first moment.
    pub fn new() -> (c: EntryCache)
        ensures
            c.wf(),
            c.window().len() == 0,
            c.batches().len() == 0,
            c.persisted_mark() == 0,
            c.hits() == 0,
            c.misses() == 0,
            c.deltas() == seq![0int],
            c.gauge_value() == 0,
    {
        let mut events: Vec<i64> = Vec::new();
        events.push(0i64);
        let c = EntryCache {
            persisted: 0,
            cache: Vec::new(),
            trace: Vec::new(),
            hit: 0,
            miss: 0,
            gauge: 0,
            events,
        };
        proof {
            assert(c.window() =~= Seq::<EntryView>::empty());
            assert(c.batches() =~= Seq::<BatchView>::empty());
            assert(c.deltas() =~= seq![0int]);
            assert(int_sum(seq![0int].drop_last()) == 0) by {
                assert(seq![0int].drop_last() =~= Seq::<int>::empty());
            }
        }
        c
    }

    /// First cached index, when the window is non-empty.
    pub fn first_index(&self) -> (r: Option<u64>)
        ensures
            match r {
                Some(i) => self.window().len() > 0 && i == self.cache_low(),
                None => self.window().len() == 0,
            },
    {
        if self.cache.len() == 0 {
            None
        } else {
            Some(self.cache[0].index)
        }
    }

    /// Last cached index, when the window is non-empty.
    pub fn last_index(&self) -> (r: Option<u64>)
        ensures
            match r {
                Some(i) => self.window().len() > 0 && i == self.cache_high(),
                None => self.window().len() == 0,
            },
    {
        if self.cache.len() == 0 {
            None
        } else {
            proof {
                assert(self.window()[self.window().len() - 1] == self.cache@[self.cache@.len()
                    - 1]@);
            }
            Some(self.cache[self.cache.len() - 1].index)
        }
    }

    /// Whether the window holds nothing.
    pub fn is_empty(&self) -> (b: bool)
        ensures
            b == (self.window().len() == 0),
    {
        self.cache.len() == 0
    }

    /// The gauge: net bytes currently accounted.
    pub fn mem_gauge(&self) -> (g: i64)
        ensures
            g == self.gauge_value(),
    {
        self.gauge
    }

    /// The published delta stream, oldest first.
    pub fn mem_events(&self) -> (r: &Vec<i64>)
        ensures
            r@.map_values(|d: i64| d as int) == self.deltas(),
    {
        &self.events
    }

    /// The entry at `idx`, when the window covers it; absent when `idx` is
    /// below the window. Reads past the window's end are the caller's error
    /// and are ruled out.
    pub fn entry(&self, idx: u64) -> (r: Option<&Entry>)
        requires
            self.wf(),
            self.window().len() > 0 ==> idx <= self.cache_high(),
        ensures
            match r {
                Some(e) => self.window().len() > 0 && idx >= self.cache_low() && e@
                    == self.window()[idx - self.cache_low()],
                None => self.window().len() == 0 || idx < self.cache_low(),
            },
    {
        if self.cache.len() == 0 {
            return None;
        }
        let lo: u64 = self.cache[0].index;
        if idx >= lo {
            Some(&self.cache[(idx - lo) as usize])
        } else {
            None
        }
    }

    /// Record the highest durably persisted index; persistence only advances.
    pub fn update_persisted(&mut self, persisted: u64)
        requires
            old(self).wf(),
            persisted >= old(self).persisted_mark(),
        ensures
            final(self).wf(),
            final(self).persisted_mark() == persisted,
            final(self).window() == old(self).window(),
            final(self).batches() == old(self).batches(),
            final(self).deltas() == old(self).deltas(),
            final(self).gauge_value() == old(self).gauge_value(),
            final(self).hits() == old(self).hits(),
            final(self).misses() == old(self).misses(),
    {
        self.persisted = persisted;
    }

    /// Count a read served (at least partly) from the window.
    pub fn note_hit(&mut self)
        ensures
            final(self).hits() == crate::fetch::bumped(old(self).hits()),
            final(self).misses() == old(self).misses(),
            final(self).window() == old(self).window(),
            final(self).batches() == old(self).batches(),
            final(self).deltas() == old(self).deltas(),
            final(self).gauge_value() == old(self).gauge_value(),
            final(self).persisted_mark() == old(self).persisted_mark(),
            old(self).wf() ==> final(self).wf(),
    {
        crate::fetch::bump(&mut self.hit);
    }

    /// Count a read the window could not serve.
    pub fn note_miss(&mut self)
        ensures
            final(self).misses() == crate::fetch::bumped(old(self).misses()),
            final(self).hits() == old(self).hits(),
            final(self).window() == old(self).window(),
            final(self).batches() == old(self).batches(),
            final(self).deltas() == old(self).deltas(),
            final(self).gauge_value() == old(self).gauge_value(),
            final(self).persisted_mark() == old(self).persisted_mark(),
            old(self).wf() ==> final(self).wf(),
    {
        crate::fetch::bump(&mut self.miss);
    }

    /// Hand the hit/miss counters to the metrics sink and reset them.
    pub fn flush_stats(&mut self) -> (r: (u64, u64))
        ensures
            r.0 == old(self).hits(),
            r.1 == old(self).misses(),
            final(self).hits() == 0,
            final(self).misses() == 0,
            final(self).window() == old(self).window(),
            final(self).batches() == old(self).batches(),
            final(self).deltas() == old(self).deltas(),
            final(self).gauge_value() == old(self).gauge_value(),
            final(self).persisted_mark() == old(self).persisted_mark(),
            old(self).wf() ==> final(self).wf(),
    {
        let r = (self.hit, self.miss);
        self.hit = 0;
        self.miss = 0;
        r
    }

    /// Install a non-empty gap-free run at the tail, truncating any
    /// overlapping uncommitted suffix, and publish the byte delta. Appends
    /// must leave no hole behind the window, and every traced (committed)
    /// batch must lie entirely below the append point.
    #[verifier::rlimit(50)]
    pub fn append(&mut self, entries: &Vec<Entry>)
        requires
            old(self).wf(),
            entries@.len() > 0,
            is_run(views_of(entries@)),
            run_bounded(views_of(entries@)),
            old(self).window().len() > 0 ==> entries@[0]@.index <= old(self).cache_high() + 1,
            old(self).batches().len() > 0 ==> old(self).batches().last().end
                <= entries@[0]@.index,
            old(self).current_bytes() + payload_total(views_of(entries@)) <= i64::MAX,
        ensures
            final(self).wf(),
            final(self).window() == window_after_append(old(self).window(), views_of(entries@)),
            final(self).batches() == old(self).batches(),
            final(self).persisted_mark() == old(self).persisted_mark(),
            final(self).hits() == old(self).hits(),
            final(self).misses() == old(self).misses(),
            final(self).deltas() == old(self).deltas().push(
                final(self).current_bytes() - old(self).current_bytes(),
            ),
    {
        let ghost w0 = old(self).window();
        let ghost es = views_of(entries@);
        proof {
            assert(es[0] == entries@[0]@);
            lemma_payload_total_nonneg(w0);
            lemma_payload_total_nonneg(es);
            lemma_dangle_sum_nonneg(old(self).batches());
            assert(payload_total(w0) <= i64::MAX);
            assert(w0.subrange(keep_len(w0, es[0].index), keep_len(w0, es[0].index)) =~= Seq::<
                EntryView,
            >::empty());
        }
        let first: u64 = entries[0].index;
        let keep: usize = if self.cache.len() == 0 {
            0
        } else {
            let high: u64 = self.cache[self.cache.len() - 1].index;
            if first <= high {
                let lo: u64 = self.cache[0].index;
                if first >= lo {
                    (first - lo) as usize
                } else {
                    0
                }
            } else {
                self.cache.len()
            }
        };
        proof {
            if w0.len() > 0 {
                assert(w0[w0.len() - 1] == self.cache@[self.cache@.len() - 1]@);
                assert(w0[0] == self.cache@[0]@);
                assert(w0.last().index == w0[0].index + (w0.len() - 1));
            }
            assert(keep as int == keep_len(w0, first));
        }
        // Sum the payloads about to be dropped from the tail.
        let mut dropped: u64 = 0;
        let mut i: usize = keep;
        while i < self.cache.len()
            invariant
                keep <= i <= self.cache@.len(),
                *self == *old(self),
                w0 == old(self).window(),
                old(self).wf(),
                payload_total(w0) <= i64::MAX,
                dropped as int == payload_total(w0.subrange(keep as int, i as int)),
                dropped as int >= 0,
                dropped as int <= payload_total(w0),
            decreases self.cache@.len() - i,
        {
            proof {
                lemma_payload_total_elem(w0, i as int);
                lemma_payload_total_snoc(w0, keep as int, i as int);
                lemma_payload_total_subrange(w0, keep as int, i as int + 1);
            }
            let p: u64 = self.cache[i].payload_size();
            dropped = dropped + p;
            i = i + 1;
        }
        proof {
            assert(w0.subrange(keep as int, w0.len() as int) =~= w0.skip(keep as int));
            lemma_payload_total_split(w0, keep as int);
        }
        self.cache.truncate(keep);
        proof {
            assert(views_of(self.cache@) =~= w0.take(keep as int));
        }
        // Install the new tail, summing the payloads added.
        proof {
            assert(es.take(0) =~= Seq::<EntryView>::empty());
        }
        let mut added: u64 = 0;
        let mut j: usize = 0;
        while j < entries.len()
            invariant
                0 <= j <= entries@.len(),
                es == views_of(entries@),
                payload_total(es) <= i64::MAX,
                keep as int <= w0.len(),
                self.cache@.len() == keep + j,
                views_of(self.cache@) == w0.take(keep_len(w0, es[0].index)) + es.take(j as int),
                self.trace@ == old(self).trace@,
                self.persisted == old(self).persisted,
                self.hit == old(self).hit,
                self.miss == old(self).miss,
                self.gauge == old(self).gauge,
                self.events@ == old(self).events@,
                keep as int == keep_len(w0, es[0].index),
                added as int == payload_total(es.take(j as int)),
                added <= i64::MAX,
            decreases entries@.len() - j,
        {
            proof {
                lemma_payload_total_elem(es, j as int);
                lemma_payload_total_snoc(es, 0, j as int);
                lemma_payload_total_subrange(es, 0, j as int + 1);
                assert(es.take(j as int) =~= es.subrange(0, j as int));
                assert(es.take(j as int + 1) =~= es.subrange(0, j as int + 1));
            }
            let p: u64 = entries[j].payload_size();
            added = added + p;
            let e = entries[j].clone();
            proof {
                assert(e@ == es[j as int]);
            }
            let ghost prev = self.cache@;
            self.cache.push(e);
            proof {
                assert(self.cache@.len() == keep + j + 1);
                assert(w0.take(keep as int).len() == keep as int);
                assert(es.take(j as int + 1).len() == j + 1);
                assert forall|t: int|
                    0 <= t < self.cache@.len() implies (#[trigger] views_of(self.cache@)[t]) == (
                w0.take(keep_len(w0, es[0].index)) + es.take(j as int + 1))[t] by {
                    assert(views_of(self.cache@)[t] == self.cache@[t]@);
                    if t < prev.len() {
                        assert(self.cache@[t] == prev[t]);
                        assert(views_of(prev)[t] == prev[t]@);
                    }
                }
                assert(views_of(self.cache@) =~= w0.take(keep_len(w0, es[0].index)) + es.take(
                    j as int + 1,
                ));
            }
            j = j + 1;
        }
        proof {
            assert(es.take(es.len() as int) =~= es);
        }
        let delta: i64 = added as i64 - dropped as i64;
        proof {
            lemma_payload_total_concat(w0.take(keep as int), es);
            lemma_payload_total_subrange(w0, 0, keep as int);
            assert(w0.take(keep as int) =~= w0.subrange(0, keep as int));
        }
        self.publish(delta);
        proof {
            let nw = self.window();
            assert(nw == window_after_append(w0, es));
            lemma_window_after_append_run(w0, es);
            if self.batches().len() > 0 {
                lemma_batch_ends_below(self.batches(), es[0].index);
                assert(nw.last() == es.last());
                assert(es.last().index + 1 > es[0].index);
            }
        }
    }

    /// Drop entries below `idx` — clamped so nothing unpersisted goes — and
    /// drain traced batches the compaction passes, extending it over every
    /// run the apply side has already consumed. Returns the bytes freed.
    #[verifier::rlimit(50)]
    pub fn compact_to(&mut self, idx: u64) -> (freed: u64)
        requires
            old(self).wf(),
        ensures
            final(self).wf(),
            ({
                let c = clamped(idx, old(self).persisted_mark());
                let k = drain_count(old(self).batches(), c);
                let f = drain_idx(old(self).batches(), c);
                let dl = window_drop(old(self).window(), f);
                &&& final(self).batches() == old(self).batches().skip(k)
                &&& final(self).window() == old(self).window().skip(dl)
                &&& freed as int == dangle_sum(old(self).batches().take(k)) + payload_total(
                    old(self).window().take(dl),
                )
                &&& final(self).deltas() == old(self).deltas().push(-(freed as int))
            }),
            final(self).persisted_mark() == old(self).persisted_mark(),
            final(self).hits() == old(self).hits(),
            final(self).misses() == old(self).misses(),
    {
        let ghost bs0 = old(self).batches();
        let ghost w0 = old(self).window();
        proof {
            lemma_payload_total_nonneg(w0);
            lemma_dangle_sum_nonneg(bs0);
            assert(bs0.take(0) =~= Seq::<BatchView>::empty());
        }
        let mut cur: u64 = idx;
        if self.persisted < u64::MAX && cur > self.persisted + 1 {
            cur = self.persisted + 1;
        }
        let ghost c0 = cur;
        let mut freed: u64 = 0;
        let ghost mut removed: int = 0;
        while self.trace.len() > 0 && self.trace[0].start < cur
            invariant
                old(self).wf(),
                bs0 == old(self).batches(),
                w0 == old(self).window(),
                self.cache@ == old(self).cache@,
                self.persisted == old(self).persisted,
                self.hit == old(self).hit,
                self.miss == old(self).miss,
                self.gauge == old(self).gauge,
                self.events@ == old(self).events@,
                0 <= removed <= bs0.len(),
                self.batches() == bs0.skip(removed),
                drain_count(bs0, c0) == removed + drain_count(self.batches(), cur),
                drain_idx(bs0, c0) == drain_idx(self.batches(), cur),
                freed as int == dangle_sum(bs0.take(removed)),
                dangle_sum(bs0) + payload_total(w0) <= i64::MAX,
                payload_total(w0) >= 0,
                freed as int >= 0,
                freed as int <= dangle_sum(bs0),
            decreases self.trace@.len(),
        {
            let ghost cur_bs = self.batches();
            let ghost tr0 = self.trace@;
            proof {
                assert(cur_bs[0] == self.trace@[0]@);
                lemma_dangle_sum_snoc(bs0, removed);
                lemma_dangle_sum_prefix(bs0, removed + 1);
                assert(bs0[removed] == cur_bs[0]);
            }
            let b = self.trace.remove(0);
            let d: u64 = b.dangle_size;
            proof {
                assert(b@ == cur_bs[0]);
                assert(d == bs0[removed].dangle);
            }
            freed = freed + d;
            if b.end > cur {
                cur = b.end;
            }
            proof {
                removed = removed + 1;
                assert(self.trace@ =~= tr0.drop_first());
                assert forall|t: int|
                    0 <= t < self.batches().len() implies (#[trigger] self.batches()[t])
                    == bs0.skip(removed)[t] by {
                    assert(self.batches()[t] == self.trace@[t]@);
                    assert(self.trace@[t] == tr0[t + 1]);
                    assert(cur_bs[t + 1] == tr0[t + 1]@);
                    assert(cur_bs[t + 1] == bs0.skip(removed - 1)[t + 1]);
                }
                assert(self.batches() =~= bs0.skip(removed));
                assert(cur_bs.drop_first() =~= self.batches());
            }
        }
        proof {
            assert(drain_count(self.batches(), cur) == 0);
            assert(removed == drain_count(bs0, c0));
            assert(cur == drain_idx(bs0, c0));
        }
        // Drop the window's prefix below the (possibly extended) index.
        let dl: usize = if self.cache.len() == 0 {
            0
        } else {
            let lo: u64 = self.cache[0].index;
            if cur <= lo {
                0
            } else {
                let high: u64 = self.cache[self.cache.len() - 1].index;
                if cur > high {
                    self.cache.len()
                } else {
                    (cur - lo) as usize
                }
            }
        };
        proof {
            if w0.len() > 0 {
                assert(w0[0] == self.cache@[0]@);
                assert(w0[w0.len() - 1] == self.cache@[self.cache@.len() - 1]@);
                assert(w0.last().index == w0[0].index + (w0.len() - 1));
            }
            assert(dl as int == window_drop(w0, cur));
        }
        proof {
            lemma_dangle_sum_prefix(bs0, removed);
            assert(w0.subrange(0, 0) =~= Seq::<EntryView>::empty());
        }
        let mut wsum: u64 = 0;
        let mut i: usize = 0;
        while i < dl
            invariant
                0 <= i <= dl,
                dl <= self.cache@.len(),
                old(self).wf(),
                w0 == old(self).window(),
                self.cache@ == old(self).cache@,
                payload_total(w0) <= i64::MAX,
                payload_total(w0) >= 0,
                freed as int >= 0,
                freed as int + payload_total(w0) <= i64::MAX,
                wsum as int == payload_total(w0.subrange(0, i as int)),
                wsum as int <= payload_total(w0),
            decreases dl - i,
        {
            proof {
                lemma_payload_total_elem(w0, i as int);
                lemma_payload_total_snoc(w0, 0, i as int);
                lemma_payload_total_subrange(w0, 0, i as int + 1);
            }
            let p: u64 = self.cache[i].payload_size();
            wsum = wsum + p;
            i = i + 1;
        }
        proof {
            lemma_payload_total_subrange(w0, 0, dl as int);
            assert(w0.subrange(0, dl as int) =~= w0.take(dl as int));
        }
        freed = freed + wsum;
        proof {
            lemma_dangle_sum_split(bs0, removed);
            lemma_dangle_sum_nonneg(bs0.skip(removed));
            lemma_payload_total_split(w0, dl as int);
            lemma_payload_total_nonneg(w0.skip(dl as int));
        }
        let keep_tail = self.cache.split_off(dl);
        self.cache = keep_tail;
        proof {
            assert(views_of(self.cache@) =~= w0.skip(dl as int));
        }
        self.publish(-(freed as i64));
        proof {
            lemma_payload_total_split(w0, dl as int);
            lemma_dangle_sum_split(bs0, removed);
            let nw = self.window();
            let nb = self.batches();
            assert forall|t: int| 0 <= t < nw.len() implies #[trigger] nw[t].index == nw[0].index
                + t by {
                assert(nw[t] == w0[dl + t]);
                assert(nw[0] == w0[dl as int]);
            }
            assert forall|t: int| 0 <= t < nb.len() implies (#[trigger] nb[t]).start
                < nb[t].end by {
                assert(nb[t] == bs0[removed + t]);
            }
            assert forall|t: int| 0 <= t < nb.len() - 1 implies (#[trigger] nb[t]).end <= nb[t
                + 1].start by {
                assert(nb[t] == bs0[removed + t]);
                assert(nb[t + 1] == bs0[removed + t + 1]);
            }
            if nw.len() > 0 {
                assert(nw.last() == w0.last());
                assert forall|t: int| 0 <= t < nb.len() implies (#[trigger] nb[t]).end
                    <= self.cache_high() + 1 by {
                    assert(nb[t] == bs0[removed + t]);
                }
            }
        }
        freed
    }

    /// Record a committed batch: store in it the payload bytes of its
    /// entries already gone from the window (they dangle from the batch),
    /// push it on the trace queue, and publish those bytes. Batches arrive
    /// in increasing, disjoint ranges and never cover uncommitted entries
    /// past the window's end.
    pub fn trace_cached_entries(&mut self, entries: CachedEntries)
        requires
            old(self).wf(),
            entries@.entries.len() > 0,
            run_from(entries@.entries, entries@.start),
            entries@.end == entries@.start + entries@.entries.len(),
            old(self).batches().len() > 0 ==> old(self).batches().last().end <= entries@.start,
            old(self).window().len() > 0 ==> entries@.end <= old(self).cache_high() + 1,
            old(self).current_bytes() + payload_total(entries@.entries) <= i64::MAX,
        ensures
            final(self).wf(),
            final(self).window() == old(self).window(),
            final(self).persisted_mark() == old(self).persisted_mark(),
            final(self).hits() == old(self).hits(),
            final(self).misses() == old(self).misses(),
            ({
                let d = payload_total(
                    entries@.entries.take(
                        dangle_count(entries@.start, entries@.entries.len() as int, old(self).window()),
                    ),
                );
                &&& final(self).batches() == old(self).batches().push(
                    BatchView {
                        start: entries@.start,
                        end: entries@.end,
                        entries: entries@.entries,
                        dangle: d as u64,
                    },
                )
                &&& final(self).deltas() == old(self).deltas().push(d)
            }),
    {
        let ghost bv = entries@;
        let ghost w0 = old(self).window();
        let mut b = entries;
        proof {
            lemma_payload_total_nonneg(w0);
            lemma_dangle_sum_nonneg(old(self).batches());
            lemma_payload_total_nonneg(bv.entries);
        }
        let n: usize = b.entries.len();
        proof {
            assert(bv.entries.len() == b.entries@.len());
        }
        let cnt: usize = if self.cache.len() == 0 {
            n
        } else {
            let lo: u64 = self.cache[0].index;
            if lo <= b.start {
                0
            } else if lo >= b.end {
                n
            } else {
                (lo - b.start) as usize
            }
        };
        proof {
            if w0.len() > 0 {
                assert(w0[0] == self.cache@[0]@);
            }
            assert(cnt as int == dangle_count(bv.start, bv.entries.len() as int, w0));
            assert(bv.entries.take(0) =~= Seq::<EntryView>::empty());
        }
        let mut d: u64 = 0;
        let mut i: usize = 0;
        while i < cnt
            invariant
                0 <= i <= cnt,
                cnt <= b.entries@.len(),
                bv.entries == views_of(b.entries@),
                payload_total(bv.entries) <= i64::MAX,
                d as int == payload_total(bv.entries.take(i as int)),
                d as int <= payload_total(bv.entries),
                d as int >= 0,
            decreases cnt - i,
        {
            proof {
                lemma_payload_total_elem(bv.entries, i as int);
                lemma_payload_total_snoc(bv.entries, 0, i as int);
                lemma_payload_total_subrange(bv.entries, 0, i as int + 1);
                assert(bv.entries.take(i as int) =~= bv.entries.subrange(0, i as int));
                assert(bv.entries.take(i as int + 1) =~= bv.entries.subrange(0, i as int + 1));
                assert(bv.entries[i as int] == b.entries@[i as int]@);
            }
            let p: u64 = b.entries[i].payload_size();
            d = d + p;
            i = i + 1;
        }
        b.dangle_size = d;
        let ghost nb = b@;
        self.trace.push(b);
        proof {
            assert(self.batches() =~= old(self).batches().push(nb));
            lemma_payload_total_subrange(bv.entries, 0, cnt as int);
            assert(bv.entries.take(cnt as int) =~= bv.entries.subrange(0, cnt as int));
        }
        self.publish(d as i64);
        proof {
            let bs = self.batches();
            assert(bs.last() == nb);
            assert forall|t: int| 0 <= t < bs.len() implies (#[trigger] bs[t]).start
                < bs[t].end by {
                if t < bs.len() - 1 {
                    assert(bs[t] == old(self).batches()[t]);
                }
            }
            assert forall|t: int| 0 <= t < bs.len() - 1 implies (#[trigger] bs[t]).end <= bs[t
                + 1].start by {
                if t < bs.len() - 2 {
                    assert(bs[t] == old(self).batches()[t]);
                    assert(bs[t + 1] == old(self).batches()[t + 1]);
                } else {
                    assert(bs[t] == old(self).batches().last());
                }
            }
            assert(dangle_sum(bs) == dangle_sum(old(self).batches()) + nb.dangle) by {
                assert(bs.drop_last() =~= old(self).batches());
            }
        }
    }

    /// Extend `ents` with the window's entries of `[begin, end)` under the
    /// byte budget: counting from `fetched_size` bytes already spent, the
    /// first bytes always go out, later entries only while the running
    /// serialized total stays within `max_size`.
    pub fn fetch_entries_to(
        &self,
        begin: u64,
        end: u64,
        fetched_size: u64,
        max_size: u64,
        ents: &mut Vec<Entry>,
    )
        requires
            self.wf(),
            begin < end ==> {
                &&& self.window().len() > 0
                &&& begin >= self.cache_low()
                &&& end <= self.cache_high() + 1
            },
        ensures
            begin >= end ==> final(ents)@ == old(ents)@,
            begin < end ==> ({
                let lo = self.cache_low();
                let sub = self.window().subrange(begin - lo, end - lo);
                let r = sub.take(cap_take(sub, fetched_size as int, max_size as int));
                &&& views_of(final(ents)@) == views_of(old(ents)@) + r
                &&& final(ents)@.len() == old(ents)@.len() + r.len()
                &&& final(ents)@.take(old(ents)@.len() as int) == old(ents)@
            }),
    {
        if begin >= end {
            return ;
        }
        let lo: u64 = self.cache[0].index;
        let wl: usize = self.cache.len();
        proof {
            assert(self.window().len() == self.cache@.len());
            assert(self.window()[0] == self.cache@[0]@);
            assert(self.window()[self.window().len() - 1] == self.cache@[self.cache@.len()
                - 1]@);
            assert(self.cache_high() == self.cache_low() + (self.window().len() - 1));
            assert(end - lo <= wl);
        }
        let start: usize = (begin - lo) as usize;
        let limit: usize = (end - lo) as usize;
        proof {
            assert forall|t: int| start <= t < limit implies (#[trigger] self.cache@[t]@
                .serialized_size()) <= u64::MAX by {
                lemma_payload_total_elem(self.window(), t);
                lemma_dangle_sum_nonneg(self.batches());
                assert(self.window()[t] == self.cache@[t]@);
            }
        }
        let k: usize = crate::entry::cap_count(&self.cache, start, limit, fetched_size, max_size);
        let ghost sub = self.window().subrange(start as int, limit as int);
        proof {
            assert(views_of(self.cache@).subrange(start as int, limit as int) =~= sub);
        }
        let ghost old_ents = ents@;
        let mut i: usize = start;
        while i < start + k
            invariant
                start <= i <= start + k,
                start + k <= limit <= self.cache@.len(),
                ents@.len() == old_ents.len() + (i - start),
                ents@.take(old_ents.len() as int) == old_ents,
                forall|j: int|
                    0 <= j < i - start ==> (#[trigger] ents@[old_ents.len() + j])@
                        == views_of(self.cache@)[start + j],
            decreases start + k - i,
        {
            let e = self.cache[i].clone();
            ents.push(e);
            proof {
                assert(ents@.take(old_ents.len() as int) =~= old_ents);
            }
            i = i + 1;
        }
        proof {
            let r = sub.take(k as int);
            crate::entry::lemma_cap_take_bounds(sub, fetched_size as int, max_size as int);
            assert forall|j: int| 0 <= j < views_of(ents@).len() implies (#[trigger] views_of(
                ents@,
            )[j]) == (views_of(old_ents) + r)[j] by {
                assert(views_of(ents@)[j] == ents@[j]@);
                if j < old_ents.len() {
                    assert(ents@[j] == old_ents[j]);
                    assert(views_of(old_ents)[j] == old_ents[j]@);
                } else {
                    let jj = j - old_ents.len();
                    assert((ents@[old_ents.len() + jj])@ == views_of(self.cache@)[start + jj]);
                }
            }
            assert(views_of(ents@) =~= views_of(old_ents) + r);
        }
    }

    /// Drop roughly half the window, or all but its last entry, under
    /// memory pressure; compaction rules (persisted clamp, trace draining)
    /// apply. Returns the bytes freed.
    pub fn evict(&mut self, half: bool) -> (freed: u64)
        requires
            old(self).wf(),
        ensures
            final(self).wf(),
            final(self).hits() == old(self).hits(),
            final(self).misses() == old(self).misses(),
            old(self).window().len() == 0 ==> *final(self) == *old(self) && freed == 0,
            old(self).window().len() > 0 ==> ({
                let target = if half {
                    (old(self).window()[old(self).window().len() as int / 2].index + 1) as u64
                } else {
                    old(self).cache_high()
                };
                let c = clamped(target, old(self).persisted_mark());
                let k = drain_count(old(self).batches(), c);
                let f = drain_idx(old(self).batches(), c);
                let dl = window_drop(old(self).window(), f);
                &&& final(self).batches() == old(self).batches().skip(k)
                &&& final(self).window() == old(self).window().skip(dl)
                &&& freed as int == dangle_sum(old(self).batches().take(k)) + payload_total(
                    old(self).window().take(dl),
                )
                &&& final(self).deltas() == old(self).deltas().push(-(freed as int))
                &&& final(self).persisted_mark() == old(self).persisted_mark()
            }),
    {
        if self.cache.len() == 0 {
            return 0;
        }
        if half {
            let drain_to: usize = self.cache.len() / 2;
            proof {
                assert(self.window()[drain_to as int] == self.cache@[drain_to as int]@);
                assert(self.window()[drain_to as int].index == self.cache_low() + drain_to);
                assert(self.window()[0] == self.cache@[0]@);
            }
            let idx: u64 = self.cache[drain_to].index;
            self.compact_to(idx + 1)
        } else {
            proof {
                assert(self.window()[self.window().len() - 1] == self.cache@[self.cache@.len()
                    - 1]@);
            }
            let high: u64 = self.cache[self.cache.len() - 1].index;
            self.compact_to(high)
        }
    }

    /// Publish the negation of everything retained, then return to the
    /// fresh state with its zero baseline: over the cache's whole life the
    /// published deltas sum to zero.
    pub fn reset(&mut self)
        requires
            old(self).wf(),
        ensures
            final(self).wf(),
            final(self).window().len() == 0,
            final(self).batches().len() == 0,
            final(self).persisted_mark() == 0,
            final(self).hits() == 0,
            final(self).misses() == 0,
            final(self).deltas() == old(self).deltas().push(
                -old(self).current_bytes(),
            ).push(0),
            int_sum(final(self).deltas()) == 0,
            final(self).gauge_value() == 0,
    {
        proof {
            lemma_payload_total_nonneg(old(self).window());
            lemma_dangle_sum_nonneg(old(self).batches());
        }
        let total: i64 = self.gauge;
        self.publish(-total);
        self.cache = Vec::new();
        self.trace = Vec::new();
        self.persisted = 0;
        self.hit = 0;
        self.miss = 0;
        self.publish(0i64);
        proof {
            assert(self.window() =~= Seq::<EntryView>::empty());
            assert(self.batches() =~= Seq::<BatchView>::empty());
        }
    }

    /// Publish one signed byte delta: push it on the event stream and move
    /// the gauge by it.
    fn publish(&mut self, delta: i64)
        requires
            i64::MIN <= old(self).gauge_value() + delta <= i64::MAX,
        ensures
            final(self).gauge_value() == old(self).gauge_value() + delta,
            final(self).deltas() == old(self).deltas().push(delta as int),
            int_sum(final(self).deltas()) == int_sum(old(self).deltas()) + delta,
            final(self).window() == old(self).window(),
            final(self).batches() == old(self).batches(),
            final(self).persisted_mark() == old(self).persisted_mark(),
            final(self).hits() == old(self).hits(),
            final(self).misses() == old(self).misses(),
    {
        self.gauge = self.gauge + delta;
        self.events.push(delta);
        proof {
            assert(self.deltas() =~= old(self).deltas().push(delta as int));
            lemma_int_sum_push(old(self).deltas(), delta as int);
        }
    }
}

impl Default for EntryCache {
    /// Same as [`EntryCache::new`]: empty, with the zero baseline published.
    fn default() -> (c: EntryCache)
        ensures
            c.wf(),
            c.window().len() == 0,
            c.batches().len() == 0,
            c.persisted_mark() == 0,
            c.hits() == 0,
            c.misses() == 0,
            c.deltas() == seq![0int],
            c.gauge_value() == 0,
    {
        EntryCache::new()
    }
}

/// Contiguity: a well-formed cache is empty, or covers exactly
/// `[cache_low, cache_high]` without gaps.
pub proof fn lemma_cache_contiguity(c: &EntryCache)
    requires
        c.wf(),
    ensures
        c.window().len() == 0 || {
            &&& c.cache_high() == c.cache_low() + c.window().len() - 1
            &&& forall|i: int|
                0 <= i < c.window().len() ==> (#[trigger] c.window()[i]).index == c.cache_low()
                    + i
        },
{
    if c.window().len() > 0 {
        assert(c.window()[c.window().len() - 1].index == c.cache_low() + (c.window().len()
            - 1));
    }
}

/// Memory conservation: the published deltas always sum to exactly the
/// bytes the cache retains — window payloads plus dangling batch bytes.
pub proof fn lemma_memory_conservation(c: &EntryCache)
    requires
        c.wf(),
    ensures
        int_sum(c.deltas()) == c.current_bytes(),
{
}

/// Trace ordering: traced batches carry strictly increasing start indexes,
/// and none reaches past one beyond the window's end.
pub proof fn lemma_trace_ordering(c: &EntryCache)
    requires
        c.wf(),
    ensures
        forall|i: int, j: int|
            0 <= i < j < c.batches().len() ==> (#[trigger] c.batches()[i]).start < (
            #[trigger] c.batches()[j]).start,
        c.window().len() > 0 ==> forall|i: int|
            0 <= i < c.batches().len() ==> (#[trigger] c.batches()[i]).end <= c.cache_high() + 1,
{
    assert forall|i: int, j: int|
        0 <= i < j < c.batches().len() implies (#[trigger] c.batches()[i]).start < (
    #[trigger] c.batches()[j]).start by {
        lemma_batch_starts_increase(c.batches(), i, j);
    }
}

/// Draining never carries the compaction index past a bound that every
/// batch end respects.
proof fn lemma_drain_idx_bound(bs: Seq<BatchView>, idx: u64, bound: int)
    requires
        idx <= bound,
        forall|i: int| 0 <= i < bs.len() ==> (#[trigger] bs[i]).end <= bound,
    ensures
        drain_idx(bs, idx) <= bound,
    decreases bs.len(),
{
    if bs.len() > 0 && bs[0].start < idx {
        let d = bs.drop_first();
        assert forall|i: int| 0 <= i < d.len() implies (#[trigger] d[i]).end <= bound by {
            assert(d[i] == bs[i + 1]);
        }
        lemma_drain_idx_bound(d, umax(idx, bs[0].end), bound);
    }
}

/// Persisted safety: a compaction to any index keeps every window entry
/// above the persisted mark, as long as each traced batch also ends at or
/// below one past that mark.
pub proof fn lemma_persisted_safety(c: &EntryCache, idx: u64)
    requires
        c.wf(),
        forall|i: int|
            0 <= i < c.batches().len() ==> (#[trigger] c.batches()[i]).end
                <= c.persisted_mark() + 1,
    ensures
        ({
            let f = drain_idx(c.batches(), clamped(idx, c.persisted_mark()));
            let dl = window_drop(c.window(), f);
            forall|j: int|
                0 <= j < c.window().len() && (#[trigger] c.window()[j]).index
                    > c.persisted_mark() ==> c.window().skip(dl).contains(c.window()[j])
        }),
{
    let w = c.window();
    let p = c.persisted_mark();
    let c0 = clamped(idx, p);
    let f = drain_idx(c.batches(), c0);
    let dl = window_drop(w, f);
    lemma_drain_idx_bound(c.batches(), c0, p + 1);
    assert forall|j: int|
        0 <= j < w.len() && (#[trigger] w[j]).index > p implies w.skip(dl).contains(w[j]) by {
        assert(w[j].index == w[0].index + j);
        if w.len() > 0 {
            assert(w[w.len() - 1].index == w[0].index + (w.len() - 1));
        }
        assert(j >= dl);
        assert(w.skip(dl)[j - dl] == w[j]);
    }
}

/// An append never truncates a traced (committed) entry: when every traced
/// batch ends at or before the append point, the window entries a
/// truncating append drops all lie at or past every batch's end.
pub proof fn lemma_append_preserves_traced(c: &EntryCache, first: u64)
    requires
        c.wf(),
        c.batches().len() > 0 ==> c.batches().last().end <= first,
    ensures
        forall|i: int, j: int|
            0 <= i < c.batches().len() && keep_len(c.window(), first) <= j < c.window().len()
                ==> (#[trigger] c.batches()[i]).end <= (#[trigger] c.window()[j]).index,
{
    if c.batches().len() > 0 {
        lemma_batch_ends_below(c.batches(), first);
    }
    let w = c.window();
    let k = keep_len(w, first);
    assert forall|i: int, j: int|
        0 <= i < c.batches().len() && k <= j < w.len() implies (#[trigger] c.batches()[i]).end
        <= (#[trigger] w[j]).index by {
        assert(w[j].index == w[0].index + j);
        assert(w[w.len() - 1].index == w[0].index + (w.len() - 1));
    }
}

/// Round trip: after appending a run, reading back its whole range under a
/// budget that covers it returns exactly the appended entries.
pub proof fn lemma_append_round_trip(w: Seq<EntryView>, es: Seq<EntryView>, max: int)
    requires
        is_run(w),
        run_bounded(w),
        es.len() > 0,
        is_run(es),
        run_bounded(es),
        w.len() > 0 ==> es[0].index <= w.last().index + 1,
        size_total(es) <= max,
    ensures
        ({
            let nw = window_after_append(w, es);
            let k = keep_len(w, es[0].index);
            let sub = nw.subrange(k, k + es.len());
            &&& es[0].index == nw[0].index + k
            &&& sub.take(cap_take(sub, 0, max)) == es
        }),
{
    lemma_window_after_append_run(w, es);
    let nw = window_after_append(w, es);
    let k = keep_len(w, es[0].index);
    if k > 0 {
        assert(w.last().index == w[0].index + (w.len() - 1));
        assert(nw[0] == w[0]);
    }
    assert(es[0].index == nw[0].index + k);
    let sub = nw.subrange(k, k + es.len());
    assert(sub =~= es);
    crate::entry::lemma_size_total_nonneg(es);
    lemma_cap_take_full(es, 0, max);
    assert(sub.take(cap_take(sub, 0, max)) =~= es);
}

} // verus!
