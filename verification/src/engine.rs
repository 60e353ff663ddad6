//! The durable log engine the storage reads from, and a verified in-memory
//! engine that implements the same interface.

use vstd::prelude::*;

verus! {

use crate::entry::{
    cap_count, cap_take, is_run, lemma_cap_take_bounds, lemma_cap_take_stop,
    lemma_payload_total_elem, lemma_size_total_elem, lemma_size_total_first,
    lemma_size_total_nonneg, lemma_size_total_split, run_bounded, size_total, views_of, Entry,
    EntryView,
};
use crate::errors::StorageError;

/// The log a contiguous run represents, keyed by entry index.
pub open spec fn log_of_run(s: Seq<EntryView>) -> Map<u64, EntryView> {
    Map::new(
        |k: u64| s.len() > 0 && s[0].index <= k < s[0].index + s.len(),
        |k: u64| s[k - s[0].index],
    )
}

/// A durable log engine: the two reads the entry storage needs. `log()` is
/// the engine's current content as a map from index to entry.
pub trait RaftEngine: Sized {
    /// The entries the engine holds, keyed by index.
    spec fn log(&self) -> Map<u64, EntryView>;

    /// Read one entry by index: the entry at `idx`, or `None` when the
    /// engine does not hold it.
    fn get_entry(&self, region_id: u64, idx: u64) -> (r: Result<Option<Entry>, StorageError>)
        ensures
            match r {
                Ok(Some(e)) => self.log().contains_key(idx) && e@ == self.log()[idx]
                    && e@.index == idx && e@.serialized_size() <= i64::MAX,
                Ok(None) => !self.log().contains_key(idx),
                Err(_) => true,
            },
    ;

    /// Append the entries of `[low, high)` to `buf`, stopping early only
    /// when the serialized bytes would pass `max_size` (the first entry is
    /// always delivered). Returns how many entries were appended.
    fn fetch_entries_to(
        &self,
        region_id: u64,
        low: u64,
        high: u64,
        max_size: u64,
        buf: &mut Vec<Entry>,
    ) -> (r: Result<usize, StorageError>)
        requires
            low <= high,
        ensures
            match r {
                Ok(n) => {
                    &&& n <= high - low
                    &&& final(buf)@.len() == old(buf)@.len() + n
                    &&& final(buf)@.take(old(buf)@.len() as int) == old(buf)@
                    &&& forall|i: int|
                        0 <= i < n ==> {
                            let key = (low + i) as u64;
                            &&& self.log().contains_key(key)
                            &&& (#[trigger] final(buf)@[old(buf)@.len() + i])@ == self.log()[key]
                            &&& final(buf)@[old(buf)@.len() + i]@.index == low + i
                        }
                    &&& size_total(views_of(final(buf)@.skip(old(buf)@.len() as int))) <= i64::MAX
                    &&& (n < high - low ==> {
                        &&& n >= 1
                        &&& self.log().contains_key((low + n) as u64)
                        &&& size_total(views_of(final(buf)@.skip(old(buf)@.len() as int)))
                            + self.log()[(low + n) as u64].serialized_size() > max_size
                    })
                },
                Err(_) => final(buf)@ == old(buf)@,
            },
    ;
}

/// A verified in-memory engine holding one contiguous run of entries.
#[derive(Debug)]
pub struct MemEngine {
    entries: Vec<Entry>,
}

impl MemEngine {
    /// The run the engine holds.
    pub closed spec fn run(&self) -> Seq<EntryView> {
        views_of(self.entries@)
    }

    #[verifier::type_invariant]
    spec fn inv(&self) -> bool {
        &&& is_run(self.run())
        &&& run_bounded(self.run())
        &&& size_total(self.run()) <= i64::MAX
    }

    /// Build an engine holding the given run.
    pub fn from_entries(entries: Vec<Entry>) -> (r: MemEngine)
        requires
            is_run(views_of(entries@)),
            run_bounded(views_of(entries@)),
            size_total(views_of(entries@)) <= i64::MAX,
        ensures
            r.log() == log_of_run(views_of(entries@)),
    {
        let r = MemEngine { entries };
        proof {
            lemma_size_total_nonneg(r.run());
        }
        r
    }

    /// An engine holding nothing.
    pub fn empty() -> (r: MemEngine)
        ensures
            r.log() == Map::<u64, EntryView>::empty(),
    {
        let entries: Vec<Entry> = Vec::new();
        let r = MemEngine { entries };
        proof {
            assert(r.run() =~= Seq::<EntryView>::empty());
            assert(r.log() =~= Map::<u64, EntryView>::empty());
        }
        r
    }
}

impl RaftEngine for MemEngine {
    closed spec fn log(&self) -> Map<u64, EntryView> {
        log_of_run(self.run())
    }

    fn get_entry(&self, region_id: u64, idx: u64) -> (r: Result<Option<Entry>, StorageError>) {
        proof {
            use_type_invariant(&*self);
        }
        if self.entries.len() == 0 {
            return Ok(None);
        }
        let lo: u64 = self.entries[0].index;
        if idx < lo {
            return Ok(None);
        }
        let off: u64 = idx - lo;
        if off >= self.entries.len() as u64 {
            return Ok(None);
        }
        proof {
            lemma_size_total_elem(self.run(), off as int);
            lemma_payload_total_elem(self.run(), off as int);
        }
        let e = self.entries[off as usize].clone();
        Ok(Some(e))
    }

    fn fetch_entries_to(
        &self,
        region_id: u64,
        low: u64,
        high: u64,
        max_size: u64,
        buf: &mut Vec<Entry>,
    ) -> (r: Result<usize, StorageError>) {
        proof {
            use_type_invariant(&*self);
        }
        if low == high {
            return Ok(0);
        }
        if self.entries.len() == 0 {
            return Err(StorageError::Unavailable);
        }
        let lo: u64 = self.entries[0].index;
        let n: u64 = self.entries.len() as u64;
        if low < lo || high > lo + n {
            return Err(StorageError::Unavailable);
        }
        let from: usize = (low - lo) as usize;
        let to: usize = (high - lo) as usize;
        proof {
            assert forall|i: int| from <= i < to implies (#[trigger] self.entries@[i]@
                .serialized_size()) <= u64::MAX by {
                lemma_size_total_elem(self.run(), i);
            }
        }
        let k: usize = cap_count(&self.entries, from, to, 0, max_size);
        let ghost sub = self.run().subrange(from as int, to as int);
        let ghost old_buf = buf@;
        let mut i: usize = from;
        while i < from + k
            invariant
                from <= i <= from + k,
                from + k <= to <= self.entries@.len(),
                buf@.len() == old_buf.len() + (i - from),
                buf@.take(old_buf.len() as int) == old_buf,
                forall|j: int|
                    0 <= j < i - from ==> (#[trigger] buf@[old_buf.len() + j])@
                        == self.run()[from + j],
            decreases from + k - i,
        {
            let e = self.entries[i].clone();
            buf.push(e);
            proof {
                assert(buf@.take(old_buf.len() as int) =~= old_buf);
            }
            i = i + 1;
        }
        proof {
            let appended = views_of(buf@.skip(old_buf.len() as int));
            assert forall|j: int| 0 <= j < appended.len() implies appended[j] == self.run()
                .subrange(from as int, from + k)[j] by {
                assert(buf@[old_buf.len() + j]@ == self.run()[from + j]);
            }
            assert(appended =~= self.run().subrange(from as int, from + k));
            assert(appended =~= sub.take(k as int));
            lemma_cap_take_bounds(sub, 0, max_size as int);
            lemma_size_total_split(self.run(), from as int);
            lemma_size_total_split(self.run().skip(from as int), k as int);
            assert(self.run().skip(from as int).take(k as int) =~= appended);
            lemma_size_total_nonneg(self.run().take(from as int));
            lemma_size_total_nonneg(self.run().skip(from as int).skip(k as int));
            assert(size_total(appended) <= i64::MAX);
            if k < to - from {
                lemma_cap_take_stop(sub, 0, max_size as int);
                lemma_size_total_split(sub.take(k as int + 1), k as int);
                assert(sub.take(k as int + 1).take(k as int) =~= appended);
                assert(sub.take(k as int + 1).skip(k as int) =~= seq![sub[k as int]]);
                lemma_size_total_first(seq![sub[k as int]]);
                assert(seq![sub[k as int]].drop_first() =~= Seq::<EntryView>::empty());
                assert(self.log()[(low + k) as u64] == sub[k as int]);
            }
            assert forall|j: int| 0 <= j < k implies {
                &&& self.log().contains_key((low + j) as u64)
                &&& (#[trigger] buf@[old_buf.len() + j])@ == self.log()[(low + j) as u64]
                &&& buf@[old_buf.len() + j]@.index == low + j
            } by {
                assert(buf@[old_buf.len() + j]@ == self.run()[from + j]);
            }
        }
        Ok(k)
    }
}

} // verus!
