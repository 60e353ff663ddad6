use entry_storage::cache::{CachedEntries, EntryCache};
use entry_storage::entry::Entry;

fn padded_entry(index: u64, term: u64, pad_len: usize) -> Entry {
    let mut e = Entry::new(index, term);
    e.data = vec![b'x'; pad_len];
    e
}

fn last_delta(cache: &EntryCache) -> i64 {
    *cache.mem_events().last().unwrap()
}

#[test]
fn test_storage_cache_size_change() {
    // The accounting measure is payload bytes, so an empty cache publishes a
    // zero baseline.
    let mut cache = EntryCache::new();
    assert_eq!(cache.mem_events().as_slice(), &[0i64]);

    cache.append(&vec![padded_entry(101, 1, 1), padded_entry(102, 1, 2)]);
    assert_eq!(last_delta(&cache), 3);

    // Size change for one overlapped entry.
    cache.append(&vec![padded_entry(102, 2, 3)]);
    assert_eq!(last_delta(&cache), 1);

    // Size change for all overlapped entries.
    cache.append(&vec![padded_entry(101, 3, 4), padded_entry(102, 3, 5)]);
    assert_eq!(last_delta(&cache), 5);

    cache.append(&vec![padded_entry(103, 3, 6)]);
    assert_eq!(last_delta(&cache), 6);

    // Trace a dangling entry.
    let cached = CachedEntries::new(vec![padded_entry(100, 1, 1)]);
    cache.trace_cached_entries(cached);
    assert_eq!(last_delta(&cache), 1);

    // Trace an entry that is still in the window.
    let cached = CachedEntries::new(vec![padded_entry(102, 3, 5)]);
    cache.trace_cached_entries(cached);
    assert_eq!(last_delta(&cache), 0);

    // Rewriting the tail keeps the last traced batch below the new run.
    cache.append(&vec![padded_entry(103, 4, 7)]);
    assert_eq!(last_delta(&cache), 1);

    // Compact one traced dangling entry and one window entry.
    cache.update_persisted(101);
    cache.compact_to(102);
    assert_eq!(last_delta(&cache), -5);

    // Compact the last traced batch.
    cache.update_persisted(102);
    cache.compact_to(103);
    assert_eq!(last_delta(&cache), -5);

    // Compact everything that is left.
    cache.update_persisted(103);
    cache.compact_to(104);
    assert_eq!(last_delta(&cache), -7);

    // Tearing the cache down publishes the negation of what it retained,
    // so the whole stream sums to zero.
    cache.reset();
    let total: i64 = cache.mem_events().iter().sum();
    assert_eq!(total, 0);
    assert_eq!(cache.mem_gauge(), 0);
}

#[test]
fn test_storage_cache_entry() {
    let mut cache = EntryCache::new();
    let ents = vec![
        Entry::new(3, 3),
        Entry::new(4, 4),
        Entry::new(5, 4),
        Entry::new(6, 6),
    ];
    cache.append(&ents);
    assert!(cache.entry(1).is_none());
    assert!(cache.entry(2).is_none());
    for e in &ents {
        assert_eq!(e, cache.entry(e.index).unwrap());
    }
}

#[test]
fn test_append_truncates_uncommitted_tail() {
    let mut cache = EntryCache::new();
    cache.append(&vec![
        Entry::new(3, 3),
        Entry::new(4, 4),
        Entry::new(5, 4),
        Entry::new(6, 6),
    ]);
    cache.append(&vec![Entry::new(5, 5), Entry::new(6, 5)]);
    assert_eq!(cache.first_index(), Some(3));
    assert_eq!(cache.last_index(), Some(6));
    assert_eq!(cache.entry(3).unwrap().term, 3);
    assert_eq!(cache.entry(4).unwrap().term, 4);
    assert_eq!(cache.entry(5).unwrap().term, 5);
    assert_eq!(cache.entry(6).unwrap().term, 5);
}

#[test]
fn test_compact_clamps_to_persisted() {
    let mut cache = EntryCache::new();
    cache.append(&vec![
        Entry::new(5, 6),
        Entry::new(6, 7),
        Entry::new(7, 8),
        Entry::new(8, 7),
        Entry::new(9, 7),
    ]);
    cache.update_persisted(5);
    // Asked for 7, clamped to persisted + 1 = 6.
    cache.compact_to(7);
    assert_eq!(cache.first_index(), Some(6));
    assert_eq!(cache.last_index(), Some(9));
    cache.update_persisted(7);
    cache.compact_to(8);
    assert_eq!(cache.first_index(), Some(8));
    // Asked for 9 with persisted still 7: clamped to 8, nothing to drop.
    cache.compact_to(9);
    assert_eq!(cache.first_index(), Some(8));
    assert_eq!(cache.last_index(), Some(9));
}

#[test]
fn test_compact_drains_traced_batches() {
    // Batches handed to apply extend the compaction over their whole range.
    let mut cache = EntryCache::new();
    cache.append(&vec![
        padded_entry(1, 1, 2),
        padded_entry(2, 1, 2),
        padded_entry(3, 1, 2),
        padded_entry(4, 1, 2),
    ]);
    cache.trace_cached_entries(CachedEntries::new(vec![
        padded_entry(1, 1, 2),
        padded_entry(2, 1, 2),
    ]));
    cache.update_persisted(4);
    // Compacting to 2 passes the traced batch [1, 3), which extends the
    // compaction to 3: entries 1 and 2 go, and the batch's bytes with them.
    let freed = cache.compact_to(2);
    assert_eq!(cache.first_index(), Some(3));
    assert_eq!(freed, 4);
    let total: i64 = cache.mem_events().iter().sum();
    assert_eq!(total, cache.mem_gauge());
}

#[test]
fn test_memory_deltas_always_sum_to_gauge() {
    let mut cache = EntryCache::new();
    cache.append(&vec![padded_entry(10, 1, 5), padded_entry(11, 1, 7)]);
    let sum1: i64 = cache.mem_events().iter().sum();
    assert_eq!(sum1, cache.mem_gauge());
    assert_eq!(sum1, 12);
    cache.update_persisted(11);
    cache.compact_to(11);
    let sum2: i64 = cache.mem_events().iter().sum();
    assert_eq!(sum2, cache.mem_gauge());
    assert_eq!(sum2, 7);
    cache.reset();
    let sum3: i64 = cache.mem_events().iter().sum();
    assert_eq!(sum3, 0);
}

#[test]
fn test_evict_drops_half_or_all_but_one() {
    let mut cache = EntryCache::new();
    cache.append(&vec![
        Entry::new(1, 1),
        Entry::new(2, 1),
        Entry::new(3, 1),
        Entry::new(4, 1),
    ]);
    cache.update_persisted(4);
    cache.evict(true);
    assert_eq!(cache.first_index(), Some(4));
    cache.append(&vec![Entry::new(5, 1), Entry::new(6, 1)]);
    cache.update_persisted(6);
    cache.evict(false);
    assert_eq!(cache.first_index(), Some(6));
    assert_eq!(cache.last_index(), Some(6));
}

#[test]
fn test_cached_entries_take_once() {
    let batch = CachedEntries::new(vec![Entry::new(7, 2), Entry::new(8, 2)]);
    assert_eq!(batch.start, 7);
    assert_eq!(batch.end, 9);
    let mut batch = batch;
    let (ents, dangle) = batch.take_entries();
    assert_eq!(ents.len(), 2);
    assert_eq!(dangle, 0);
    let (again, dangle2) = batch.take_entries();
    assert!(again.is_empty());
    assert_eq!(dangle2, 0);
}

#[test]
fn test_cache_stats_flush() {
    let mut cache = EntryCache::new();
    cache.note_hit();
    cache.note_hit();
    cache.note_miss();
    let (hit, miss) = cache.flush_stats();
    assert_eq!((hit, miss), (2, 1));
    let (hit2, miss2) = cache.flush_stats();
    assert_eq!((hit2, miss2), (0, 0));
}
