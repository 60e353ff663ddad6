use entry_storage::engine::{MemEngine, RaftEngine};
use entry_storage::entry::Entry;
use entry_storage::errors::StorageError;
use entry_storage::fetch::{GetEntriesContext, RaftlogFetchResult, MAX_ASYNC_FETCH_TRY_CNT};
use entry_storage::state::{HardState, RaftApplyState, RaftLocalState, TruncatedState, WriteTask};
use entry_storage::storage::EntryStorage;

fn new_entry(index: u64, term: u64) -> Entry {
    Entry::new(index, term)
}

fn new_storage_from_ents(ents: &[Entry]) -> EntryStorage<MemEngine> {
    let first = ents[0].index;
    let first_term = ents[0].term;
    let last = ents[ents.len() - 1].index;
    let last_term = ents[ents.len() - 1].term;
    let engine = MemEngine::from_entries(ents.to_vec());
    let raft_state = RaftLocalState {
        hard_state: HardState { term: last_term, vote: 0, commit: last },
        last_index: last,
    };
    let apply_state = RaftApplyState {
        applied_index: last,
        truncated_state: TruncatedState { index: first, term: first_term },
    };
    let mut store = EntryStorage::new(1, 1, engine, raft_state, apply_state, last_term, last_term);
    let mut task = WriteTask::new();
    store.append(ents[1..].to_vec(), &mut task);
    store
}

fn append_ents(store: &mut EntryStorage<MemEngine>, ents: &[Entry]) {
    let mut task = WriteTask::new();
    store.append(ents.to_vec(), &mut task);
}

fn validate_cache(store: &mut EntryStorage<MemEngine>, exp_ents: &[Entry]) {
    let low = exp_ents[0].index;
    let high = exp_ents[exp_ents.len() - 1].index + 1;
    let got = store
        .entries(low, high, u64::MAX, GetEntriesContext::empty(false))
        .unwrap();
    assert_eq!(got.as_slice(), exp_ents);
}

#[test]
fn test_storage_append() {
    let ents = vec![new_entry(3, 3), new_entry(4, 4), new_entry(5, 5)];
    let mut tests = vec![
        (
            vec![new_entry(4, 6), new_entry(5, 6)],
            vec![new_entry(4, 6), new_entry(5, 6)],
        ),
        (
            vec![new_entry(4, 4), new_entry(5, 5), new_entry(6, 5)],
            vec![new_entry(4, 4), new_entry(5, 5), new_entry(6, 5)],
        ),
        // truncate the existing entries and append
        (vec![new_entry(4, 5)], vec![new_entry(4, 5)]),
        // direct append
        (
            vec![new_entry(6, 5)],
            vec![new_entry(4, 4), new_entry(5, 5), new_entry(6, 5)],
        ),
    ];
    for (i, (entries, wentries)) in tests.drain(..).enumerate() {
        let mut store = new_storage_from_ents(&ents);
        append_ents(&mut store, &entries);
        let li = store.last_index();
        let actual_entries = store
            .entries(4, li + 1, u64::MAX, GetEntriesContext::empty(false))
            .unwrap();
        if actual_entries != wentries {
            panic!("#{}: want {:?}, got {:?}", i, wentries, actual_entries);
        }
    }
}

#[test]
fn test_storage_cache_fetch() {
    let ents = vec![new_entry(3, 3), new_entry(4, 4), new_entry(5, 5)];
    let mut store = new_storage_from_ents(&ents);
    store.clear();
    // an empty cache fetches from the engine directly
    let mut res = store
        .entries(4, 6, u64::MAX, GetEntriesContext::empty(false))
        .unwrap();
    assert_eq!(res.as_slice(), &ents[1..]);

    let entries = vec![new_entry(6, 5), new_entry(7, 5)];
    append_ents(&mut store, &entries);
    validate_cache(&mut store, &entries);

    // direct cache access
    res = store
        .entries(6, 8, u64::MAX, GetEntriesContext::empty(false))
        .unwrap();
    assert_eq!(res, entries);

    // the size limit is honored across the whole request
    res = store.entries(4, 8, 0, GetEntriesContext::empty(false)).unwrap();
    assert_eq!(res, vec![new_entry(4, 4)]);
    let mut size: u64 = ents[1..].iter().map(|e| e.compute_size()).sum();
    res = store
        .entries(4, 8, size, GetEntriesContext::empty(false))
        .unwrap();
    let mut exp_res = ents[1..].to_vec();
    assert_eq!(res, exp_res);
    for e in &entries {
        size += e.compute_size();
        exp_res.push(e.clone());
        res = store
            .entries(4, 8, size, GetEntriesContext::empty(false))
            .unwrap();
        assert_eq!(res, exp_res);
    }

    // the range limit is honored
    for low in 4..9u64 {
        for high in low..9u64 {
            let res = store
                .entries(low, high, u64::MAX, GetEntriesContext::empty(false))
                .unwrap();
            assert_eq!(res.as_slice(), &exp_res[low as usize - 4..high as usize - 4]);
        }
    }
}

#[test]
fn test_storage_cache_update() {
    let ents = vec![new_entry(3, 3), new_entry(4, 4), new_entry(5, 5)];
    let mut store = new_storage_from_ents(&ents);
    store.clear();

    // initial cache
    let mut entries = vec![new_entry(6, 5), new_entry(7, 5)];
    append_ents(&mut store, &entries);
    validate_cache(&mut store, &entries);

    // rewrite
    entries = vec![new_entry(6, 6), new_entry(7, 6)];
    append_ents(&mut store, &entries);
    validate_cache(&mut store, &entries);

    // rewrite old entry
    entries = vec![new_entry(5, 6), new_entry(6, 6)];
    append_ents(&mut store, &entries);
    validate_cache(&mut store, &entries);

    // partial rewrite
    entries = vec![new_entry(6, 7), new_entry(7, 7)];
    append_ents(&mut store, &entries);
    let mut exp_res = vec![new_entry(5, 6), new_entry(6, 7), new_entry(7, 7)];
    validate_cache(&mut store, &exp_res);

    // direct append
    entries = vec![new_entry(8, 7), new_entry(9, 7)];
    append_ents(&mut store, &entries);
    exp_res.extend_from_slice(&entries);
    validate_cache(&mut store, &exp_res);

    // rewrite middle
    entries = vec![new_entry(7, 8)];
    append_ents(&mut store, &entries);
    exp_res.truncate(2);
    exp_res.push(new_entry(7, 8));
    validate_cache(&mut store, &exp_res);

    // compact to min(5 + 1, 7)
    store.update_cache_persisted(5);
    store.compact_entry_cache(7);
    exp_res = vec![new_entry(6, 7), new_entry(7, 8)];
    validate_cache(&mut store, &exp_res);

    // compact to min(7 + 1, 7)
    store.update_cache_persisted(7);
    store.compact_entry_cache(7);
    exp_res = vec![new_entry(7, 8)];
    validate_cache(&mut store, &exp_res);
    // compact all
    store.compact_entry_cache(8);
    assert!(store.is_entry_cache_empty());
    // a compaction below the window is ignored
    store.compact_entry_cache(6);
    assert!(store.is_entry_cache_empty());
}

#[test]
fn test_async_fetch() {
    let ents = vec![
        new_entry(2, 2),
        new_entry(3, 3),
        new_entry(4, 4),
        new_entry(5, 5),
        new_entry(6, 6),
    ];
    let mut store = new_storage_from_ents(&ents);

    let max_u64 = u64::MAX;
    let mut tests = vec![
        // already compacted
        (
            3u64,
            7u64,
            max_u64,
            1u64,
            RaftlogFetchResult {
                ents: Err(StorageError::Compacted),
                low: 3,
                max_size: max_u64,
                hit_size_limit: false,
                tried_cnt: 1,
                term: 1,
            },
            Err(StorageError::Compacted),
            vec![],
        ),
        // fetch partial entries due to max size limit
        (
            3,
            7,
            30,
            1,
            RaftlogFetchResult {
                ents: Ok(ents[1..4].to_vec()),
                low: 3,
                max_size: 30,
                hit_size_limit: true,
                tried_cnt: 1,
                term: 1,
            },
            Ok(3),
            ents[1..4].to_vec(),
        ),
        // fetch all entries
        (
            2,
            7,
            max_u64,
            1,
            RaftlogFetchResult {
                ents: Ok(ents.clone()),
                low: 2,
                max_size: max_u64,
                hit_size_limit: false,
                tried_cnt: 1,
                term: 1,
            },
            Ok(5),
            ents.clone(),
        ),
        // high is smaller than before
        (
            3,
            5,
            max_u64,
            1,
            RaftlogFetchResult {
                ents: Ok(ents[1..].to_vec()),
                low: 3,
                max_size: max_u64,
                hit_size_limit: false,
                tried_cnt: 1,
                term: 1,
            },
            Ok(2),
            ents[1..3].to_vec(),
        ),
        // high is larger than before, second try
        (
            3,
            7,
            max_u64,
            1,
            RaftlogFetchResult {
                ents: Ok(ents[1..4].to_vec()),
                low: 3,
                max_size: max_u64,
                hit_size_limit: false,
                tried_cnt: 1,
                term: 1,
            },
            Err(StorageError::LogTemporarilyUnavailable),
            vec![],
        ),
        // high is larger than before, third try
        (
            3,
            7,
            max_u64,
            1,
            RaftlogFetchResult {
                ents: Ok(ents[1..4].to_vec()),
                low: 3,
                max_size: max_u64,
                hit_size_limit: false,
                tried_cnt: 2,
                term: 1,
            },
            Ok(4),
            ents[1..].to_vec(),
        ),
        // max size is smaller than before
        (
            2,
            7,
            10,
            1,
            RaftlogFetchResult {
                ents: Ok(ents.clone()),
                low: 2,
                max_size: max_u64,
                hit_size_limit: false,
                tried_cnt: 1,
                term: 1,
            },
            Ok(2),
            ents[..2].to_vec(),
        ),
        // max size is larger than before but with lower high
        (
            2,
            5,
            40,
            1,
            RaftlogFetchResult {
                ents: Ok(ents.clone()),
                low: 2,
                max_size: 30,
                hit_size_limit: false,
                tried_cnt: 1,
                term: 1,
            },
            Ok(3),
            ents[..3].to_vec(),
        ),
        // low index is smaller than before
        (
            2,
            7,
            max_u64,
            1,
            RaftlogFetchResult {
                ents: Err(StorageError::Compacted),
                low: 3,
                max_size: max_u64,
                hit_size_limit: false,
                tried_cnt: 1,
                term: 1,
            },
            Err(StorageError::LogTemporarilyUnavailable),
            vec![],
        ),
        // low index is larger than before
        (
            4,
            7,
            max_u64,
            1,
            RaftlogFetchResult {
                ents: Ok(vec![]),
                low: 3,
                max_size: max_u64,
                hit_size_limit: false,
                tried_cnt: 1,
                term: 1,
            },
            Err(StorageError::LogTemporarilyUnavailable),
            vec![],
        ),
        // hit the try limit
        (
            3,
            7,
            max_u64,
            1,
            RaftlogFetchResult {
                ents: Ok(ents[1..4].to_vec()),
                low: 3,
                max_size: max_u64,
                hit_size_limit: false,
                tried_cnt: MAX_ASYNC_FETCH_TRY_CNT,
                term: 1,
            },
            Ok(4),
            ents[1..5].to_vec(),
        ),
        // term is changed
        (
            3,
            7,
            max_u64,
            2,
            RaftlogFetchResult {
                ents: Ok(ents[1..4].to_vec()),
                low: 3,
                max_size: max_u64,
                hit_size_limit: false,
                tried_cnt: MAX_ASYNC_FETCH_TRY_CNT,
                term: 1,
            },
            Ok(4),
            ents[1..5].to_vec(),
        ),
    ];

    for (i, (lo, hi, maxsize, term, async_res, expected_res, expected_ents)) in
        tests.drain(..).enumerate()
    {
        // hand queued tasks to the (simulated) worker before it answers
        store.take_fetch_tasks();
        if async_res.low != lo {
            store.clean_async_fetch_res(lo);
        } else {
            store.update_async_fetch_res(lo, Some(async_res));
        }
        let mut ents_out = vec![];
        store.raft_state_mut().hard_state.term = term;
        let rid = store.region_id();
        let res = store.async_fetch(
            rid,
            lo,
            hi,
            maxsize,
            GetEntriesContext::empty(true),
            &mut ents_out,
        );
        if res != expected_res {
            panic!("#{}: expect result {:?}, got {:?}", i, expected_res, res);
        }
        if ents_out != expected_ents {
            panic!("#{}: expect ents {:?}, got {:?}", i, expected_ents, ents_out);
        }
    }
}

#[test]
fn test_entries_range_errors() {
    let ents = vec![new_entry(3, 3), new_entry(4, 4), new_entry(5, 5)];
    let mut store = new_storage_from_ents(&ents);
    let ctx = GetEntriesContext::empty(false);
    assert_eq!(
        store.entries(2, 6, u64::MAX, ctx),
        Err(StorageError::Compacted)
    );
    assert_eq!(
        store.entries(4, 7, u64::MAX, ctx),
        Err(StorageError::OutOfBounds { low: 4, high: 7 })
    );
    assert_eq!(
        store.entries(5, 4, u64::MAX, ctx),
        Err(StorageError::OutOfBounds { low: 5, high: 4 })
    );
    assert_eq!(store.entries(4, 4, u64::MAX, ctx).unwrap(), vec![]);
}

#[test]
fn test_stitch_hits_missing_entry() {
    // The engine holds [2, 6]; a partial result ending at 5 with the retry
    // budget spent is stitched, and the read of index 7 finds nothing.
    let ents = vec![
        new_entry(2, 2),
        new_entry(3, 3),
        new_entry(4, 4),
        new_entry(5, 5),
        new_entry(6, 6),
    ];
    let mut store = new_storage_from_ents(&ents);
    store.update_async_fetch_res(
        3,
        Some(RaftlogFetchResult {
            ents: Ok(ents[1..4].to_vec()),
            low: 3,
            max_size: u64::MAX,
            hit_size_limit: false,
            tried_cnt: 2,
            term: 1,
        }),
    );
    let mut out = vec![];
    let rid = store.region_id();
    let res = store.async_fetch(rid, 3, 8, u64::MAX, GetEntriesContext::empty(true), &mut out);
    assert_eq!(res, Err(StorageError::Unavailable));
    assert!(out.is_empty());
}

#[test]
fn test_async_round_trip_through_worker() {
    let ents = vec![new_entry(3, 3), new_entry(4, 4), new_entry(5, 5)];
    let mut store = new_storage_from_ents(&ents);
    store.clear();
    let ctx = GetEntriesContext::empty(true);
    // the first read schedules a background fetch
    assert_eq!(
        store.entries(4, 6, u64::MAX, ctx),
        Err(StorageError::LogTemporarilyUnavailable)
    );
    let tasks = store.take_fetch_tasks();
    assert_eq!(tasks.len(), 1);
    assert_eq!(tasks[0].low, 4);
    assert_eq!(tasks[0].high, 6);
    assert_eq!(tasks[0].tried_cnt, 1);
    // the worker reads the engine and posts the result back
    let mut fetched = vec![];
    let count = store
        .raft_engine()
        .fetch_entries_to(1, tasks[0].low, tasks[0].high, tasks[0].max_size, &mut fetched)
        .unwrap();
    assert_eq!(count, 2);
    store.update_async_fetch_res(
        4,
        Some(RaftlogFetchResult {
            ents: Ok(fetched),
            low: 4,
            max_size: tasks[0].max_size,
            hit_size_limit: false,
            tried_cnt: 1,
            term: tasks[0].term,
        }),
    );
    // the retried read is served from the posted result
    let res = store.entries(4, 6, u64::MAX, ctx).unwrap();
    assert_eq!(res.as_slice(), &ents[1..]);
}

#[test]
fn test_single_fetch_in_flight_per_low() {
    let ents = vec![new_entry(3, 3), new_entry(4, 4), new_entry(5, 5)];
    let mut store = new_storage_from_ents(&ents);
    store.clear();
    let ctx = GetEntriesContext::empty(true);
    // two reads for the same low: only one task is scheduled
    assert_eq!(
        store.entries(4, 6, u64::MAX, ctx),
        Err(StorageError::LogTemporarilyUnavailable)
    );
    assert_eq!(
        store.entries(4, 6, u64::MAX, ctx),
        Err(StorageError::LogTemporarilyUnavailable)
    );
    let tasks = store.take_fetch_tasks();
    assert_eq!(tasks.len(), 1);
    // a clearance while the fetch is pending is ignored
    store.update_async_fetch_res(4, None);
    assert_eq!(
        store.entries(4, 6, u64::MAX, ctx),
        Err(StorageError::LogTemporarilyUnavailable)
    );
    assert_eq!(store.take_fetch_tasks().len(), 0);
}

#[test]
fn test_sync_read_of_missing_entries() {
    // The state records claim a longer log than the engine holds: a
    // synchronous read of the missing part reports it unavailable.
    let ents = vec![new_entry(3, 3), new_entry(4, 4), new_entry(5, 5)];
    let engine = MemEngine::from_entries(ents.clone());
    let raft_state = RaftLocalState {
        hard_state: HardState { term: 5, vote: 0, commit: 5 },
        last_index: 10,
    };
    let apply_state = RaftApplyState {
        applied_index: 5,
        truncated_state: TruncatedState { index: 3, term: 3 },
    };
    let mut store = EntryStorage::new(1, 1, engine, raft_state, apply_state, 5, 5);
    assert_eq!(
        store.entries(6, 9, u64::MAX, GetEntriesContext::empty(false)),
        Err(StorageError::Unavailable)
    );
}

#[test]
fn test_short_split_read_skips_the_window() {
    let ents = vec![new_entry(3, 3), new_entry(4, 4), new_entry(5, 5)];
    let mut store = new_storage_from_ents(&ents);
    store.clear();
    append_ents(&mut store, &[new_entry(6, 5), new_entry(7, 5)]);
    store.flush_entry_cache_metrics();
    // budget zero: the engine prefix is short (one entry), and it comes
    // back alone — the window is never consulted
    let res = store
        .entries(4, 8, 0, GetEntriesContext::empty(false))
        .unwrap();
    assert_eq!(res, vec![new_entry(4, 4)]);
    let m = store.flush_entry_cache_metrics();
    assert_eq!(m.hit, 0);
    assert_eq!(m.miss, 1);
}

#[test]
fn test_evict_entry_cache_drops_entries() {
    let ents = vec![new_entry(3, 3), new_entry(4, 4), new_entry(5, 5)];
    let mut store = new_storage_from_ents(&ents);
    store.update_cache_persisted(5);
    // keep only the window's last entry
    store.evict_entry_cache(false);
    assert!(!store.is_entry_cache_empty());
    let res = store
        .entries(5, 6, u64::MAX, GetEntriesContext::empty(false))
        .unwrap();
    assert_eq!(res, vec![new_entry(5, 5)]);
}

#[test]
fn test_term_shortcut_and_errors() {
    // truncated = (10, 5), last_index = 20, last_term = 5: term(15) answers
    // without consulting the cache or the (empty) engine.
    let raft_state = RaftLocalState {
        hard_state: HardState { term: 5, vote: 0, commit: 20 },
        last_index: 20,
    };
    let apply_state = RaftApplyState {
        applied_index: 20,
        truncated_state: TruncatedState { index: 10, term: 5 },
    };
    let store = EntryStorage::new(1, 1, MemEngine::empty(), raft_state, apply_state, 5, 5);
    assert_eq!(store.term(15), Ok(5));
    assert_eq!(store.term(10), Ok(5));
    assert_eq!(store.term(20), Ok(5));
    assert_eq!(store.term(9), Err(StorageError::Compacted));
    assert_eq!(
        store.term(21),
        Err(StorageError::OutOfBounds { low: 21, high: 22 })
    );
}

#[test]
fn test_term_from_cache_and_engine() {
    let ents = vec![new_entry(3, 3), new_entry(4, 4), new_entry(5, 5)];
    let mut store = new_storage_from_ents(&ents);
    // last_term is 5, truncated term is 3: no shortcut for middle indexes
    assert_eq!(store.term(4), Ok(4));
    assert_eq!(store.term(5), Ok(5));
    assert_eq!(store.term(3), Ok(3));
    // drop the cache: the engine answers
    store.clear();
    assert_eq!(store.term(4), Ok(4));
}

#[test]
fn test_append_builds_write_task() {
    let ents = vec![new_entry(3, 3), new_entry(4, 4), new_entry(5, 5)];
    let mut store = new_storage_from_ents(&ents);
    let mut task = WriteTask::new();
    store.append(vec![new_entry(4, 6), new_entry(5, 6)], &mut task);
    assert_eq!(task.entries, vec![new_entry(4, 6), new_entry(5, 6)]);
    // delete anything the old leader staged past the new tail
    assert_eq!(task.cut_logs, Some((6, 6)));
    assert_eq!(store.last_index(), 5);
    assert_eq!(store.last_term(), 6);
}

#[test]
fn test_append_then_read_round_trip() {
    let ents = vec![new_entry(3, 3), new_entry(4, 4), new_entry(5, 5)];
    let mut store = new_storage_from_ents(&ents);
    append_ents(&mut store, &[new_entry(6, 5), new_entry(7, 5), new_entry(8, 5)]);
    let got = store
        .entries(6, 9, u64::MAX, GetEntriesContext::empty(false))
        .unwrap();
    assert_eq!(
        got,
        vec![new_entry(6, 5), new_entry(7, 5), new_entry(8, 5)]
    );
}

#[test]
fn test_commit_and_persisted_only_advance() {
    let ents = vec![new_entry(3, 3), new_entry(4, 4), new_entry(5, 5)];
    let mut store = new_storage_from_ents(&ents);
    assert_eq!(store.commit_index(), 5);
    store.set_commit_index(6);
    assert_eq!(store.commit_index(), 6);
    store.update_cache_persisted(4);
    store.update_cache_persisted(5);
    let apply = RaftApplyState {
        applied_index: 6,
        truncated_state: TruncatedState { index: 3, term: 3 },
    };
    store.set_applied_state(apply);
    assert_eq!(store.applied_index(), 6);
}

#[test]
fn test_flush_entry_cache_metrics() {
    let ents = vec![new_entry(3, 3), new_entry(4, 4), new_entry(5, 5)];
    let mut store = new_storage_from_ents(&ents);
    // one miss from below the window, then one hit from inside it
    store.clear();
    store
        .entries(4, 6, u64::MAX, GetEntriesContext::empty(false))
        .unwrap();
    append_ents(&mut store, &[new_entry(6, 5), new_entry(7, 5)]);
    store
        .entries(6, 8, u64::MAX, GetEntriesContext::empty(false))
        .unwrap();
    let m = store.flush_entry_cache_metrics();
    assert_eq!(m.hit, 1);
    assert_eq!(m.miss, 1);
    assert_eq!(m.fetch.sync_fetch, 1);
    let m2 = store.flush_entry_cache_metrics();
    assert_eq!(m2.hit, 0);
    assert_eq!(m2.fetch.sync_fetch, 0);
}
