use entry_storage::disk::{
    clear_disk_full, get_disk_reserved, is_disk_full, set_disk_full, set_disk_reserved,
    DiskStatus, DEFAULT_DISK_RESERVED_BYTES,
};
use entry_storage::engine::{MemEngine, RaftEngine};
use entry_storage::entry::{limit_entries, Entry, ENTRY_HEADER_BYTES};
use entry_storage::errors::StorageError;
use entry_storage::pool::{
    Config, DefaultTicker, PoolTicker, TickerWrapper, YatpPoolBuilder, TICK_INTERVAL_MS,
};

fn sized_entry(index: u64, term: u64, pad: usize) -> Entry {
    let mut e = Entry::new(index, term);
    e.data = vec![0u8; pad];
    e
}

#[test]
fn test_entry_sizes() {
    let e = sized_entry(1, 1, 10);
    assert_eq!(e.compute_size(), ENTRY_HEADER_BYTES + 10);
    assert_eq!(e.payload_size(), 10);
    let plain = Entry::new(2, 2);
    assert_eq!(plain.compute_size(), ENTRY_HEADER_BYTES);
    assert_eq!(plain.payload_size(), 0);
    let copy = e.clone();
    assert_eq!(copy, e);
}

#[test]
fn test_limit_entries_keeps_first() {
    // the first entry goes out even when it alone busts the budget
    let mut ents = vec![sized_entry(1, 1, 100), sized_entry(2, 1, 1)];
    limit_entries(&mut ents, 10);
    assert_eq!(ents.len(), 1);
    assert_eq!(ents[0].index, 1);

    // later entries go only while the running total fits
    let mut ents = vec![
        sized_entry(1, 1, 0),
        sized_entry(2, 1, 0),
        sized_entry(3, 1, 0),
    ];
    limit_entries(&mut ents, 8);
    assert_eq!(ents.len(), 2);

    // a covering budget keeps everything
    let mut ents = vec![sized_entry(1, 1, 0), sized_entry(2, 1, 0)];
    limit_entries(&mut ents, u64::MAX);
    assert_eq!(ents.len(), 2);
}

#[test]
fn test_mem_engine_reads() {
    let engine = MemEngine::from_entries(vec![
        Entry::new(5, 1),
        Entry::new(6, 1),
        Entry::new(7, 2),
    ]);
    assert_eq!(engine.get_entry(1, 6).unwrap().unwrap().term, 1);
    assert!(engine.get_entry(1, 4).unwrap().is_none());
    assert!(engine.get_entry(1, 8).unwrap().is_none());

    let mut out = vec![];
    assert_eq!(engine.fetch_entries_to(1, 5, 8, u64::MAX, &mut out), Ok(3));
    assert_eq!(out.len(), 3);
    assert_eq!(out[0].index, 5);

    let mut out = vec![];
    assert_eq!(
        engine.fetch_entries_to(1, 4, 8, u64::MAX, &mut out),
        Err(StorageError::Unavailable)
    );
    assert!(out.is_empty());

    // the byte budget stops the read early, after at least one entry
    let mut out = vec![];
    assert_eq!(engine.fetch_entries_to(1, 5, 8, 0, &mut out), Ok(1));
    assert_eq!(out[0].index, 5);
}

#[test]
fn test_disk_full() {
    let mut status = DiskStatus::new();
    assert!(!is_disk_full(&status));
    set_disk_full(&mut status);
    assert!(is_disk_full(&status));
    clear_disk_full(&mut status);
    assert!(!is_disk_full(&status));
    set_disk_reserved(&mut status, 1024);
    assert_eq!(get_disk_reserved(&status), 1024);
    set_disk_reserved(&mut status, 0);
    assert_eq!(get_disk_reserved(&status), DEFAULT_DISK_RESERVED_BYTES);
    assert_eq!(get_disk_reserved(&status), 5 * 1024 * 1024 * 1024);
}

struct CountingTicker {
    ticks: std::rc::Rc<std::cell::Cell<u64>>,
}

impl PoolTicker for CountingTicker {
    fn on_tick(&mut self) {
        self.ticks.set(self.ticks.get() + 1);
    }
}

#[test]
fn test_ticker_throttles() {
    let n = std::rc::Rc::new(std::cell::Cell::new(0u64));
    let mut w = TickerWrapper::new(CountingTicker { ticks: n.clone() }, 0);
    w.try_tick(TICK_INTERVAL_MS - 1);
    assert_eq!(n.get(), 0);
    w.try_tick(TICK_INTERVAL_MS);
    assert_eq!(n.get(), 1);
    // only a millisecond since the last tick: quiet
    w.try_tick(TICK_INTERVAL_MS + 1);
    assert_eq!(n.get(), 1);
    w.try_tick(2 * TICK_INTERVAL_MS);
    assert_eq!(n.get(), 2);
    w.on_tick();
    assert_eq!(n.get(), 3);
    // a clock stepping backward stays quiet
    w.try_tick(0);
    assert_eq!(n.get(), 3);
    let mut d = DefaultTicker {};
    d.on_tick();
}

#[test]
fn test_pool_builder_accumulates() {
    let b = YatpPoolBuilder::new(DefaultTicker {});
    assert_eq!(b.min_thread_count, 1);
    assert_eq!(b.max_tasks, usize::MAX);
    let b = b
        .config(Config {
            workers: 4,
            max_tasks_per_worker: 100,
            stack_size: 65536,
        })
        .name_prefix(String::from("apply-pool"));
    assert_eq!(b.min_thread_count, 4);
    assert_eq!(b.core_thread_count, 4);
    assert_eq!(b.max_thread_count, 4);
    assert_eq!(b.stack_size, 65536);
    assert_eq!(b.max_tasks, 400);
    assert_eq!(b.name_prefix.as_deref(), Some("apply-pool"));
    // the task bound saturates
    let b = b.config(Config {
        workers: 2,
        max_tasks_per_worker: usize::MAX,
        stack_size: 0,
    });
    assert_eq!(b.max_tasks, usize::MAX);
    let b = b.thread_count(1, 2, 3).stack_size(1024).max_tasks(7);
    assert_eq!(
        (b.min_thread_count, b.core_thread_count, b.max_thread_count),
        (1, 2, 3)
    );
    assert_eq!(b.stack_size, 1024);
    assert_eq!(b.max_tasks, 7);
}

#[test]
fn test_config_default_for_test() {
    let c = Config::default_for_test();
    assert_eq!(c.workers, 2);
    assert_eq!(c.max_tasks_per_worker, usize::MAX);
    assert_eq!(c.stack_size, 2000000);
}
