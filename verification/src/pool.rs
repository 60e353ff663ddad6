//! Thread-pool configuration: the periodic-tick throttle pool runners use,
//! and the builder that accumulates a pool's settings. Building the pool
//! itself spawns threads and stays outside this crate; the clock is an
//! outside input, handed in as plain milliseconds.

use vstd::prelude::*;

verus! {

/// Milliseconds a ticker stays quiet after a tick.
pub const TICK_INTERVAL_MS: u64 = 1000;

/// `a - b`, floored at zero (a clock may step backward).
pub open spec fn sat_sub(a: u64, b: u64) -> u64 {
    if a >= b {
        (a - b) as u64
    } else {
        0
    }
}

/// `a * b`, capped at the top of `usize`.
pub open spec fn sat_mul(a: usize, b: usize) -> usize {
    if a * b > usize::MAX {
        usize::MAX
    } else {
        (a * b) as usize
    }
}

/// A periodic maintenance hook a pool owner implements.
pub trait PoolTicker: Sized {
    fn on_tick(&mut self);
}

/// Throttles a ticker to at most one tick per interval.
#[derive(Debug, Clone)]
pub struct TickerWrapper<T: PoolTicker> {
    ticker: T,
    last_tick_time: u64,
}

impl<T: PoolTicker> TickerWrapper<T> {
    /// When the last tick fired, in the caller's clock.
    pub closed spec fn last_tick(&self) -> u64 {
        self.last_tick_time
    }

    /// Wrap a ticker; `now_ms` is the caller's current clock reading.
    pub fn new(ticker: T, now_ms: u64) -> (r: Self)
        ensures
            r.last_tick() == now_ms,
    {
        TickerWrapper { ticker, last_tick_time: now_ms }
    }

    /// Tick when at least the interval has passed since the last tick;
    /// stay quiet otherwise — quiet means untouched, the wrapped ticker
    /// included.
    pub fn try_tick(&mut self, now_ms: u64)
        ensures
            sat_sub(now_ms, old(self).last_tick()) < TICK_INTERVAL_MS ==> *final(self) == *old(
                self,
            ),
            sat_sub(now_ms, old(self).last_tick()) >= TICK_INTERVAL_MS ==> final(self).last_tick()
                == now_ms,
    {
        let since: u64 = if now_ms >= self.last_tick_time {
            now_ms - self.last_tick_time
        } else {
            0
        };
        if since < TICK_INTERVAL_MS {
            return ;
        }
        self.last_tick_time = now_ms;
        self.ticker.on_tick();
    }

    /// Tick unconditionally.
    pub fn on_tick(&mut self)
        ensures
            final(self).last_tick() == old(self).last_tick(),
    {
        self.ticker.on_tick();
    }
}

/// A ticker that does nothing.
#[derive(Debug, Clone, Copy, PartialEq, Eq, Structural)]
pub struct DefaultTicker {}

impl PoolTicker for DefaultTicker {
    fn on_tick(&mut self) {
    }
}

/// Pool sizing configuration.
#[derive(Debug, Clone, Copy, PartialEq, Eq, Structural)]
pub struct Config {
    pub workers: usize,
    pub max_tasks_per_worker: usize,
    pub stack_size: usize,
}

impl Config {
    /// The small two-worker configuration tests run with.
    pub fn default_for_test() -> (c: Config)
        ensures
            c.workers == 2,
            c.max_tasks_per_worker == usize::MAX,
            c.stack_size == 2000000,
    {
        Config { workers: 2, max_tasks_per_worker: usize::MAX, stack_size: 2000000 }
    }
}

/// Accumulates the settings a thread pool is built with. The surrounding
/// server turns a finished builder into a running pool.
#[derive(Debug, Clone)]
pub struct YatpPoolBuilder<T: PoolTicker> {
    pub name_prefix: Option<String>,
    pub ticker: TickerWrapper<T>,
    pub min_thread_count: usize,
    pub core_thread_count: usize,
    pub max_thread_count: usize,
    pub stack_size: usize,
    pub max_tasks: usize,
}

impl<T: PoolTicker> YatpPoolBuilder<T> {
    /// A single-thread builder around the given ticker.
    pub fn new(ticker: T) -> (r: Self)
        ensures
            r.name_prefix is None,
            r.min_thread_count == 1,
            r.core_thread_count == 1,
            r.max_thread_count == 1,
            r.stack_size == 0,
            r.max_tasks == usize::MAX,
    {
        YatpPoolBuilder {
            ticker: TickerWrapper::new(ticker, 0),
            name_prefix: None,
            min_thread_count: 1,
            core_thread_count: 1,
            max_thread_count: 1,
            stack_size: 0,
            max_tasks: usize::MAX,
        }
    }

    /// Apply a whole configuration: worker counts, stack size, and the
    /// total task bound (workers times per-worker tasks, saturating).
    pub fn config(self, config: Config) -> (r: Self)
        ensures
            r == (YatpPoolBuilder {
                min_thread_count: config.workers,
                core_thread_count: config.workers,
                max_thread_count: config.workers,
                stack_size: config.stack_size,
                max_tasks: sat_mul(config.workers, config.max_tasks_per_worker),
                ..self
            }),
    {
        let tasks: usize = saturating_mul_usize(config.workers, config.max_tasks_per_worker);
        self.thread_count(config.workers, config.workers, config.workers).stack_size(
            config.stack_size,
        ).max_tasks(tasks)
    }

    /// Set the stack size for pool threads.
    pub fn stack_size(self, val: usize) -> (r: Self)
        ensures
            r == (YatpPoolBuilder { stack_size: val, ..self }),
    {
        YatpPoolBuilder { stack_size: val, ..self }
    }

    /// Name the pool's threads.
    pub fn name_prefix(self, val: String) -> (r: Self)
        ensures
            r == (YatpPoolBuilder { name_prefix: Some(val), ..self }),
    {
        YatpPoolBuilder { name_prefix: Some(val), ..self }
    }

    /// Set the minimum, core and maximum thread counts.
    pub fn thread_count(
        self,
        min_thread_count: usize,
        core_thread_count: usize,
        max_thread_count: usize,
    ) -> (r: Self)
        ensures
            r == (YatpPoolBuilder {
                min_thread_count,
                core_thread_count,
                max_thread_count,
                ..self
            }),
    {
        YatpPoolBuilder { min_thread_count, core_thread_count, max_thread_count, ..self }
    }

    /// Bound the number of queued tasks.
    pub fn max_tasks(self, tasks: usize) -> (r: Self)
        ensures
            r == (YatpPoolBuilder { max_tasks: tasks, ..self }),
    {
        YatpPoolBuilder { max_tasks: tasks, ..self }
    }
}

/// `a * b` on `usize`, saturating at the top.
pub fn saturating_mul_usize(a: usize, b: usize) -> (r: usize)
    ensures
        r == sat_mul(a, b),
{
    if b == 0 {
        proof {
            assert(a * b == 0) by (nonlinear_arith)
                requires
                    b == 0,
            ;
        }
        return 0;
    }
    if a > usize::MAX / b {
        proof {
            assert(a * b > usize::MAX) by (nonlinear_arith)
                requires
                    b > 0,
                    a > usize::MAX / b,
                    usize::MAX / b == usize::MAX as int / b as int,
            ;
        }
        usize::MAX
    } else {
        proof {
            assert(a * b <= usize::MAX) by (nonlinear_arith)
                requires
                    b > 0,
                    a <= usize::MAX / b,
                    usize::MAX / b == usize::MAX as int / b as int,
            ;
        }
        a * b
    }
}

} // verus!
