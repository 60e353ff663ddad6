//! Entry storage for a replicated-log peer, verified with Verus.
//!
//! This is the storage layer between a consensus driver and a durable log
//! engine: an in-memory cache holding a contiguous suffix of the log with
//! byte-exact memory accounting, a coordinator for asynchronous range
//! fetches, and the facade that serves range reads, term lookups and
//! appends. Two small utilities of the surrounding server live alongside:
//! the disk-full flag and the thread-pool configuration builder.

pub mod cache;
pub mod disk;
pub mod engine;
pub mod entry;
pub mod errors;
pub mod fetch;
pub mod pool;
pub mod state;
pub mod storage;
