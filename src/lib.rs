//! A worker-pool scheduler and a set of small verified utilities.
//!
//! `scheduler` holds the dispatch logic of a pool of worker threads: which
//! idle worker takes a submitted job, which queued job a worker takes when it
//! finishes, and when a shutdown is complete. The threads and channels that
//! carry jobs and events are driven by the caller, one event at a time.
//!
//! The other modules are independent: a ring buffer, a linked stack, slugs,
//! a battleship board, a circuit tree, DNA pattern search, caches, counters
//! and the bookkeeping of a few synchronisation primitives (permits, latch,
//! barrier), whose blocking is left to the caller.
pub mod barrier;
pub mod board;
pub mod cache;
pub mod circuit;
mod clock;
pub mod circular;
pub mod dna;
pub mod events;
pub mod filesystem;
pub mod lazy;
pub mod latch;
pub mod list;
pub mod permits;
pub mod puzzle;
pub mod scheduler;
pub mod slug;
pub mod token;

use vstd::prelude::*;

verus! {

/// Errors reported by the worker pool.
#[derive(Debug, PartialEq, Eq, Structural)]
pub enum PoolError {
    /// A pool needs at least one worker.
    ZeroWorkers,
    /// A job was submitted after shutdown had begun.
    RejectedSubmission,
}

} // verus!
