//! A multi-producer/multi-consumer FIFO queue made of linked fixed-capacity
//! segments, whose slots are claimed through fetch-and-add cursors.
//!
//! The library holds the queue engine with exclusive access (`FAAAQueue`),
//! the per-operation decision steps of the lock-free protocol, and the laws
//! that the engine obeys.
use vstd::prelude::*;

pub mod slot;
pub mod segment;
pub mod protocol;
pub mod guard;
pub mod queue;
pub mod laws;

pub use queue::FAAAQueue;

verus! {

/// Number of slots in every segment.
pub const BUFFER_SIZE: usize = 1024;

} // verus!
