//! The decisions of the enqueue and dequeue protocols, one step at a time.
//!
//! Each step takes what a thread has just observed of the shared segments
//! (a claimed index, whether a pointer moved, whether a link is set) and says
//! what the thread does next. The exclusive-access engine and any lock-free
//! runner share these decisions.
use vstd::prelude::*;
use crate::BUFFER_SIZE;

verus! {

/// What a producer does after claiming index `idx` in the tail segment.
#[derive(PartialEq, Eq, Structural, Clone, Copy, Debug)]
pub enum EnqueueStep {
    /// The index is inside the segment: compare-and-swap the item into it.
    Install,
    /// The segment is full and `tail` has already moved on: start over.
    Retry,
    /// The segment is full and has no successor: link a new segment seeded
    /// with the item.
    Link,
    /// The segment is full and already has a successor: help move `tail` to it.
    HelpAdvance,
}

/// What a consumer does after claiming index `idx` in the head segment.
#[derive(PartialEq, Eq, Structural, Clone, Copy, Debug)]
pub enum DequeueStep {
    /// The index is inside the segment: swap the taken marker into the slot.
    Take,
    /// The segment is drained and has no successor: report an empty queue.
    ReportEmpty,
    /// The segment is drained and has a successor: move `head` to it and
    /// retire the drained segment.
    AdvanceHead,
}

/// The producer's decision after a fetch-and-add on the enqueue cursor.
pub fn enqueue_step(idx: usize, tail_moved: bool, next_is_null: bool) -> (r: EnqueueStep)
    ensures
        idx < BUFFER_SIZE ==> r == EnqueueStep::Install,
        idx >= BUFFER_SIZE && tail_moved ==> r == EnqueueStep::Retry,
        idx >= BUFFER_SIZE && !tail_moved && next_is_null ==> r == EnqueueStep::Link,
        idx >= BUFFER_SIZE && !tail_moved && !next_is_null ==> r == EnqueueStep::HelpAdvance,
{
    if idx < BUFFER_SIZE {
        EnqueueStep::Install
    } else if tail_moved {
        EnqueueStep::Retry
    } else if next_is_null {
        EnqueueStep::Link
    } else {
        EnqueueStep::HelpAdvance
    }
}

/// The consumer's probe before claiming: the head segment has nothing left
/// to claim and nothing follows it.
pub fn dequeue_observes_empty(dequeue_index: usize, enqueue_index: usize, next_is_null: bool) -> (r: bool)
    ensures
        r == (dequeue_index >= enqueue_index && next_is_null),
{
    dequeue_index >= enqueue_index && next_is_null
}

/// The consumer's decision after a fetch-and-add on the dequeue cursor.
pub fn dequeue_step(idx: usize, next_is_null: bool) -> (r: DequeueStep)
    ensures
        idx < BUFFER_SIZE ==> r == DequeueStep::Take,
        idx >= BUFFER_SIZE && next_is_null ==> r == DequeueStep::ReportEmpty,
        idx >= BUFFER_SIZE && !next_is_null ==> r == DequeueStep::AdvanceHead,
{
    if idx < BUFFER_SIZE {
        DequeueStep::Take
    } else if next_is_null {
        DequeueStep::ReportEmpty
    } else {
        DequeueStep::AdvanceHead
    }
}

} // verus!
