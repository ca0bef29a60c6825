//! Plain values that move through the coordinator: work items, queue
//! entries, completion records, and the caller-visible error type.
use vstd::prelude::*;

verus! {

/// A unit of work, described by a resource-cost proxy (`size`) and a
/// compute-cost proxy (`complexity`). Immutable and without identity of
/// its own.
#[derive(Clone, Copy, PartialEq, Eq, Structural, Debug)]
pub struct WorkItem {
    pub size: u64,
    pub complexity: u64,
}

/// An entry of the queued collection: an identifier minted at enqueue
/// time, paired with the item it names.
#[derive(Clone, Copy, PartialEq, Eq, Structural, Debug)]
pub struct QueueEntry {
    pub work_id: u64,
    pub item: WorkItem,
}

/// One recorded completion: the finished item and the second at which it
/// was reported. The timestamp is internal bookkeeping for pruning and is
/// not exposed by summaries.
#[derive(Clone, Copy, PartialEq, Eq, Structural, Debug)]
pub struct CompletionRecord {
    pub item: WorkItem,
    pub completed_at: u64,
}

/// The caller-visible rejections.
#[derive(Clone, Copy, PartialEq, Eq, Structural, Debug)]
pub enum CoordError {
    /// The request carried no work item.
    InvalidInput,
    /// A completion named an identifier with no live assignment.
    UnknownWorkId,
}

} // verus!
