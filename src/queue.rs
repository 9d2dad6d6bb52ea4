use vstd::prelude::*;
use vstd::rwlock::{RwLock, RwLockPredicate};
use std::collections::VecDeque;
use std::sync::Arc;

verus! {

/// The strategy that moves one file from the source tree to the destination tree.
#[derive(PartialEq, Eq, Structural, Clone, Copy, Debug)]
pub enum Operation {
    /// Byte-for-byte copy, overwriting the destination.
    Copy,
    /// Reported and not performed.
    Move,
}

/// One transfer: the file's path relative to both roots and the strategy.
#[derive(Debug)]
pub struct WorkItem {
    pub relative: Vec<String>,
    pub operation: Operation,
}

impl WorkItem {
    /// A transfer names a file, so its path has at least one component.
    pub open spec fn wf(&self) -> bool {
        self.relative@.len() > 0
    }
}

/// What every value held by the queue's lock satisfies.
pub struct QueueInvariant;

impl RwLockPredicate<VecDeque<WorkItem>> for QueueInvariant {
    open spec fn inv(self, q: VecDeque<WorkItem>) -> bool {
        forall|i: int| 0 <= i < q@.len() ==> (#[trigger] q@[i]).wf()
    }
}

/// The producer's flag may hold either value.
pub struct AnyFlag;

impl RwLockPredicate<bool> for AnyFlag {
    open spec fn inv(self, v: bool) -> bool {
        true
    }
}

/// A handle on a FIFO of transfers shared between one producer and the workers,
/// with the producer's "no more work will arrive" flag.
pub struct Subscribe {
    pub thread_sharable_storage_queue: Arc<RwLock<VecDeque<WorkItem>, QueueInvariant>>,
    pub all_files_shared_to_queue: Arc<RwLock<bool, AnyFlag>>,
}

impl Subscribe {
    /// A fresh empty queue whose flag is down.
    pub fn new() -> (r: Subscribe) {
        let q: VecDeque<WorkItem> = VecDeque::new();
        proof {
            assert(q@.len() == 0);
        }
        Subscribe {
            thread_sharable_storage_queue: Arc::new(RwLock::new(q, Ghost(QueueInvariant))),
            all_files_shared_to_queue: Arc::new(RwLock::new(false, Ghost(AnyFlag))),
        }
    }

    /// Appends a transfer at the tail.
    pub fn assign_work(&self, item: WorkItem)
        requires
            item.wf(),
    {
        let (mut q, handle) = self.thread_sharable_storage_queue.acquire_write();
        q.push_back(item);
        proof {
            assert forall|i: int| 0 <= i < q@.len() implies (#[trigger] q@[i]).wf() by {}
        }
        handle.release_write(q);
    }

    /// Another handle on the same queue and flag.
    pub fn duplicate_handle(&self) -> (r: Subscribe)
        ensures
            r.thread_sharable_storage_queue == self.thread_sharable_storage_queue,
            r.all_files_shared_to_queue == self.all_files_shared_to_queue,
    {
        Subscribe {
            all_files_shared_to_queue: Arc::clone(&self.all_files_shared_to_queue),
            thread_sharable_storage_queue: Arc::clone(&self.thread_sharable_storage_queue),
        }
    }

    /// Takes the transfer at the head, if any; never waits for one to arrive.
    pub fn get_work(&self) -> (r: Option<WorkItem>)
        ensures
            r matches Some(item) ==> item.wf(),
    {
        let (mut q, handle) = self.thread_sharable_storage_queue.acquire_write();
        let r = q.pop_front();
        proof {
            assert forall|i: int| 0 <= i < q@.len() implies (#[trigger] q@[i]).wf() by {}
        }
        handle.release_write(q);
        r
    }

    /// Sets the producer's flag.
    pub fn set_all_files_shared_status(&self, value: bool) {
        let (_old, handle) = self.all_files_shared_to_queue.acquire_write();
        handle.release_write(value);
    }

    /// Reads the producer's flag.
    pub fn get_all_files_shared_status(&self) -> bool {
        let handle = self.all_files_shared_to_queue.acquire_read();
        let v = *handle.borrow();
        handle.release_read();
        v
    }
}

} // verus!
