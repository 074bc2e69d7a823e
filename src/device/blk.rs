//! The block device driver's state.
use vstd::prelude::*;
use crate::error::Error;
use crate::queue::{valid_size, VirtQueue};

verus! {

/// The number of descriptors in a block device's request queue.
pub const QUEUE_SIZE: u16 = 16;

/// A VirtIO block device: one request queue, and what the device's config
/// space reports.
pub struct VirtioBlk {
    queue: VirtQueue,
    capacity: u64,
    readonly: bool,
}

impl VirtioBlk {
    /// The driver's invariant: its queue is well formed and of `QUEUE_SIZE`.
    pub closed spec fn wf(&self) -> bool {
        self.queue.wf() && self.queue.size_spec() == QUEUE_SIZE
    }

    pub closed spec fn capacity_spec(&self) -> u64 {
        self.capacity
    }

    pub closed spec fn readonly_spec(&self) -> bool {
        self.readonly
    }

    /// Sets up a block device whose transport allows queues of at most
    /// `max_queue_size` and whose config space reports `capacity` sectors and
    /// the read-only bit. Fails with `InvalidParam` when the request queue
    /// does not fit the transport.
    pub fn new(max_queue_size: u32, capacity: u64, readonly: bool) -> (r: Result<VirtioBlk, Error>)
        ensures
            r is Ok <==> valid_size(QUEUE_SIZE as nat, max_queue_size as nat),
            r is Err ==> r == Err::<VirtioBlk, Error>(Error::InvalidParam),
            r matches Ok(b) ==> b.wf() && b.capacity_spec() == capacity && b.readonly_spec() == readonly
                && b.queue_spec().num_free_spec() == QUEUE_SIZE,
    {
        match VirtQueue::new(QUEUE_SIZE as usize, max_queue_size) {
            Ok(queue) => Ok(VirtioBlk { queue, capacity, readonly }),
            Err(e) => Err(e),
        }
    }

    pub closed spec fn queue_spec(&self) -> VirtQueue {
        self.queue
    }

    /// The capacity of the device, in 512-byte sectors.
    pub fn capacity(&self) -> (r: u64)
        ensures
            r == self.capacity_spec(),
    {
        self.capacity
    }

    /// Whether the device refuses writes.
    pub fn readonly(&self) -> (r: bool)
        ensures
            r == self.readonly_spec(),
    {
        self.readonly
    }

    /// The request queue.
    pub fn queue(&self) -> (r: &VirtQueue)
        ensures
            *r == self.queue_spec(),
    {
        &self.queue
    }
}

} // verus!
