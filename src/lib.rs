//! Split virtqueue engine for VirtIO drivers: descriptor table, available ring,
//! used ring and free-descriptor management, with their contracts proved.
use vstd::prelude::*;

pub mod error;
pub mod queue;
pub mod laws;
pub mod layout;
pub mod device;

pub use error::Error;
pub use queue::{Buffer, BufferDirection, DescFlags, Descriptor, Hal, PhysAddr, Transport, UsedElem, VirtQueue};
pub use device::blk::VirtioBlk;

verus! {

/// The page size in bytes supported by the library (4 KiB).
pub const PAGE_SIZE: usize = 0x1000;

} // verus!
