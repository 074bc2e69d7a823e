//! Device-class drivers built on the virtqueue.
pub mod blk;
