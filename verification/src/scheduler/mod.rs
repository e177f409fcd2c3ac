//! The decisions of the scheduler: what a worker runs next, how a batch of
//! events reaches the tables, how partitions are laid out on disk, and when
//! memory and the write-ahead log have to give.

pub mod subpartition;
pub mod task_queue;
pub mod inner_locustdb;
