//! Storage and execution core of a column-oriented analytical database.
//!
//! Rows arrive at a [`scheduler::inner_locustdb::InnerLocustDB`], which keeps
//! them in the open [`ingest::buffer::Buffer`] of their table until a flush
//! of the write-ahead log seals them into partitions of typed columns
//! ([`mem_store`]). Queries run per partition; [`engine::batch_merging`]
//! combines the results of two partitions into one, by merging sorted key
//! columns and replaying the merge on all other columns.
//!
//! Every function carries a contract, stated over plain mathematical
//! values, and is proved to meet it. [`engine::merge_properties`] and
//! [`engine::grouping_properties`] prove what the merges guarantee beyond
//! their definitions.
//!
//! Floats are held as their 64-bit patterns throughout.
//!
//! Nothing in this crate waits, spawns threads, reads the clock or touches
//! the disk: the caller hands in the time and what it has read, and carries
//! out what the functions return.

pub mod errors;
pub mod text;
pub mod locustdb;
pub mod stringpack;
pub mod engine;
pub mod mem_store;
pub mod ingest;
pub mod scheduler;
