//! Staging of incoming rows before they are sealed into partitions.

pub mod raw_val;
pub mod input_column;
pub mod buffer;
pub mod event_buffer;

