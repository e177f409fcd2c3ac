//! Query execution: typed column data, comparators, and the primitives that
//! merge the results of two partitions.

pub mod vec_data;
pub mod types;
pub mod comparator;
pub mod aggregator;
pub mod batch_merging;
pub mod scratchpad;
pub mod operators;
pub mod merge_properties;
pub mod grouping_properties;
