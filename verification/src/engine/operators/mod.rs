//! Vector operators: the nodes of a query plan.

pub mod merge;
pub mod merge_deduplicate;
pub mod hashmap_grouping;
