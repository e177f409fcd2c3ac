//! Configuration of a database.

use vstd::prelude::*;

verus! {

/// The options a database is opened with.
#[derive(Debug)]
pub struct Options {
    /// Number of worker threads that execute queries.
    pub threads: usize,
    /// Number of threads that read columns from disk.
    pub read_threads: usize,
    /// Root directory of the database; without one it lives in memory only.
    pub db_path: Option<String>,
    /// Memory that the tables may take before columns are evicted.
    pub mem_size_limit_tables: usize,
    /// Keep columns compressed in memory.
    pub mem_lz4: bool,
    /// Number of rows that streaming operators handle at once.
    pub batch_size: usize,
    /// Size of the write-ahead log at which ingestion waits for a flush.
    pub max_wal_size_bytes: u64,
    /// Greatest size of a subpartition.
    pub max_partition_size_bytes: u64,
    /// Number of partitions that a compaction merges into one.
    pub partition_combine_factor: u64,
    /// Number of threads that flush and compact.
    pub wal_flush_compaction_threads: usize,
}

impl Clone for Options {
    fn clone(&self) -> (copy: Options)
        ensures
            copy == *self,
    {
        Options {
            threads: self.threads,
            read_threads: self.read_threads,
            db_path: match &self.db_path {
                Some(path) => Some(path.clone()),
                None => None,
            },
            mem_size_limit_tables: self.mem_size_limit_tables,
            mem_lz4: self.mem_lz4,
            batch_size: self.batch_size,
            max_wal_size_bytes: self.max_wal_size_bytes,
            max_partition_size_bytes: self.max_partition_size_bytes,
            partition_combine_factor: self.partition_combine_factor,
            wal_flush_compaction_threads: self.wal_flush_compaction_threads,
        }
    }
}

} // verus!
