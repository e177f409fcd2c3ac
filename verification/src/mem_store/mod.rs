//! In-memory representation of table data.

pub mod value;
pub mod raw_col;
pub mod column;
pub mod lru;
pub mod partition;
pub mod table;
