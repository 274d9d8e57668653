//! Storage layer of a column-family database built on immutable sorted-string
//! tables: a schema-driven row encoding, a forward-only row reader, and a
//! bulk-loading builder for an on-disk B-tree index.

pub mod util;
pub mod io;
pub mod db;
pub mod sstable;
