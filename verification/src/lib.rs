//! lsmlite: the storage engine of an LSM-tree key-value store.
pub mod compaction;
pub mod config;
pub mod constants;
pub mod database;
pub mod disk;
pub mod error;
pub mod memtable;
pub mod restart;
pub mod ssindex;
pub mod sstable;
pub mod util;
pub mod wal;
