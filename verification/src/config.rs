//! What can be set about a database.
use vstd::prelude::*;

verus! {

/// The settings of a database.
#[derive(Clone, Copy, Debug)]
pub struct LsmliteConfig {
    /// Bytes written that make a memtable full.
    pub max_memtable_size: u64,
    /// Keys that make a memtable full.
    pub max_memtable_nodes: u64,
    /// How many SSTables make a compaction due.
    pub compaction_rate: u64,
    /// How many signals to the compaction task can wait.
    pub compaction_queue_size: u64,
    /// How many signals to the flush task can wait.
    pub memtable_flush_queue_size: u64,
}

} // verus!
