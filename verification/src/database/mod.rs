//! The database, as its users see it.
pub mod inner;
pub mod laws;

use crate::config::LsmliteConfig;
use crate::database::inner::{is_next_read, LsmliteInner, ReadStep, WriteStep};
use crate::error::SSTableError;
use crate::memtable::record::{record_fits, RecordView};
use crate::memtable::Blob;
use crate::sstable::{tables_wf, SSTable};
use vstd::prelude::*;

verus! {

/// A database, of which users get three statements: read, write and delete.
#[derive(Debug)]
pub struct LsmLite {
    pub inner: LsmliteInner,
}

impl LsmLite {
    /// The database with the given SSTables, newest first, and the memtables that the
    /// given logs make, oldest first. The last log is that of the active memtable.
    pub fn new(
        sstable_files: Vec<SSTable>,
        wal_files: Vec<Blob>,
        config: &LsmliteConfig,
    ) -> (db: LsmLite)
        requires
            tables_wf(sstable_files@),
        ensures
            db.inner.wf(),
            !db.inner.poisoned,
            db.inner.sstable_cache.tables@ == sstable_files@,
            db.inner.sstable_cache.compaction_rate == config.compaction_rate as usize,
            db.inner.is_replay_of(
                wal_files@.map_values(|wal: Blob| wal@),
                config.max_memtable_size as usize,
                config.max_memtable_nodes as usize,
            ),
            db.inner.memtable.inner.max_size == config.max_memtable_size as usize,
            db.inner.memtable.inner.max_nodes == config.max_memtable_nodes as usize,
            forall|i: int|
                0 <= i < db.inner.immutable.tables@.len() ==> (
                #[trigger] db.inner.immutable.tables@[i]).max_size == config.max_memtable_size as usize
                    && db.inner.immutable.tables@[i].max_nodes == config.max_memtable_nodes as usize,
    {
        LsmLite { inner: LsmliteInner::new(sstable_files, wal_files, config) }
    }

    /// Sets `key` to `value`.
    pub fn set(&mut self, key: Blob, value: Blob) -> (step: WriteStep)
        requires
            old(self).inner.wf(),
            !old(self).inner.poisoned,
            record_fits(key@, Some(value@)),
        ensures
            final(self).inner.wf(),
            final(self).inner.takes_write(
                &old(self).inner,
                RecordView { key: key@, value: Some(value@) },
                step,
            ),
            step.signal is Some <==> old(self).inner.memtable.inner.max_nodes <= old(self).inner.memtable.entries().len()
                || old(self).inner.memtable.inner.max_size <= old(self).inner.memtable.inner.size,
    {
        self.inner.set(key, value)
    }

    /// Starts a read of `key`.
    pub fn get(&self, key: &[u8]) -> (step: ReadStep)
        requires
            self.inner.wf(),
            !self.inner.poisoned,
        ensures
            self.inner.is_first_read(key@, step),
    {
        self.inner.get(key)
    }

    /// Goes on with a read of `key` after SSTable `table` gave `result`.
    pub fn resume_get(
        &self,
        key: &[u8],
        table: usize,
        result: Result<Blob, SSTableError>,
    ) -> (step: ReadStep)
        requires
            self.inner.wf(),
            table < self.inner.sstable_cache.tables.len(),
        ensures
            match result {
                Ok(value) => step == ReadStep::Done(Some(value)),
                Err(SSTableError::Tombstone) => step == ReadStep::Done(None),
                Err(_) => is_next_read(self.inner.sstable_cache, key@, table + 1, step),
            },
    {
        self.inner.resume_get(key, table, result)
    }

    /// Deletes `key`.
    pub fn delete(&mut self, key: Blob) -> (step: WriteStep)
        requires
            old(self).inner.wf(),
            !old(self).inner.poisoned,
            record_fits(key@, None),
        ensures
            final(self).inner.wf(),
            final(self).inner.takes_write(
                &old(self).inner,
                RecordView { key: key@, value: None },
                step,
            ),
            step.signal is Some <==> old(self).inner.memtable.inner.max_nodes <= old(self).inner.memtable.entries().len()
                || old(self).inner.memtable.inner.max_size <= old(self).inner.memtable.inner.size,
    {
        self.inner.delete(key)
    }
}

} // verus!
