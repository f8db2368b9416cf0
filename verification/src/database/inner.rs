//! The database: memtables in front of SSTables.
use crate::config::LsmliteConfig;
use crate::error::{MemtableError, SSTableError};
use crate::memtable::entries::find;
use crate::memtable::immutable::{newest_answer, ImmutableMemtable};
use crate::memtable::inner::{MemtableFlushSignal, MemtableQuery};
use crate::memtable::record::{
    lemma_record_fits, record_bytes, record_fits, Record, RecordView,
};
use crate::memtable::{Blob, Memtable};
use crate::sstable::{
    is_next_step, tables_answer, tables_wf, SSTable, SSTableCache, SearchStep,
};
use vstd::prelude::*;

verus! {

/// What a read does next.
pub enum ReadStep {
    /// Read the bytes of the file of SSTable `table` from `offset` up to `end`, look
    /// the key up in them with [`crate::disk::read_data_block`], and go on with
    /// [`LsmliteInner::resume_get`].
    Read { table: usize, offset: u64, end: u64 },
    /// The read is over, with the value or without one.
    Done(Option<Blob>),
}

/// What a write leaves to be done on disk.
pub struct WriteStep {
    /// Where there is a signal, the memtable was rotated out: its log ends, a new log
    /// begins, and the flush task gets the signal.
    pub signal: Option<MemtableFlushSignal>,
    /// The bytes to append to the log.
    pub log: Blob,
}

/// The value that an answer shows: none for a tombstone.
pub open spec fn visible(answer: Option<Option<Seq<u8>>>) -> Option<Seq<u8>> {
    match answer {
        Some(value) => value,
        None => None,
    }
}

/// The memtable that a log makes, or an empty one.
fn construct_memtable(live_wal: Option<Blob>, config: &LsmliteConfig) -> (memtable: Memtable)
    ensures
        memtable.wf(),
        match live_wal {
            Some(wal) => memtable.inner.is_replay_of(
                wal@,
                config.max_memtable_size as usize,
                config.max_memtable_nodes as usize,
            ),
            None => memtable.inner.is_fresh(
                config.max_memtable_size as usize,
                config.max_memtable_nodes as usize,
            ),
        },
{
    match live_wal {
        Some(wal) => Memtable::new_from_wal(
            wal.as_slice(),
            config.max_memtable_size as usize,
            config.max_memtable_nodes as usize,
        ),
        None => Memtable::new(
            config.max_memtable_size as usize,
            config.max_memtable_nodes as usize,
        ),
    }
}

/// The cache of the SSTables found on disk, newest first.
fn construct_sstable_cache(sstable_files: Vec<SSTable>, config: &LsmliteConfig) -> (cache:
    SSTableCache)
    requires
        tables_wf(sstable_files@),
    ensures
        cache.wf(),
        cache.tables@ == sstable_files@,
        cache.compaction_rate == config.compaction_rate as usize,
{
    if sstable_files.is_empty() {
        assert(sstable_files@ =~= Seq::<SSTable>::empty());
        SSTableCache::new(config.compaction_rate as usize)
    } else {
        SSTableCache::from_restart(sstable_files, config.compaction_rate as usize)
    }
}

/// A database: the active memtable, the memtables that wait to be written to disk,
/// and the SSTables.
#[derive(Debug)]
pub struct LsmliteInner {
    pub memtable: Memtable,
    pub sstable_cache: SSTableCache,
    /// Set once a background task has failed. No read or write may follow.
    pub poisoned: bool,
    pub immutable: ImmutableMemtable,
}

impl LsmliteInner {
    pub open spec fn wf(&self) -> bool {
        &&& self.memtable.wf()
        &&& self.immutable.wf()
        &&& self.sstable_cache.wf()
    }

    /// What the memtables say of `key`: the active one, then the others, newest first.
    pub open spec fn memory_answer(&self, key: Seq<u8>) -> Option<Option<Seq<u8>>> {
        match find(self.memtable.entries(), key) {
            Some(answer) => Some(answer),
            None => newest_answer(self.immutable.entries(), key),
        }
    }

    /// What the database says of `key`, with the given files of its SSTables: what the
    /// newest table says that says anything.
    pub open spec fn answer(&self, files: Seq<Seq<u8>>, key: Seq<u8>) -> Option<Option<Seq<u8>>> {
        match self.memory_answer(key) {
            Some(answer) => Some(answer),
            None => tables_answer(self.sstable_cache.indexes(), files, key, 0),
        }
    }

    /// The value that the database holds for `key`.
    pub open spec fn value(&self, files: Seq<Seq<u8>>, key: Seq<u8>) -> Option<Seq<u8>> {
        visible(self.answer(files, key))
    }

    /// The memtables are those that the given logs make, oldest first. The last log is
    /// that of the active memtable.
    pub open spec fn is_replay_of(
        &self,
        logs: Seq<Seq<u8>>,
        max_size: usize,
        max_nodes: usize,
    ) -> bool {
        if logs.len() == 0 {
            &&& self.memtable.inner.is_fresh(max_size, max_nodes)
            &&& self.immutable.tables@.len() == 0
        } else {
            &&& self.memtable.inner.is_replay_of(logs.last(), max_size, max_nodes)
            &&& self.immutable.tables@.len() == logs.len() - 1
            &&& forall|i: int|
                0 <= i < logs.len() - 1 ==> (#[trigger] self.immutable.tables@[i]).is_replay_of(
                    logs[i],
                    max_size,
                    max_nodes,
                )
        }
    }

    /// The database with the given SSTables, newest first, and the memtables that the
    /// given logs make, oldest first. The last log is that of the active memtable.
    pub fn new(
        sstable_files: Vec<SSTable>,
        wal_files: Vec<Blob>,
        config: &LsmliteConfig,
    ) -> (db: LsmliteInner)
        requires
            tables_wf(sstable_files@),
        ensures
            db.wf(),
            !db.poisoned,
            db.sstable_cache.tables@ == sstable_files@,
            db.sstable_cache.compaction_rate == config.compaction_rate as usize,
            db.is_replay_of(
                wal_files@.map_values(|wal: Blob| wal@),
                config.max_memtable_size as usize,
                config.max_memtable_nodes as usize,
            ),
            db.memtable.inner.max_size == config.max_memtable_size as usize,
            db.memtable.inner.max_nodes == config.max_memtable_nodes as usize,
            forall|i: int|
                0 <= i < db.immutable.tables@.len() ==> (
                #[trigger] db.immutable.tables@[i]).max_size == config.max_memtable_size as usize
                    && db.immutable.tables@[i].max_nodes == config.max_memtable_nodes as usize,
    {
        let mut wal_files = wal_files;
        let memtable = construct_memtable(wal_files.pop(), config);
        let sstable_cache = construct_sstable_cache(sstable_files, config);
        let immutable = ImmutableMemtable::new(wal_files, config);
        LsmliteInner { memtable, sstable_cache, poisoned: false, immutable }
    }

    /// `step` is the first one of a read of `key`: what the memtables say, or the first
    /// step through the SSTables where they say nothing.
    pub open spec fn is_first_read(&self, key: Seq<u8>, step: ReadStep) -> bool {
        match self.memory_answer(key) {
            Some(Some(value)) => step matches ReadStep::Done(Some(blob)) && blob@ == value,
            Some(None) => step == ReadStep::Done(None),
            None => is_next_read(self.sstable_cache, key, 0, step),
        }
    }

    /// Starts a read of `key`: the active memtable is asked first, then the ones that
    /// wait to be written, then the SSTables.
    pub fn get(&self, key: &[u8]) -> (step: ReadStep)
        requires
            self.wf(),
            !self.poisoned,
        ensures
            self.is_first_read(key@, step),
    {
        match self.read_memtable(key) {
            MemtableQuery::Data(blob) => {
                return ReadStep::Done(Some(blob));
            },
            MemtableQuery::Tombstone => {
                return ReadStep::Done(None);
            },
            MemtableQuery::NotFound => {},
        }
        match self.read_immutable_table(key) {
            MemtableQuery::Data(blob) => {
                return ReadStep::Done(Some(blob));
            },
            MemtableQuery::Tombstone => {
                return ReadStep::Done(None);
            },
            MemtableQuery::NotFound => {},
        }
        read_step(self.sstable_cache.search(key))
    }

    /// Goes on with a read of `key` after SSTable `table` gave `result`.
    pub fn resume_get(
        &self,
        key: &[u8],
        table: usize,
        result: Result<Blob, SSTableError>,
    ) -> (step: ReadStep)
        requires
            self.wf(),
            table < self.sstable_cache.tables.len(),
        ensures
            match result {
                Ok(value) => step == ReadStep::Done(Some(value)),
                Err(SSTableError::Tombstone) => step == ReadStep::Done(None),
                Err(_) => is_next_read(self.sstable_cache, key@, table + 1, step),
            },
    {
        read_step(self.sstable_cache.resume(key, table, result))
    }

    fn read_memtable(&self, key: &[u8]) -> (query: MemtableQuery)
        requires
            self.wf(),
        ensures
            query.answer() == find(self.memtable.entries(), key@),
    {
        self.memtable.get(key)
    }

    fn read_immutable_table(&self, key: &[u8]) -> (query: MemtableQuery)
        requires
            self.wf(),
        ensures
            query.answer() == newest_answer(self.immutable.entries(), key@),
    {
        self.immutable.get(key)
    }

    /// `step` is what a write of `record` leaves to be done: a full memtable is rotated
    /// out first, and the record goes to the log. An empty memtable that is full already,
    /// because a bound of it is zero, takes nothing.
    pub open spec fn is_write_step(&self, record: RecordView, step: WriteStep) -> bool {
        let table = self.memtable.inner;
        &&& step.signal == if table.full() {
            Some(MemtableFlushSignal::Flush)
        } else {
            None
        }
        &&& step.log@ == if table.max_size > 0 && table.max_nodes > 0 {
            record_bytes(record.key, record.value)
        } else {
            Seq::<u8>::empty()
        }
    }

    /// This database is `before` with `record` written to it, and `step` is what that
    /// leaves to be done.
    pub open spec fn takes_write(
        &self,
        before: &LsmliteInner,
        record: RecordView,
        step: WriteStep,
    ) -> bool {
        let old_table = before.memtable.inner;
        let table = self.memtable.inner;
        &&& before.is_write_step(record, step)
        &&& self.sstable_cache == before.sstable_cache
        &&& self.poisoned == before.poisoned
        &&& if !old_table.full() {
            &&& table.takes_over(&old_table, record)
            &&& self.immutable == before.immutable
        } else {
            &&& self.immutable.tables@ == before.immutable.tables@.push(old_table)
            &&& table.max_size == old_table.max_size
            &&& table.max_nodes == old_table.max_nodes
            &&& table.size == step.log@.len()
            &&& table.entries() == if old_table.max_size > 0 && old_table.max_nodes > 0 {
                seq![record]
            } else {
                Seq::<RecordView>::empty()
            }
        }
    }

    /// What setting `key` to `value` will leave to be done, so that the log can take the
    /// write before the memtable does.
    pub fn plan_set(&self, key: &[u8], value: &[u8]) -> (step: WriteStep)
        requires
            self.wf(),
            record_fits(key@, Some(value@)),
        ensures
            self.is_write_step(RecordView { key: key@, value: Some(value@) }, step),
            step.signal is Some <==> self.memtable.inner.max_nodes <= self.memtable.entries().len()
                || self.memtable.inner.max_size <= self.memtable.inner.size,
    {
        let record = Record::new_data_record(
            vstd::slice::slice_to_vec(key),
            vstd::slice::slice_to_vec(value),
        );
        self.plan(record)
    }

    /// What deleting `key` will leave to be done, so that the log can take the tombstone
    /// before the memtable does.
    pub fn plan_delete(&self, key: &[u8]) -> (step: WriteStep)
        requires
            self.wf(),
            record_fits(key@, None),
        ensures
            self.is_write_step(RecordView { key: key@, value: None }, step),
            step.signal is Some <==> self.memtable.inner.max_nodes <= self.memtable.entries().len()
                || self.memtable.inner.max_size <= self.memtable.inner.size,
    {
        self.plan(Record::new_tombstone_record(vstd::slice::slice_to_vec(key)))
    }

    /// What a write of `record` will leave to be done.
    fn plan(&self, record: Record) -> (step: WriteStep)
        requires
            self.wf(),
            record.wf(),
        ensures
            self.is_write_step(record@, step),
    {
        let table = &self.memtable.inner;
        let signal = if table.is_full() {
            Some(MemtableFlushSignal::Flush)
        } else {
            None
        };
        let log: Blob = if table.max_size > 0 && table.max_nodes > 0 {
            record.take_blob()
        } else {
            Vec::new()
        };
        WriteStep { signal, log }
    }

    /// Deletes `key`, by a tombstone.
    pub fn delete(&mut self, key: Blob) -> (step: WriteStep)
        requires
            old(self).wf(),
            !old(self).poisoned,
            record_fits(key@, None),
        ensures
            final(self).wf(),
            final(self).takes_write(old(self), RecordView { key: key@, value: None }, step),
            step.signal is Some <==> old(self).memtable.inner.max_nodes <= old(self).memtable.entries().len()
                || old(self).memtable.inner.max_size <= old(self).memtable.inner.size,
    {
        proof {
            lemma_record_fits(key@, None);
        }
        match self.memtable.delete(key) {
            Ok(log) => WriteStep { signal: None, log },
            Err(MemtableError::TableFull(key, _)) => {
                let signal = self.rotate_table();
                let log: Blob = match self.memtable.delete(key) {
                    Ok(log) => log,
                    Err(_) => Vec::new(),
                };
                WriteStep { signal: Some(signal), log }
            },
        }
    }

    /// Sets `key` to `value`.
    pub fn set(&mut self, key: Blob, value: Blob) -> (step: WriteStep)
        requires
            old(self).wf(),
            !old(self).poisoned,
            record_fits(key@, Some(value@)),
        ensures
            final(self).wf(),
            final(self).takes_write(
                old(self),
                RecordView { key: key@, value: Some(value@) },
                step,
            ),
            step.signal is Some <==> old(self).memtable.inner.max_nodes <= old(self).memtable.entries().len()
                || old(self).memtable.inner.max_size <= old(self).memtable.inner.size,
    {
        proof {
            lemma_record_fits(key@, Some(value@));
        }
        match self.memtable.insert(key, value) {
            Ok(log) => WriteStep { signal: None, log },
            Err(MemtableError::TableFull(key, value)) => {
                let signal = self.rotate_table();
                let log: Blob = match value {
                    Some(blob) => match self.memtable.insert(key, blob) {
                        Ok(log) => log,
                        Err(_) => Vec::new(),
                    },
                    None => Vec::new(),
                };
                WriteStep { signal: Some(signal), log }
            },
        }
    }

    /// Puts the active memtable behind the ones that wait to be written, and an empty
    /// one in its place.
    fn rotate_table(&mut self) -> (signal: MemtableFlushSignal)
        requires
            old(self).wf(),
        ensures
            final(self).wf(),
            final(self).memtable.inner.is_fresh(
                old(self).memtable.inner.max_size,
                old(self).memtable.inner.max_nodes,
            ),
            final(self).immutable.tables@ == old(self).immutable.tables@.push(
                old(self).memtable.inner,
            ),
            final(self).sstable_cache == old(self).sstable_cache,
            final(self).poisoned == old(self).poisoned,
            signal == MemtableFlushSignal::Flush,
    {
        let full_table = self.memtable.rotate();
        self.immutable.insert(full_table);
        MemtableFlushSignal::Flush
    }

    /// The SSTable that the oldest waiting memtable was written to takes its place in
    /// the read path. Gives the number of SSTables.
    pub fn load_sstable(&mut self, table: SSTable) -> (tables: usize)
        requires
            old(self).wf(),
            table.wf(),
        ensures
            final(self).wf(),
            final(self).memtable == old(self).memtable,
            final(self).poisoned == old(self).poisoned,
            final(self).sstable_cache.tables@ == seq![table] + old(self).sstable_cache.tables@,
            final(self).sstable_cache.compaction_rate == old(self).sstable_cache.compaction_rate,
            final(self).immutable.tables@ == if old(self).immutable.tables@.len() == 0 {
                old(self).immutable.tables@
            } else {
                old(self).immutable.tables@.skip(1)
            },
            tables == final(self).sstable_cache.tables@.len(),
    {
        let tables: usize = self.sstable_cache.push(table);
        self.immutable.remove_oldest();
        tables
    }

    /// Whether reads and writes may go on.
    pub fn check_poison_flag(&self) -> (ok: bool)
        ensures
            ok == !self.poisoned,
    {
        !self.poisoned
    }

    /// Stops reads and writes, after a background task has failed.
    pub fn poison(&mut self)
        ensures
            *final(self) == (LsmliteInner { poisoned: true, ..*old(self) }),
    {
        self.poisoned = true;
    }
}

/// `step` is the next one of a read of `key` in the SSTables from table `first` on.
pub open spec fn is_next_read(
    cache: SSTableCache,
    key: Seq<u8>,
    first: int,
    step: ReadStep,
) -> bool {
    match step {
        ReadStep::Read { table, offset, end } => is_next_step(
            cache.indexes(),
            key,
            first,
            SearchStep::Read { table, offset, end },
        ),
        ReadStep::Done(value) => value is None && is_next_step(
            cache.indexes(),
            key,
            first,
            SearchStep::Done(Err(SSTableError::DiskRecordNotFound)),
        ),
    }
}

/// A step through the SSTables as a step of a read.
fn read_step(step: SearchStep) -> (read: ReadStep)
    ensures
        read == match step {
            SearchStep::Read { table, offset, end } => ReadStep::Read { table, offset, end },
            SearchStep::Done(Ok(value)) => ReadStep::Done(Some(value)),
            SearchStep::Done(Err(_)) => ReadStep::Done(None),
        },
{
    match step {
        SearchStep::Read { table, offset, end } => ReadStep::Read { table, offset, end },
        SearchStep::Done(Ok(value)) => ReadStep::Done(Some(value)),
        SearchStep::Done(Err(_)) => ReadStep::Done(None),
    }
}

} // verus!
