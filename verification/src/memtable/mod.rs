//! The in-memory tables that take the writes.
pub mod balance;
pub mod entries;
pub mod immutable;
pub mod inner;
pub mod record;
pub mod tree;

use crate::error::MemtableError;
use crate::memtable::entries::find;
use crate::memtable::inner::{MemtableInner, MemtableQuery};
use crate::memtable::record::{record_bytes, record_fits, Record, RecordView};
use vstd::prelude::*;

verus! {

/// Raw bytes: a key, a value, an encoded record or a file.
pub type Blob = Vec<u8>;

/// The active memtable. A write gives the bytes that its log has to take.
#[derive(Debug)]
pub struct Memtable {
    pub inner: MemtableInner,
}

impl Memtable {
    /// The records, in the order of their keys.
    pub open spec fn entries(&self) -> Seq<RecordView> {
        self.inner.entries()
    }

    pub open spec fn wf(&self) -> bool {
        self.inner.wf()
    }

    /// An empty table that is full at `max_size` bytes written or `max_nodes` keys.
    pub fn new(max_size: usize, max_nodes: usize) -> (table: Memtable)
        ensures
            table.wf(),
            table.inner.is_fresh(max_size, max_nodes),
            table.entries() == Seq::<RecordView>::empty(),
            table.inner.max_size == max_size,
            table.inner.max_nodes == max_nodes,
    {
        Memtable { inner: MemtableInner::new(max_size, max_nodes) }
    }

    /// The table that the records of a write-ahead log make.
    pub fn new_from_wal(wal: &[u8], max_size: usize, max_nodes: usize) -> (table: Memtable)
        ensures
            table.wf(),
            table.inner.is_replay_of(wal@, max_size, max_nodes),
            table.inner.max_size == max_size,
            table.inner.max_nodes == max_nodes,
    {
        Memtable { inner: MemtableInner::new_from_wal(wal, max_size, max_nodes) }
    }

    /// Writes a value, if the table is not full, and gives the record for the log.
    pub fn insert(&mut self, key: Blob, value: Blob) -> (result: Result<Blob, MemtableError>)
        requires
            old(self).wf(),
            record_fits(key@, Some(value@)),
        ensures
            final(self).wf(),
            match result {
                Ok(log) => {
                    &&& !old(self).inner.full()
                    &&& final(self).inner.takes_over(
                        &old(self).inner,
                        RecordView { key: key@, value: Some(value@) },
                    )
                    &&& log@ == record_bytes(key@, Some(value@))
                },
                Err(MemtableError::TableFull(k, v)) => old(self).inner.full() && *final(self)
                    == *old(self) && k == key && v == Some(value),
            },
            result is Ok <==> old(self).entries().len() < old(self).inner.max_nodes && old(
                self,
            ).inner.size < old(self).inner.max_size,
    {
        if self.inner.is_full() {
            return Err(MemtableError::TableFull(key, Some(value)));
        }
        let record = Record::new_data_record(key, value);
        let log = record.copy_record();
        self.inner.insert_record(record);
        Ok(log)
    }

    /// Writes a tombstone, if the table is not full, and gives the record for the log.
    pub fn delete(&mut self, key: Blob) -> (result: Result<Blob, MemtableError>)
        requires
            old(self).wf(),
            record_fits(key@, None),
        ensures
            final(self).wf(),
            match result {
                Ok(log) => {
                    &&& !old(self).inner.full()
                    &&& final(self).inner.takes_over(
                        &old(self).inner,
                        RecordView { key: key@, value: None },
                    )
                    &&& log@ == record_bytes(key@, None)
                },
                Err(MemtableError::TableFull(k, v)) => old(self).inner.full() && *final(self)
                    == *old(self) && k == key && v is None,
            },
            result is Ok <==> old(self).entries().len() < old(self).inner.max_nodes && old(
                self,
            ).inner.size < old(self).inner.max_size,
    {
        if self.inner.is_full() {
            return Err(MemtableError::TableFull(key, None));
        }
        let record = Record::new_tombstone_record(key);
        let log = record.copy_record();
        self.inner.insert_record(record);
        Ok(log)
    }

    /// What the table says of `key`.
    pub fn get(&self, key: &[u8]) -> (query: MemtableQuery)
        requires
            self.wf(),
        ensures
            query.answer() == find(self.entries(), key@),
            match query {
                MemtableQuery::Data(value) => find(self.entries(), key@) == Some(Some(value@)),
                MemtableQuery::Tombstone => find(self.entries(), key@) == Some(None::<Seq<u8>>),
                MemtableQuery::NotFound => find(self.entries(), key@) is None,
            },
    {
        self.inner.get(key)
    }

    /// Puts an empty table with the same bounds in the place of this one, and gives
    /// this one out.
    pub fn rotate(&mut self) -> (full_table: MemtableInner)
        ensures
            final(self).wf(),
            final(self).inner.is_fresh(old(self).inner.max_size, old(self).inner.max_nodes),
            full_table == old(self).inner,
            final(self).entries() == Seq::<RecordView>::empty(),
            final(self).inner.size == 0,
            final(self).inner.max_size == old(self).inner.max_size,
            final(self).inner.max_nodes == old(self).inner.max_nodes,
    {
        let mut table = MemtableInner::new(self.inner.max_size, self.inner.max_nodes);
        std::mem::swap(&mut self.inner, &mut table);
        table
    }
}

} // verus!
