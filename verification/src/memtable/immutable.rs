//! The memtables that wait to be written to disk.
use crate::config::LsmliteConfig;
use crate::memtable::entries::find;
use crate::memtable::inner::{MemtableInner, MemtableQuery};
use crate::memtable::record::RecordView;
use crate::memtable::Blob;
use vstd::prelude::*;

verus! {

/// What tables, oldest first, say of `key`: what the newest says that says anything.
pub open spec fn newest_answer(tables: Seq<Seq<RecordView>>, key: Seq<u8>) -> Option<
    Option<Seq<u8>>,
>
    decreases tables.len(),
{
    if tables.len() == 0 {
        None
    } else {
        match find(tables.last(), key) {
            Some(answer) => Some(answer),
            None => newest_answer(tables.drop_last(), key),
        }
    }
}

/// Table `i` says something of `key`, and no newer one does.
pub open spec fn is_newest_for(tables: Seq<Seq<RecordView>>, key: Seq<u8>, i: int) -> bool {
    &&& 0 <= i < tables.len()
    &&& find(tables[i], key) is Some
    &&& forall|j: int| i < j < tables.len() ==> find(#[trigger] tables[j], key) is None
}

/// What tables say of a key is what the newest says that says anything, a tombstone
/// too; they say nothing if and only if none does.
pub proof fn lemma_newest_answer(tables: Seq<Seq<RecordView>>, key: Seq<u8>)
    ensures
        forall|i: int| #[trigger]
            is_newest_for(tables, key, i) ==> newest_answer(tables, key) == find(tables[i], key),
        newest_answer(tables, key) is None <==> forall|i: int|
            0 <= i < tables.len() ==> find(#[trigger] tables[i], key) is None,
    decreases tables.len(),
{
    if tables.len() > 0 {
        let front = tables.drop_last();
        let n = tables.len() - 1;
        lemma_newest_answer(front, key);
        assert forall|i: int| #[trigger] is_newest_for(tables, key, i) implies newest_answer(
            tables,
            key,
        ) == find(tables[i], key) by {
            if i < n {
                assert(find(tables[n], key) is None);
                assert forall|j: int| i < j < front.len() implies find(#[trigger] front[j], key)
                    is None by {
                    assert(find(tables[j], key) is None);
                }
                assert(is_newest_for(front, key, i));
            }
        }
        if newest_answer(tables, key) is None {
            assert forall|i: int| 0 <= i < tables.len() implies find(#[trigger] tables[i], key)
                is None by {
                if i < n {
                    assert(find(front[i], key) is None);
                }
            }
        } else if find(tables[n], key) is None {
            let i = choose|i: int| 0 <= i < front.len() && find(#[trigger] front[i], key) is Some;
            assert(find(tables[i], key) is Some);
        }
    }
}

/// The memtables that take no more writes and are not yet on disk, oldest first.
#[derive(Debug)]
pub struct ImmutableMemtable {
    pub tables: Vec<MemtableInner>,
}

impl ImmutableMemtable {
    /// The records of the tables, oldest table first.
    pub open spec fn entries(&self) -> Seq<Seq<RecordView>> {
        self.tables@.map_values(|table: MemtableInner| table.entries())
    }

    pub open spec fn wf(&self) -> bool {
        forall|i: int| 0 <= i < self.tables@.len() ==> (#[trigger] self.tables@[i]).wf()
    }

    /// The tables that the given logs make, oldest log first.
    pub fn new(wal_files: Vec<Blob>, config: &LsmliteConfig) -> (immutable: ImmutableMemtable)
        ensures
            immutable.wf(),
            immutable.tables@.len() == wal_files@.len(),
            forall|i: int|
                0 <= i < wal_files@.len() ==> (#[trigger] immutable.tables@[i]).is_replay_of(
                    wal_files@[i]@,
                    config.max_memtable_size as usize,
                    config.max_memtable_nodes as usize,
                ),
            forall|i: int|
                0 <= i < wal_files@.len() ==> (#[trigger] immutable.tables@[i]).max_size
                    == config.max_memtable_size as usize && immutable.tables@[i].max_nodes
                    == config.max_memtable_nodes as usize,
    {
        let mut tables: Vec<MemtableInner> = Vec::with_capacity(wal_files.len());
        let mut i: usize = 0;
        while i < wal_files.len()
            invariant
                i <= wal_files@.len(),
                tables@.len() == i,
                forall|n: int| 0 <= n < i ==> (#[trigger] tables@[n]).wf(),
                forall|n: int|
                    0 <= n < i ==> (#[trigger] tables@[n]).is_replay_of(
                        wal_files@[n]@,
                        config.max_memtable_size as usize,
                        config.max_memtable_nodes as usize,
                    ),
            decreases wal_files@.len() - i,
        {
            tables.push(
                MemtableInner::new_from_wal(
                    wal_files[i].as_slice(),
                    config.max_memtable_size as usize,
                    config.max_memtable_nodes as usize,
                ),
            );
            i = i + 1;
        }
        ImmutableMemtable { tables }
    }

    /// Adds the newest table.
    pub fn insert(&mut self, full_table: MemtableInner)
        requires
            old(self).wf(),
            full_table.wf(),
        ensures
            final(self).wf(),
            final(self).tables@ == old(self).tables@.push(full_table),
    {
        self.tables.push(full_table);
    }

    /// What the tables say of `key`, newest first.
    pub fn get(&self, key: &[u8]) -> (query: MemtableQuery)
        requires
            self.wf(),
        ensures
            query.answer() == newest_answer(self.entries(), key@),
            match query {
                MemtableQuery::Data(value) => newest_answer(self.entries(), key@) == Some(
                    Some(value@),
                ),
                MemtableQuery::Tombstone => newest_answer(self.entries(), key@) == Some(
                    None::<Seq<u8>>,
                ),
                MemtableQuery::NotFound => newest_answer(self.entries(), key@) is None,
            },
    {
        let mut i: usize = self.tables.len();
        assert(self.entries().take(i as int) =~= self.entries());
        while i > 0
            invariant
                self.wf(),
                i <= self.tables@.len(),
                newest_answer(self.entries(), key@) == newest_answer(
                    self.entries().take(i as int),
                    key@,
                ),
            decreases i,
        {
            let query = self.tables[i - 1].get(key);
            let ghost front = self.entries().take(i as int);
            assert(front.last() == self.tables@[i - 1].entries());
            assert(front.drop_last() =~= self.entries().take(i - 1));
            match query {
                MemtableQuery::NotFound => {},
                _ => {
                    return query;
                },
            }
            i = i - 1;
        }
        MemtableQuery::NotFound
    }

    /// The table to write to disk next.
    pub fn oldest(&self) -> (table: Option<&MemtableInner>)
        ensures
            match table {
                Some(table) => self.tables@.len() > 0 && *table == self.tables@[0],
                None => self.tables@.len() == 0,
            },
    {
        if self.tables.len() == 0 {
            None
        } else {
            Some(&self.tables[0])
        }
    }

    /// Drops the oldest table, once it can be read from disk.
    pub fn remove_oldest(&mut self)
        requires
            old(self).wf(),
        ensures
            final(self).wf(),
            final(self).tables@ == if old(self).tables@.len() == 0 {
                old(self).tables@
            } else {
                old(self).tables@.skip(1)
            },
    {
        if self.tables.len() > 0 {
            self.tables.remove(0);
            assert(self.tables@ =~= old(self).tables@.skip(1));
        }
    }
}

} // verus!
