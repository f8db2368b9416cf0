//! One memtable: a red-black tree of records in an arena.
use crate::disk::decode;
use crate::disk::log::{log_bytes, log_records};
use crate::error::MemtableError;
use crate::memtable::balance::{insert_at, records_wf};
use crate::memtable::entries::{
    find, key_sorted, lemma_replayed, lemma_split, lemma_upsert, replayed, upsert,
};
use crate::memtable::record::{record_bytes, record_fits, Record, RecordView};
use crate::memtable::tree::{
    balanced, black_height, height, inorder, is_red, join, lemma_disjoint, lemma_height,
    lemma_inorder_contains, lemma_shape_frame, lemma_shape_in_arena, lemma_sorted_no_duplicates,
    lemma_tree_at, no_red_red, records_at, shape, tree_at, Color, MemtableNode, Tree,
};
use crate::memtable::Blob;
use crate::util;
use crate::util::{capped, KeyOrder};
use vstd::arithmetic::power2::{lemma_pow2_strictly_increases, pow2};
use vstd::prelude::*;

verus! {

/// What a memtable says of a key.
#[derive(Debug, PartialEq, Eq)]
pub enum MemtableQuery {
    Data(Blob),
    Tombstone,
    NotFound,
}

/// What the background task that writes memtables to disk is told.
#[derive(Clone, Copy, Debug, PartialEq, Eq, Structural)]
pub enum MemtableFlushSignal {
    Flush,
    Shutdown,
}

impl MemtableQuery {
    /// The answer, as [`find`] gives it.
    pub open spec fn answer(&self) -> Option<Option<Seq<u8>>> {
        match self {
            MemtableQuery::Data(value) => Some(Some(value@)),
            MemtableQuery::Tombstone => Some(None),
            MemtableQuery::NotFound => None,
        }
    }
}

/// The records of one table, in the order of their keys, with the bounds that make
/// the table full.
#[derive(Debug)]
pub struct MemtableInner {
    pub arena: Vec<MemtableNode>,
    pub root_node: Option<usize>,
    /// Bytes of all records written to the table, up to `usize::MAX`.
    pub size: usize,
    pub max_size: usize,
    pub max_nodes: usize,
}

impl MemtableInner {
    /// The tree that the arena holds.
    pub open spec fn tree(&self) -> Tree {
        tree_at(self.arena@, self.root_node)
    }

    /// The records, in the order of their keys.
    pub open spec fn entries(&self) -> Seq<RecordView> {
        records_at(self.arena@, inorder(self.tree()))
    }

    /// The arena holds a red-black tree, sorted by key, of all its nodes.
    pub open spec fn wf(&self) -> bool {
        &&& shape(self.arena@, self.root_node, self.tree())
        &&& inorder(self.tree()).len() == self.arena@.len()
        &&& records_wf(self.arena@)
        &&& key_sorted(self.entries())
        &&& no_red_red(self.tree())
        &&& !is_red(self.tree())
        &&& balanced(self.tree())
    }

    /// The table takes no more writes.
    pub open spec fn full(&self) -> bool {
        self.entries().len() >= self.max_nodes || self.size >= self.max_size
    }

    /// The table is empty and has the given bounds.
    pub open spec fn is_fresh(&self, max_size: usize, max_nodes: usize) -> bool {
        &&& self.entries() == Seq::<RecordView>::empty()
        &&& self.size == 0
        &&& self.max_size == max_size
        &&& self.max_nodes == max_nodes
    }

    /// The table holds what the records of a log make, and has the given bounds.
    pub open spec fn is_replay_of(&self, wal: Seq<u8>, max_size: usize, max_nodes: usize) -> bool {
        &&& self.entries() == replayed(Seq::empty(), log_records(wal, 0))
        &&& self.size == capped(log_bytes(log_records(wal, 0)).len())
        &&& self.max_size == max_size
        &&& self.max_nodes == max_nodes
    }

    /// An empty table that is full at `max_size` bytes written or `max_nodes` keys.
    pub fn new(max_size: usize, max_nodes: usize) -> (table: MemtableInner)
        ensures
            table.wf(),
            table.is_fresh(max_size, max_nodes),
            table.entries() == Seq::<RecordView>::empty(),
            table.size == 0,
            table.max_size == max_size,
            table.max_nodes == max_nodes,
    {
        let table = MemtableInner {
            arena: Vec::new(),
            root_node: None,
            size: 0,
            max_size,
            max_nodes,
        };
        proof {
            lemma_tree_at(table.arena@, table.root_node, Tree::Leaf);
        }
        assert(inorder(Tree::Leaf) =~= Seq::<nat>::empty());
        assert(table.entries() =~= Seq::<RecordView>::empty());
        table
    }

    /// Whether the table takes no more writes.
    pub fn is_full(&self) -> (full: bool)
        requires
            self.wf(),
        ensures
            full == self.full(),
            full <==> self.max_nodes <= self.entries().len() || self.max_size <= self.size,
    {
        self.arena.len() >= self.max_nodes || self.size >= self.max_size
    }

    /// Writes a value, if the table is not full.
    pub fn insert_data_record(&mut self, key: Blob, value: Blob) -> (result: Result<
        (),
        MemtableError,
    >)
        requires
            old(self).wf(),
            record_fits(key@, Some(value@)),
        ensures
            final(self).wf(),
            match result {
                Ok(()) => !old(self).full() && final(self).takes_over(
                    old(self),
                    RecordView { key: key@, value: Some(value@) },
                ),
                Err(MemtableError::TableFull(k, v)) => old(self).full() && *final(self) == *old(
                    self,
                ) && k == key && v == Some(value),
            },
            result is Ok <==> old(self).entries().len() < old(self).max_nodes && old(self).size < old(
                self,
            ).max_size,
            result is Err ==> *final(self) == *old(self),
            final(self).max_size == old(self).max_size,
            final(self).max_nodes == old(self).max_nodes,
            result is Ok ==> forall|k: Seq<u8>| #[trigger]
                find(final(self).entries(), k) == if k == key@ {
                    Some(Some(value@))
                } else {
                    find(old(self).entries(), k)
                },
    {
        proof {
            lemma_upsert(self.entries(), RecordView { key: key@, value: Some(value@) });
        }

        if self.is_full() {
            return Err(MemtableError::TableFull(key, Some(value)));
        }
        self.insert_record(Record::new_data_record(key, value));
        Ok(())
    }

    /// Writes a tombstone, if the table is not full.
    pub fn insert_tombstone_record(&mut self, key: Blob) -> (result: Result<(), MemtableError>)
        requires
            old(self).wf(),
            record_fits(key@, None),
        ensures
            final(self).wf(),
            match result {
                Ok(()) => !old(self).full() && final(self).takes_over(
                    old(self),
                    RecordView { key: key@, value: None },
                ),
                Err(MemtableError::TableFull(k, v)) => old(self).full() && *final(self) == *old(
                    self,
                ) && k == key && v is None,
            },
            result is Ok <==> old(self).entries().len() < old(self).max_nodes && old(self).size < old(
                self,
            ).max_size,
            result is Err ==> *final(self) == *old(self),
            final(self).max_size == old(self).max_size,
            final(self).max_nodes == old(self).max_nodes,
            result is Ok ==> forall|k: Seq<u8>| #[trigger]
                find(final(self).entries(), k) == if k == key@ {
                    Some(None::<Seq<u8>>)
                } else {
                    find(old(self).entries(), k)
                },
    {
        proof {
            lemma_upsert(self.entries(), RecordView { key: key@, value: None });
        }

        if self.is_full() {
            return Err(MemtableError::TableFull(key, None));
        }
        self.insert_record(Record::new_tombstone_record(key));
        Ok(())
    }

    /// This table is `before` with `record` written to it.
    pub open spec fn takes_over(&self, before: &MemtableInner, record: RecordView) -> bool {
        &&& self.entries() == upsert(before.entries(), record)
        &&& self.size == capped(before.size as nat + record_bytes(record.key, record.value).len())
        &&& self.max_size == before.max_size
        &&& self.max_nodes == before.max_nodes
    }

    /// Writes a record, full or not.
    pub fn insert_record(&mut self, record: Record)
        requires
            old(self).wf(),
            record.wf(),
        ensures
            final(self).wf(),
            final(self).takes_over(old(self), record@),
    {
        let ghost before = self.arena@;
        let ghost view = record@;
        let added: usize = record.size();
        let root_node = self.root_node;
        let ghost tree = self.tree();
        proof {
            lemma_upsert(self.entries(), view);
        }
        let (root, Ghost(grown)) = insert_at(&mut self.arena, root_node, record, Ghost(tree));
        let ghost middle = self.arena@;
        let ghost left = *grown->left;
        let ghost right = *grown->right;
        let ghost painted = join(left, root as nat, Color::Black, right);
        assert(grown->at == root);
        self.arena[root].color = Color::Black;
        self.root_node = Some(root);
        self.size = self.size.saturating_add(added);
        proof {
            assert(inorder(painted) == inorder(grown)) by {
                assert(inorder(grown) == inorder(left) + seq![root as nat] + inorder(right));
            }
            lemma_inorder_contains(grown);
            lemma_shape_in_arena(middle, Some(root), grown);
            lemma_sorted_no_duplicates(middle, inorder(grown));
            lemma_disjoint(inorder(left), root as nat, inorder(right));
            lemma_shape_frame(middle, self.arena@, middle[root as int].left, left);
            lemma_shape_frame(middle, self.arena@, middle[root as int].right, right);
            lemma_tree_at(self.arena@, self.root_node, painted);
            assert(self.entries() =~= records_at(middle, inorder(grown))) by {
                assert forall|i: int| 0 <= i < inorder(grown).len() implies self.entries()[i]
                    == records_at(middle, inorder(grown))[i] by {
                    assert(inorder(grown).contains(inorder(grown)[i]));
                }
            }
            assert forall|i: int| 0 <= i < self.arena@.len() implies (
            #[trigger] self.arena@[i]).record.wf() by {
                assert(middle[i].record.wf());
            }
        }
    }

    /// The table that the records of a write-ahead log make, written one after the
    /// other. The log ends where no whole record stands.
    pub fn new_from_wal(wal: &[u8], max_size: usize, max_nodes: usize) -> (table: MemtableInner)
        ensures
            table.wf(),
            table.is_replay_of(wal@, max_size, max_nodes),
            table.entries() == replayed(Seq::empty(), log_records(wal@, 0)),
            table.max_size == max_size,
            table.max_nodes == max_nodes,
    {
        let mut table = MemtableInner::new(max_size, max_nodes);
        table.replay(wal);
        table
    }

    /// Writes the records of a log, one after the other, full or not.
    pub fn replay(&mut self, wal: &[u8])
        requires
            old(self).wf(),
        ensures
            final(self).wf(),
            final(self).entries() == replayed(old(self).entries(), log_records(wal@, 0)),
            final(self).size == capped(
                old(self).size as nat + log_bytes(log_records(wal@, 0)).len(),
            ),
            final(self).max_size == old(self).max_size,
            final(self).max_nodes == old(self).max_nodes,
    {
        let mut offset: usize = 0;
        let ghost mut done = Seq::<RecordView>::empty();
        assert(done + log_records(wal@, 0) =~= log_records(wal@, 0));
        while decode::has_record(wal, offset)
            invariant
                self.wf(),
                self.max_size == old(self).max_size,
                self.max_nodes == old(self).max_nodes,
                offset <= wal.len(),
                self.entries() == replayed(old(self).entries(), done),
                self.size == capped(old(self).size as nat + log_bytes(done).len()),
                done + log_records(wal@, offset as int) == log_records(wal@, 0),
            decreases wal.len() - offset,
        {
            let ghost at = offset as int;
            proof {
                decode::lemma_record_layout_bounds(wal@, at);
                decode::lemma_encoding_fits(wal@, at);
            }
            let record = decode::decode_disk_record(wal, &mut offset).unwrap();
            let ghost view = record@;
            let key = record.copy_key();
            match record.copy_value() {
                Some(value) => self.insert_record(Record::new_data_record(key, value)),
                None => self.insert_record(Record::new_tombstone_record(key)),
            }
            proof {
                let more = done.push(view);
                assert(more.drop_last() =~= done);
                assert(more + log_records(wal@, offset as int) =~= done + (seq![view]
                    + log_records(wal@, offset as int)));
                done = more;
            }
        }
        assert(done =~= log_records(wal@, 0));
    }

    /// What the table says of `key`.
    pub fn get(&self, key: &[u8]) -> (query: MemtableQuery)
        requires
            self.wf(),
        ensures
            query.answer() == find(self.entries(), key@),
            match query {
                MemtableQuery::Data(value) => find(self.entries(), key@) == Some(Some(value@)),
                MemtableQuery::Tombstone => find(self.entries(), key@) == Some(None::<Seq<u8>>),
                MemtableQuery::NotFound => find(self.entries(), key@) is None,
            },
    {
        let mut link: Option<usize> = self.root_node;
        let ghost mut tree = self.tree();
        while link.is_some()
            invariant
                self.wf(),
                shape(self.arena@, link, tree),
                key_sorted(records_at(self.arena@, inorder(tree))),
                find(self.entries(), key@) == find(records_at(self.arena@, inorder(tree)), key@),
            decreases tree,
        {
            let i: usize = link.unwrap();
            let ghost left = *tree->left;
            let ghost right = *tree->right;
            let ghost mid = self.arena@[i as int].record@;
            proof {
                let left_entries = records_at(self.arena@, inorder(left));
                let right_entries = records_at(self.arena@, inorder(right));
                assert(records_at(self.arena@, inorder(tree)) =~= left_entries + seq![mid]
                    + right_entries);
                lemma_split(
                    left_entries,
                    mid,
                    right_entries,
                    RecordView { key: key@, value: None },
                );
                util::lemma_bytes_lt_total(key@, mid.key);
            }
            let node = &self.arena[i];
            match util::key_order(key, node.record.key()) {
                KeyOrder::Equal => {
                    return match node.record.copy_value() {
                        Some(value) => MemtableQuery::Data(value),
                        None => MemtableQuery::Tombstone,
                    };
                },
                KeyOrder::Less => {
                    link = node.left;
                    proof {
                        tree = left;
                    }
                },
                KeyOrder::Greater => {
                    link = node.right;
                    proof {
                        tree = right;
                    }
                },
            }
        }
        MemtableQuery::NotFound
    }
}

/// What a write does to a table: it says of the key what was written and of every other
/// key what it said before, it has one key more where it said nothing of the key, its
/// size grows by the length of the record, and its bounds stay.
pub proof fn lemma_takes_over(before: MemtableInner, after: MemtableInner, record: RecordView)
    requires
        before.wf(),
        after.takes_over(&before, record),
    ensures
        forall|key: Seq<u8>| #[trigger]
            find(after.entries(), key) == if key == record.key {
                Some(record.value)
            } else {
                find(before.entries(), key)
            },
        after.entries().len() == before.entries().len() + if find(
            before.entries(),
            record.key,
        ) is None {
            1int
        } else {
            0
        },
        before.size + record_bytes(record.key, record.value).len() <= usize::MAX ==> after.size
            == before.size + record_bytes(record.key, record.value).len(),
        before.size + record_bytes(record.key, record.value).len() > usize::MAX ==> after.size
            == usize::MAX,
        after.max_size == before.max_size,
        after.max_nodes == before.max_nodes,
{
    lemma_upsert(before.entries(), record);
}

/// A table is full at as many keys as its bound, or at as many bytes written as its
/// other bound, and not before.
pub proof fn lemma_full(table: MemtableInner)
    ensures
        table.max_nodes <= table.entries().len() ==> table.full(),
        table.max_size <= table.size ==> table.full(),
        table.entries().len() < table.max_nodes && table.size < table.max_size ==> !table.full(),
{
}

/// A table made from a log says of a key what the last record of the log says of it, and
/// its size is that of all records, as if they had been written one by one.
pub proof fn lemma_replay(table: MemtableInner, wal: Seq<u8>, max_size: usize, max_nodes: usize)
    requires
        table.is_replay_of(wal, max_size, max_nodes),
    ensures
        forall|key: Seq<u8>| #[trigger]
            find(table.entries(), key) == find(log_records(wal, 0), key),
        log_bytes(log_records(wal, 0)).len() <= usize::MAX ==> table.size == log_bytes(
            log_records(wal, 0),
        ).len(),
        table.max_size == max_size,
        table.max_nodes == max_nodes,
{
    lemma_replayed(Seq::empty(), log_records(wal, 0));
}

/// The way down a table to any record is short: twice the binary logarithm of the number
/// of its records at most.
pub proof fn lemma_table_height(table: MemtableInner)
    requires
        table.wf(),
    ensures
        pow2(height(table.tree()) / 2) <= table.entries().len() + 1,
{
    let tree = table.tree();
    lemma_height(tree);
    let half = height(tree) / 2;
    if half < black_height(tree) {
        lemma_pow2_strictly_increases(half, black_height(tree));
    }
}

} // verus!
