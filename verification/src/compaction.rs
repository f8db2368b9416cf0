//! Merging SSTables into one.
use crate::constants;
use crate::disk::log;
use crate::disk::log::log_records;
use crate::memtable::entries::{
    find, key_sorted, lemma_find_witness, lemma_key_sorted_drop_last, lemma_replayed, replayed,
    upsert,
};
use crate::memtable::inner::MemtableInner;
use crate::memtable::record::{Record, RecordView};
use crate::memtable::tree::{inorder, lemma_inorder_parts, shape, Tree};
use crate::memtable::Blob;
use crate::ssindex::{index_in, IndexView};
use crate::sstable::encode::sstable_bytes;
use crate::sstable::roundtrip;
use crate::sstable::roundtrip::readable_back;
use crate::sstable::tables_answer;
use crate::util;
use crate::util::bytes_lt;
use vstd::prelude::*;

verus! {

/// The entries that are no tombstones.
pub open spec fn live(entries: Seq<RecordView>) -> Seq<RecordView>
    decreases entries.len(),
{
    if entries.len() == 0 {
        Seq::empty()
    } else if entries.last().value is Some {
        live(entries.drop_last()).push(entries.last())
    } else {
        live(entries.drop_last())
    }
}

/// What the data blocks from block `first` on hold together, newest first: the record
/// of the newer block stands where several have one for a key.
pub open spec fn merged(blocks: Seq<Seq<u8>>, first: int) -> Seq<RecordView>
    decreases blocks.len() - first,
{
    if first < 0 || first >= blocks.len() {
        Seq::empty()
    } else {
        replayed(merged(blocks, first + 1), log_records(blocks[first], 0))
    }
}

/// Leaving tombstones out keeps the order and the values.
pub proof fn lemma_live(entries: Seq<RecordView>)
    requires
        key_sorted(entries),
    ensures
        key_sorted(live(entries)),
        live(entries).len() <= entries.len(),
        forall|i: int|
            0 <= i < live(entries).len() ==> entries.contains(#[trigger] live(entries)[i]),
        forall|key: Seq<u8>| #[trigger]
            find(live(entries), key) == match find(entries, key) {
                Some(Some(value)) => Some(Some(value)),
                _ => None,
            },
    decreases entries.len(),
{
    if entries.len() > 0 {
        let front = entries.drop_last();
        let last = entries.last();
        let rest = live(front);
        lemma_key_sorted_drop_last(entries);
        lemma_live(front);
        let after = live(entries);
        assert forall|i: int| 0 <= i < after.len() implies entries.contains(
            #[trigger] after[i],
        ) by {
            if i < rest.len() {
                assert(front.contains(rest[i]));
                let j = choose|j: int| 0 <= j < front.len() && front[j] == rest[i];
                assert(entries[j] == rest[i]);
            } else {
                assert(entries[entries.len() - 1] == last);
            }
        }
        assert forall|i: int, j: int| 0 <= i < j < after.len() implies bytes_lt(
            (#[trigger] after[i]).key,
            (#[trigger] after[j]).key,
        ) by {
            assert(rest[i] == after[i]);
            if j < rest.len() {
                assert(rest[j] == after[j]);
            } else {
                assert(front.contains(rest[i]));
                let n = choose|n: int| 0 <= n < front.len() && front[n] == rest[i];
                assert(bytes_lt(entries[n].key, entries[entries.len() - 1].key));
            }
        }
        assert forall|key: Seq<u8>| #[trigger] find(after, key) == match find(entries, key) {
            Some(Some(value)) => Some(Some(value)),
            _ => None,
        } by {
            assert(find(rest, key) == match find(front, key) {
                Some(Some(value)) => Some(Some(value)),
                _ => None,
            });
            if last.value is Some {
                assert(after.drop_last() =~= rest);
            } else if key == last.key {
                if find(front, key) is Some {
                    let n = lemma_find_witness(front, key);
                    assert(bytes_lt(entries[n].key, entries[entries.len() - 1].key));
                    util::lemma_bytes_lt_total(entries[n].key, last.key);
                }
            }
        }
    }
}

/// Merged blocks are sorted, and the newest block with a record of a key says what
/// they say of it.
pub proof fn lemma_merged(blocks: Seq<Seq<u8>>, first: int)
    requires
        0 <= first <= blocks.len(),
    ensures
        key_sorted(merged(blocks, first)),
        first < blocks.len() ==> forall|key: Seq<u8>| #[trigger]
            find(merged(blocks, first), key) == match find(log_records(blocks[first], 0), key) {
                Some(answer) => Some(answer),
                None => find(merged(blocks, first + 1), key),
            },
    decreases blocks.len() - first,
{
    if first < blocks.len() {
        lemma_merged(blocks, first + 1);
        lemma_replayed(merged(blocks, first + 1), log_records(blocks[first], 0));
    }
}

/// Block `i` holds a record of `key`, and no newer block does.
pub open spec fn is_newest_block(blocks: Seq<Seq<u8>>, key: Seq<u8>, first: int, i: int) -> bool {
    &&& first <= i < blocks.len()
    &&& find(log_records(blocks[i], 0), key) is Some
    &&& forall|j: int|
        first <= j < i ==> find(log_records(#[trigger] blocks[j], 0), key) is None
}

proof fn lemma_newest_block(blocks: Seq<Seq<u8>>, key: Seq<u8>, first: int)
    requires
        0 <= first <= blocks.len(),
    ensures
        forall|i: int| #[trigger]
            is_newest_block(blocks, key, first, i) ==> find(merged(blocks, first), key) == find(
                log_records(blocks[i], 0),
                key,
            ),
        find(merged(blocks, first), key) is None <==> forall|i: int|
            first <= i < blocks.len() ==> find(log_records(#[trigger] blocks[i], 0), key) is None,
    decreases blocks.len() - first,
{
    if first < blocks.len() {
        lemma_newest_block(blocks, key, first + 1);
        lemma_merged(blocks, first);
        assert forall|i: int| #[trigger] is_newest_block(blocks, key, first, i) implies find(
            merged(blocks, first),
            key,
        ) == find(log_records(blocks[i], 0), key) by {
            if i > first {
                assert(find(log_records(blocks[first], 0), key) is None);
                assert(is_newest_block(blocks, key, first + 1, i));
            }
        }
    }
}

/// What compaction keeps: of every key the last record of the newest block that has one,
/// if it is a value, and nothing of keys that were deleted or never written. The keys
/// are in order.
pub proof fn lemma_compacted(blocks: Seq<Seq<u8>>, key: Seq<u8>)
    ensures
        key_sorted(live(merged(blocks, 0))),
        forall|i: int| #[trigger]
            is_newest_block(blocks, key, 0, i) ==> find(live(merged(blocks, 0)), key) == match find(
                log_records(blocks[i], 0),
                key,
            ) {
                Some(Some(value)) => Some(Some(value)),
                _ => None,
            },
        (forall|i: int|
            0 <= i < blocks.len() ==> find(log_records(#[trigger] blocks[i], 0), key) is None)
            ==> find(live(merged(blocks, 0)), key) is None,
        forall|i: int|
            0 <= i < live(merged(blocks, 0)).len() ==> (#[trigger] live(
                merged(blocks, 0),
            )[i]).value is Some,
{
    lemma_merged(blocks, 0);
    lemma_live(merged(blocks, 0));
    lemma_newest_block(blocks, key, 0);
    lemma_live_values(merged(blocks, 0));
}

proof fn lemma_live_values(entries: Seq<RecordView>)
    ensures
        forall|i: int|
            0 <= i < live(entries).len() ==> (#[trigger] live(entries)[i]).value is Some,
    decreases entries.len(),
{
    if entries.len() > 0 {
        lemma_live_values(entries.drop_last());
    }
}

/// Putting in a record behind all others.
proof fn lemma_upsert_behind(entries: Seq<RecordView>, record: RecordView)
    requires
        forall|i: int| 0 <= i < entries.len() ==> bytes_lt((#[trigger] entries[i]).key, record.key),
    ensures
        upsert(entries, record) == entries.push(record),
{
    if entries.len() > 0 {
        assert(bytes_lt(entries[entries.len() - 1].key, record.key));
        util::lemma_bytes_lt_total(entries.last().key, record.key);
    } else {
        assert(entries.push(record) =~= seq![record]);
    }
}

/// Merges the data blocks of SSTables, newest first. Newer records take the place of
/// older ones, and tombstones are left out.
pub fn compact(blocks: &Vec<Blob>) -> (table: MemtableInner)
    ensures
        table.wf(),
        table.entries() == live(merged(blocks@.map_values(|block: Blob| block@), 0)),
{
    let ghost views = blocks@.map_values(|block: Blob| block@);
    let mut all = MemtableInner::new(usize::MAX, usize::MAX);
    let mut i: usize = blocks.len();
    while i > 0
        invariant
            all.wf(),
            i <= blocks@.len(),
            views == blocks@.map_values(|block: Blob| block@),
            all.entries() == merged(views, i as int),
        decreases i,
    {
        i = i - 1;
        all.replay(blocks[i].as_slice());
    }
    let mut table = MemtableInner::new(usize::MAX, usize::MAX);
    proof {
        let order = inorder(all.tree());
        assert(order.subrange(0, order.len() as int) =~= order);
        assert(all.entries().take(0) =~= Seq::<RecordView>::empty());
    }
    inorder_live(&all, all.root_node, &mut table, Ghost(all.tree()), Ghost(0));
    assert(all.entries().take(all.entries().len() as int) =~= all.entries());
    table
}

/// Puts the records of a subtree into `table` in the order of their keys, without the
/// tombstones.
fn inorder_live(
    all: &MemtableInner,
    node_idx_opt: Option<usize>,
    table: &mut MemtableInner,
    Ghost(tree): Ghost<Tree>,
    Ghost(first): Ghost<int>,
)
    requires
        all.wf(),
        shape(all.arena@, node_idx_opt, tree),
        0 <= first,
        first + inorder(tree).len() <= inorder(all.tree()).len(),
        inorder(all.tree()).subrange(first, first + inorder(tree).len()) == inorder(tree),
        old(table).wf(),
        old(table).entries() == live(all.entries().take(first)),
    ensures
        final(table).wf(),
        final(table).entries() == live(all.entries().take(first + inorder(tree).len())),
    decreases tree,
{
    let node_idx: usize = match node_idx_opt {
        Some(node_idx) => node_idx,
        None => {
            return;
        },
    };
    let ghost left = *tree->left;
    let ghost right = *tree->right;
    let ghost mid = first + inorder(left).len();
    let ghost entries = all.entries();
    proof {
        lemma_inorder_parts(inorder(all.tree()), first, tree);
    }
    inorder_live(all, all.arena[node_idx].left, table, Ghost(left), Ghost(first));
    let record = &all.arena[node_idx].record;
    proof {
        let upto = entries.take(mid + 1);
        let front = entries.take(mid);
        assert(upto.drop_last() =~= front);
        assert(upto.last() == record@);
        assert(record.wf());
        assert(key_sorted(front)) by {
            assert forall|i: int, j: int| 0 <= i < j < front.len() implies bytes_lt(
                (#[trigger] front[i]).key,
                (#[trigger] front[j]).key,
            ) by {
                assert(bytes_lt(entries[i].key, entries[j].key));
            }
        }
        lemma_live(front);
        assert forall|i: int| 0 <= i < live(front).len() implies bytes_lt(
            (#[trigger] live(front)[i]).key,
            record@.key,
        ) by {
            assert(front.contains(live(front)[i]));
            let n = choose|n: int| 0 <= n < front.len() && front[n] == live(front)[i];
            assert(bytes_lt(entries[n].key, entries[mid].key));
        }
        lemma_upsert_behind(live(front), record@);
    }
    if let Some(value) = record.copy_value() {
        table.insert_record(Record::new_data_record(record.copy_key(), value));
    }
    inorder_live(all, all.arena[node_idx].right, table, Ghost(right), Ghost(mid + 1));
}

/// The data block of an SSTable file.
pub open spec fn data_block(index: IndexView, file: Seq<u8>) -> Seq<u8> {
    file.subrange(constants::HEADER_SIZE as int, index.data_block_end as int)
}

/// The data blocks of SSTable files.
pub open spec fn data_blocks(indexes: Seq<IndexView>, files: Seq<Seq<u8>>) -> Seq<Seq<u8>> {
    Seq::new(files.len(), |i: int| data_block(indexes[i], files[i]))
}

/// Each file is the SSTable of entries that can be read back, and each index is that
/// of its file.
pub open spec fn all_written(
    tables: Seq<Seq<RecordView>>,
    indexes: Seq<IndexView>,
    files: Seq<Seq<u8>>,
) -> bool {
    &&& indexes.len() == tables.len()
    &&& files.len() == tables.len()
    &&& forall|i: int|
        0 <= i < tables.len() ==> {
            &&& key_sorted(#[trigger] tables[i])
            &&& readable_back(tables[i])
            &&& files[i] == sstable_bytes(tables[i])
            &&& index_in(files[i]) == Some(indexes[i])
        }
}

/// SSTables say what their merged data blocks say.
pub proof fn lemma_merged_answer(
    tables: Seq<Seq<RecordView>>,
    indexes: Seq<IndexView>,
    files: Seq<Seq<u8>>,
    key: Seq<u8>,
    first: int,
)
    requires
        all_written(tables, indexes, files),
        0 <= first <= tables.len(),
    ensures
        tables_answer(indexes, files, key, first) == find(
            merged(data_blocks(indexes, files), first),
            key,
        ),
    decreases tables.len() - first,
{
    if first < tables.len() {
        let entries = tables[first];
        assert(key_sorted(entries) && readable_back(entries));
        lemma_merged_answer(tables, indexes, files, key, first + 1);
        lemma_merged(data_blocks(indexes, files), first);
        roundtrip::lemma_index_of_written(entries);
        roundtrip::lemma_sstable_roundtrip(entries, key);
        log::lemma_log_roundtrip(entries);
        assert(data_blocks(indexes, files)[first] == log::log_bytes(entries));
    }
}

/// Compaction: one SSTable of what the data blocks of all hold, without tombstones,
/// shows the values that all together showed.
pub proof fn lemma_compaction(
    tables: Seq<Seq<RecordView>>,
    indexes: Seq<IndexView>,
    files: Seq<Seq<u8>>,
    index: IndexView,
    key: Seq<u8>,
)
    requires
        all_written(tables, indexes, files),
        readable_back(live(merged(data_blocks(indexes, files), 0))),
        index_in(sstable_bytes(live(merged(data_blocks(indexes, files), 0)))) == Some(index),
    ensures
        tables_answer(
            seq![index],
            seq![sstable_bytes(live(merged(data_blocks(indexes, files), 0)))],
            key,
            0,
        ) == match tables_answer(indexes, files, key, 0) {
            Some(Some(value)) => Some(Some(value)),
            _ => None,
        },
{
    let blocks = data_blocks(indexes, files);
    let entries = live(merged(blocks, 0));
    lemma_merged_answer(tables, indexes, files, key, 0);
    lemma_merged(blocks, 0);
    lemma_live(merged(blocks, 0));
    roundtrip::lemma_sstable_roundtrip(entries, key);
    let file = sstable_bytes(entries);
    assert(tables_answer(seq![index], seq![file], key, 1) is None);
    assert(seq![index][0] == index);
    assert(seq![file][0] == file);
}

/// SSTables that were written from ordinary memtables are ones that compaction keeps the
/// values of.
pub proof fn lemma_all_written(tables: Seq<Seq<RecordView>>)
    requires
        forall|i: int|
            0 <= i < tables.len() ==> key_sorted(#[trigger] tables[i]) && tables[i].len() <= 255
                && log::log_bytes(tables[i]).len() <= 0x800_0000,
    ensures
        all_written(
            tables,
            Seq::new(tables.len(), |i: int| index_in(sstable_bytes(tables[i]))->0),
            Seq::new(tables.len(), |i: int| sstable_bytes(tables[i])),
        ),
{
    assert forall|i: int| 0 <= i < tables.len() implies readable_back(#[trigger] tables[i])
        && index_in(sstable_bytes(tables[i])) is Some by {
        roundtrip::lemma_ordinary_tables(tables[i]);
        roundtrip::lemma_index_of_written(tables[i]);
    }
}

} // verus!
