//! Whether an SSTable can be written: how large its index and its file get.
use crate::constants;
use crate::disk::log;
use crate::disk::log::log_bytes;
use crate::memtable::inner::MemtableInner;
use crate::memtable::record::{record_body, record_bytes, RecordView};
use crate::memtable::tree::{inorder, records_at, shape, Tree};
use crate::ssindex::arena;
use crate::ssindex::arena::{
    grown, no_full_fan, rank, with_child, NodeView, TriePointer, OFFSET_MASK,
};
use crate::ssindex::layout;
use crate::ssindex::layout::{nodes_bytes, trie_bytes};
use crate::sstable::bloom_filter::filter_len;
use crate::sstable::encode::{
    addressable, flush_table, footer_of, header_bytes, index_nodes, sstable_bytes,
};
use crate::sstable::footer::lemma_footer_bytes_len;
use crate::sstable::roundtrip::{
    keys_of, lemma_filter_bits, lemma_index_nodes, readable_back,
};
use crate::util;
use crate::util::capped;
use vstd::prelude::*;

verus! {

/// The keys of `entries`, each with one byte more.
pub open spec fn key_bytes(entries: Seq<RecordView>) -> nat
    decreases entries.len(),
{
    if entries.len() == 0 {
        0
    } else {
        key_bytes(entries.drop_last()) + entries.last().key.len() + 1
    }
}

/// The most nodes that the index of an SSTable may have.
pub const MAX_INDEX_NODES: u64 = 0x1_0000_0000;

/// The SSTable of `entries` can be written: were no two keys to share a beginning, its
/// index could still be numbered, and its file addressed.
pub open spec fn writable(entries: Seq<RecordView>) -> bool {
    &&& key_bytes(entries) <= MAX_INDEX_NODES
    &&& file_bound(entries) <= usize::MAX
}

/// Bytes of the SSTable of `entries`, were no two keys to share a beginning.
pub open spec fn file_bound(entries: Seq<RecordView>) -> nat {
    37 + log_bytes(entries).len() + 14 * key_bytes(entries) + filter_len(entries.len())
}

/// Keys take no more room than the records that hold them.
pub proof fn lemma_key_bytes_bound(entries: Seq<RecordView>)
    ensures
        key_bytes(entries) <= log_bytes(entries).len(),
    decreases entries.len(),
{
    if entries.len() > 0 {
        lemma_key_bytes_bound(entries.drop_last());
        let record = entries.last();
        util::lemma_varint_len(record.key.len());
        util::lemma_varint_len(record_body(record.key, record.value).len());
    }
}

/// Children of all nodes.
pub open spec fn children_total(nodes: Seq<NodeView>) -> nat
    decreases nodes.len(),
{
    if nodes.len() == 0 {
        0
    } else {
        children_total(nodes.drop_last()) + nodes.last().children.len()
    }
}

proof fn lemma_rank_len(children: Seq<TriePointer>, c: u8)
    ensures
        rank(children, c) <= children.len(),
    decreases children.len(),
{
    if children.len() > 0 {
        lemma_rank_len(children.drop_last(), c);
    }
}

/// One child more at one node is one more in all.
proof fn lemma_children_total_differ(before: Seq<NodeView>, after: Seq<NodeView>, i: int)
    requires
        after.len() == before.len(),
        forall|n: int|
            0 <= n < before.len() ==> (#[trigger] after[n]).children.len() <= before[n].children.len()
                + if n == i {
                1int
            } else {
                0
            },
    ensures
        children_total(after) <= children_total(before) + if 0 <= i < before.len() {
            1int
        } else {
            0
        },
    decreases before.len(),
{
    if before.len() > 0 {
        lemma_children_total_differ(before.drop_last(), after.drop_last(), i);
        assert(after[before.len() - 1].children.len() <= before[before.len() - 1].children.len()
            + if before.len() - 1 == i {
            1int
        } else {
            0
        });
    }
}

proof fn lemma_children_total_with_child(nodes: Seq<NodeView>, i: int, c: u8)
    ensures
        children_total(with_child(nodes, i, c)) <= children_total(nodes) + 1,
{
    let after = with_child(nodes, i, c);
    lemma_rank_len(nodes[i].children, c);
    lemma_children_total_differ(nodes, after.drop_last(), i);
    assert(after.last().children.len() == 0);
}

/// Growing adds a child for each new node at most.
proof fn lemma_children_total_grown(nodes: Seq<NodeView>, key: Seq<u8>)
    requires
        children_total(nodes) <= nodes.len(),
    ensures
        children_total(grown(nodes, key)) <= grown(nodes, key).len(),
    decreases key.len(),
{
    if key.len() == 0 {
        if nodes.len() == 0 {
            let one = seq![arena::blank_node()];
            assert(one.drop_last() =~= Seq::<NodeView>::empty());
            assert(children_total(one.drop_last()) == 0);
        }
    } else {
        lemma_children_total_grown(nodes, key.drop_last());
        let before = grown(nodes, key.drop_last());
        let i = arena::walk(before, key.drop_last())->0;
        lemma_children_total_with_child(before, i, key.last());
    }
}

/// The index of `entries` has a node for each byte of a key and one more at most, and
/// a child for each node at most.
proof fn lemma_index_nodes_bound(entries: Seq<RecordView>)
    ensures
        index_nodes(entries).len() <= key_bytes(entries),
        children_total(index_nodes(entries)) <= index_nodes(entries).len(),
    decreases entries.len(),
{
    if entries.len() > 0 {
        let front = index_nodes(entries.drop_last());
        let key = entries.last().key;
        lemma_index_nodes_bound(entries.drop_last());
        arena::lemma_grown_len(front, key);
        lemma_children_total_grown(front, key);
        let after = grown(front, key);
        lemma_children_total_differ(after, index_nodes(entries), -1);
    }
}

proof fn lemma_nodes_bytes_len(nodes: Seq<NodeView>)
    ensures
        nodes_bytes(nodes).len() == 9 * nodes.len() + 5 * children_total(nodes),
    decreases nodes.len(),
{
    if nodes.len() > 0 {
        lemma_nodes_bytes_len(nodes.drop_last());
        layout::lemma_node_bytes_len(nodes.last());
    }
}

/// An SSTable that [`writable`] lets through has an index that can be numbered and a
/// file that can be addressed.
pub proof fn lemma_writable(entries: Seq<RecordView>)
    ensures
        sstable_bytes(entries).len() <= file_bound(entries),
        writable(entries) ==> addressable(entries),
{
    let nodes = index_nodes(entries);
    lemma_index_nodes_bound(entries);
    lemma_nodes_bytes_len(nodes);
    lemma_filter_bits(entries, entries.len());
    lemma_footer_bytes_len(footer_of(entries));
    util::lemma_be_bytes_len(nodes.len(), 4);
    util::lemma_be_bytes_len(constants::V0_HEADER as nat, 2);
    assert(header_bytes().len() == 9);
    assert(trie_bytes(nodes).len() == 4 + nodes_bytes(nodes).len());
}

/// Tables of up to 128 MiB of records can be written.
pub proof fn lemma_small_tables(entries: Seq<RecordView>)
    requires
        log_bytes(entries).len() <= 0x800_0000,
    ensures
        writable(entries),
        addressable(entries),
        sstable_bytes(entries).len() <= usize::MAX,
        sstable_bytes(entries).len() <= 0xFFFF_FFFF,
        index_nodes(entries).len() <= u32::MAX,
{
    let data = log_bytes(entries).len();
    let keys = key_bytes(entries);
    log::lemma_log_len(entries);
    lemma_key_bytes_bound(entries);
    assert(entries.len() <= data && keys <= data);
    assert(filter_len(entries.len()) <= 2 * data + 1);
    assert(file_bound(entries) <= 37 + data + 14 * data + 2 * data + 1);
    assert(file_bound(entries) <= 0xFFFF_FFFF);
    lemma_index_nodes_bound(entries);
    lemma_writable(entries);
}

proof fn lemma_key_bytes_concat(front: Seq<RecordView>, back: Seq<RecordView>)
    ensures
        key_bytes(front + back) == key_bytes(front) + key_bytes(back),
    decreases back.len(),
{
    if back.len() == 0 {
        assert(front + back =~= front);
    } else {
        assert((front + back).drop_last() =~= front + back.drop_last());
        lemma_key_bytes_concat(front, back.drop_last());
    }
}

/// The bytes of the records of a subtree, and of their keys.
fn inorder_bytes(
    table: &MemtableInner,
    node_idx_opt: Option<usize>,
    Ghost(tree): Ghost<Tree>,
) -> (sizes: (usize, usize))
    requires
        table.wf(),
        shape(table.arena@, node_idx_opt, tree),
    ensures
        ({
            let entries = records_at(table.arena@, inorder(tree));
            let (records, keys) = sizes;
            records == capped(log_bytes(entries).len()) && keys == capped(key_bytes(entries))
        }),
    decreases tree,
{
    let node_idx: usize = match node_idx_opt {
        Some(node_idx) => node_idx,
        None => {
            assert(records_at(table.arena@, inorder(tree)) =~= Seq::<RecordView>::empty());
            return (0, 0);
        },
    };
    let ghost left = *tree->left;
    let ghost right = *tree->right;
    let (left_records, left_keys) = inorder_bytes(table, table.arena[node_idx].left, Ghost(left));
    let (right_records, right_keys) = inorder_bytes(
        table,
        table.arena[node_idx].right,
        Ghost(right),
    );
    let record = &table.arena[node_idx].record;
    proof {
        let before = records_at(table.arena@, inorder(left));
        let behind = records_at(table.arena@, inorder(right));
        let here = seq![record@];
        assert(records_at(table.arena@, inorder(tree)) =~= before + here + behind);
        assert(here.drop_last() =~= Seq::<RecordView>::empty());
        assert(log_bytes(here) =~= record_bytes(record@.key, record@.value)) by {
            assert(log_bytes(here.drop_last()) =~= Seq::<u8>::empty());
        }
        assert(key_bytes(here.drop_last()) == 0);
        log::lemma_log_bytes_concat(before, here);
        log::lemma_log_bytes_concat(before + here, behind);
        lemma_key_bytes_concat(before, here);
        lemma_key_bytes_concat(before + here, behind);
        assert(record.wf());
    }
    let records: usize = left_records.saturating_add(record.size()).saturating_add(right_records);
    let key_len: usize = record.key().len();
    let keys: usize = left_keys.saturating_add(key_len).saturating_add(1).saturating_add(
        right_keys,
    );
    (records, keys)
}

/// Whether the SSTable of a memtable can be written.
pub fn is_writable(table: &MemtableInner) -> (checked: bool)
    requires
        table.wf(),
    ensures
        checked == writable(table.entries()),
{
    let (records, keys) = inorder_bytes(table, table.root_node, Ghost(table.tree()));
    if keys as u64 > MAX_INDEX_NODES || keys == usize::MAX {
        return false;
    }
    let nodes: usize = table.arena.len();
    let bound: u128 = 37 + records as u128 + 14 * keys as u128 + nodes as u128 + nodes as u128 / 4
        + 1;
    bound <= usize::MAX as u128
}

/// Whether the SSTable of a memtable can be read back once it is written.
pub fn is_readable_back(table: &MemtableInner) -> (checked: bool)
    requires
        table.wf(),
        writable(table.entries()) || addressable(table.entries()),
    ensures
        checked == readable_back(table.entries()),
{
    let ghost entries = table.entries();
    proof {
        lemma_writable(entries);
        lemma_footer_bytes_len(footer_of(entries));
    }
    let (file, trie, bloom_filter) = flush_table(table);
    let index_len: usize = trie.serialized_size();
    let filter_bytes: usize = bloom_filter.serialize().len();
    let len: u64 = file.len() as u64 + index_len as u64 + filter_bytes as u64
        + constants::FOOTER_SIZE;
    if len > OFFSET_MASK || trie.node_count() as u64 > u32::MAX as u64 {
        return false;
    }
    proof {
        let nodes = index_nodes(entries);
        util::lemma_be_bytes_len(constants::V0_HEADER as nat, 2);
        lemma_index_nodes(entries);
        assert(arena::contents(nodes).dom() =~= keys_of(entries));
        if layout::countable(nodes) {
            arena::lemma_gaps(nodes);
        } else if no_full_fan(keys_of(entries)) {
            arena::lemma_no_full_fan(nodes);
        }
    }
    trie.is_countable()
}

} // verus!
