//! Writing SSTables.
use crate::constants;
use crate::disk::log;
use crate::disk::log::log_bytes;
use crate::memtable::inner::MemtableInner;
use crate::memtable::record::RecordView;
use crate::memtable::tree::{inorder, lemma_inorder_parts, shape, Tree};
use crate::memtable::Blob;
use crate::ssindex::arena;
use crate::ssindex::arena::{inserted, NodeView};
use crate::ssindex::layout::trie_bytes;
use crate::ssindex::trie::Trie;
use crate::sstable::bloom_filter::{filter_len, with_key, BloomFilter};
use crate::sstable::footer::{
    footer_bytes, lemma_footer_bytes_len, lemma_footer_numbers, SSTableFooter,
};
use crate::sstable::limits::{lemma_writable, writable};
use crate::sstable::roundtrip::lemma_file_layout;
use crate::util;
use crate::util::{be_bytes, be_value};
use vstd::prelude::*;

verus! {

/// The header of an SSTable file: magic bytes and version.
pub open spec fn header_bytes() -> Seq<u8> {
    constants::sstable_magic() + be_bytes(constants::V0_HEADER as nat, 2)
}

/// Where the data block behind `entries` goes on in the file.
pub open spec fn data_end(entries: Seq<RecordView>) -> nat {
    (constants::HEADER_SIZE + log_bytes(entries).len()) as nat
}

/// The index of `entries`: each key leads to the place of its record in the file.
pub open spec fn index_nodes(entries: Seq<RecordView>) -> Seq<NodeView>
    decreases entries.len(),
{
    if entries.len() == 0 {
        Seq::empty()
    } else {
        let front = entries.drop_last();
        inserted(index_nodes(front), entries.last().key, data_end(front) as u64)
    }
}

/// A filter for `capacity` keys with those of `entries` entered.
pub open spec fn filter_bits(entries: Seq<RecordView>, capacity: nat) -> Seq<u8>
    decreases entries.len(),
{
    if entries.len() == 0 {
        Seq::new(filter_len(capacity), |i: int| 0u8)
    } else {
        with_key(filter_bits(entries.drop_last(), capacity), entries.last().key)
    }
}

/// The footer of the SSTable of `entries`.
pub open spec fn footer_of(entries: Seq<RecordView>) -> SSTableFooter {
    SSTableFooter {
        index_block_start: data_end(entries) as u64,
        index_block_count: entries.len() as u64,
        bloom_filter_start: (data_end(entries) + trie_bytes(index_nodes(entries)).len()) as u64,
    }
}

/// The SSTable of `entries`: header, records, index, filter and footer.
pub open spec fn sstable_bytes(entries: Seq<RecordView>) -> Seq<u8> {
    header_bytes() + log_bytes(entries) + trie_bytes(index_nodes(entries)) + filter_bits(
        entries,
        entries.len(),
    ) + footer_bytes(footer_of(entries))
}

/// The index of the first entries has no more nodes than that of all.
pub proof fn lemma_index_nodes_monotonic(entries: Seq<RecordView>, n: int)
    requires
        0 <= n <= entries.len(),
    ensures
        index_nodes(entries.take(n)).len() <= index_nodes(entries).len(),
    decreases entries.len(),
{
    if n == entries.len() {
        assert(entries.take(n) =~= entries);
    } else {
        let front = entries.drop_last();
        assert(front.take(n) =~= entries.take(n));
        lemma_index_nodes_monotonic(front, n);
        arena::lemma_grown_len(index_nodes(front), entries.last().key);
    }
}

/// Encodes the footer of an SSTable.
pub fn encode_footer(
    index_block_start: u64,
    index_block_count: u64,
    bloom_filter_start: u64,
) -> (footer: Vec<u8>)
    ensures
        footer@ == footer_bytes(
            SSTableFooter { index_block_start, index_block_count, bloom_filter_start },
        ),
        footer@.len() == constants::FOOTER_SIZE,
        footer@.len() == 24,
        be_value(footer@.subrange(0, 8)) == index_block_start,
        be_value(footer@.subrange(8, 16)) == index_block_count,
        be_value(footer@.subrange(16, 24)) == bloom_filter_start,
{
    let mut buffer: Vec<u8> = Vec::with_capacity(constants::FOOTER_SIZE as usize);
    util::push_be(&mut buffer, index_block_start, 8);
    util::push_be(&mut buffer, index_block_count, 8);
    util::push_be(&mut buffer, bloom_filter_start, 8);
    proof {
        let footer = SSTableFooter { index_block_start, index_block_count, bloom_filter_start };
        lemma_footer_numbers(footer);
        assert(buffer@ =~= footer_bytes(footer));
    }
    buffer
}

/// The nodes of the index of `entries` can be numbered in a `u32`, and the SSTable can
/// be held in memory.
pub open spec fn addressable(entries: Seq<RecordView>) -> bool {
    &&& index_nodes(entries).len() <= 0x1_0000_0000
    &&& sstable_bytes(entries).len() <= usize::MAX
}

/// The SSTable file of a memtable.
pub fn write_sstable(table: &MemtableInner) -> (file: Blob)
    requires
        table.wf(),
        writable(table.entries()) || addressable(table.entries()),
    ensures
        file@ == sstable_bytes(table.entries()),
        33 <= file@.len(),
        be_value(file@.subrange(file@.len() - 16, file@.len() - 8)) == table.entries().len(),
        file@.subrange(
            9,
            be_value(file@.subrange(file@.len() - 24, file@.len() - 16)) as int,
        ) == log_bytes(table.entries()),
{
    let ghost entries = table.entries();
    proof {
        lemma_writable(entries);
    }
    let (mut file, trie, bloom_filter) = flush_table(table);
    proof {
        util::lemma_be_bytes_len(constants::V0_HEADER as nat, 2);
        lemma_footer_bytes_len(footer_of(entries));
    }
    let index_block_start: u64 = file.len() as u64;
    let mut index_block_buffer = trie.serialize();
    let bloom_filter_start: u64 = index_block_start + index_block_buffer.len() as u64;
    file.append(&mut index_block_buffer);
    let mut bloom_filter_buffer = bloom_filter.serialize();
    file.append(&mut bloom_filter_buffer);
    let mut footer = encode_footer(
        index_block_start,
        table.arena.len() as u64,
        bloom_filter_start,
    );
    file.append(&mut footer);
    assert(file@ =~= sstable_bytes(entries));
    proof {
        lemma_file_layout(entries);
    }
    file
}

/// Header and records of the SSTable of a memtable, with its index and its filter.
pub(crate) fn flush_table(table: &MemtableInner) -> (parts: (Blob, Trie, BloomFilter))
    requires
        table.wf(),
        addressable(table.entries()),
    ensures
        ({
            let (file, trie, bloom_filter) = parts;
            let entries = table.entries();
            &&& file@ == header_bytes() + log_bytes(entries)
            &&& trie.nodes() == index_nodes(entries)
            &&& trie.wf()
            &&& bloom_filter@ == filter_bits(entries, entries.len())
        }),
{
    let ghost entries = table.entries();
    proof {
        util::lemma_be_bytes_len(constants::V0_HEADER as nat, 2);
    }
    let mut file: Blob = constants::lsmlite_sstable_header();
    util::push_be(&mut file, constants::V0_HEADER as u64, 2);
    let mut trie = Trie::new(table.arena.len());
    let mut bloom_filter = BloomFilter::new(table.arena.len());
    proof {
        assert(entries.take(0) =~= Seq::<RecordView>::empty());
        assert(file@ =~= header_bytes() + log_bytes(entries.take(0)));
        assert(inorder(table.tree()).subrange(0, inorder(table.tree()).len() as int) =~= inorder(
            table.tree(),
        ));
    }
    inorder_flush(
        table,
        table.root_node,
        &mut file,
        &mut trie,
        &mut bloom_filter,
        Ghost(table.tree()),
        Ghost(0),
    );
    assert(entries.take(entries.len() as int) =~= entries);
    (file, trie, bloom_filter)
}

/// What has been written once the first `n` entries are flushed.
pub open spec fn flushed(
    entries: Seq<RecordView>,
    n: int,
    file: Seq<u8>,
    trie: Trie,
    bloom_filter: Seq<u8>,
) -> bool {
    &&& file == header_bytes() + log_bytes(entries.take(n))
    &&& trie.nodes() == index_nodes(entries.take(n))
    &&& trie.wf()
    &&& bloom_filter == filter_bits(entries.take(n), entries.len())
}

/// Writes the records of a subtree in the order of their keys, and enters each in
/// the index and the filter.
fn inorder_flush(
    table: &MemtableInner,
    node_idx_opt: Option<usize>,
    file: &mut Blob,
    trie: &mut Trie,
    bloom_filter: &mut BloomFilter,
    Ghost(tree): Ghost<Tree>,
    Ghost(first): Ghost<int>,
)
    requires
        table.wf(),
        shape(table.arena@, node_idx_opt, tree),
        0 <= first,
        first + inorder(tree).len() <= inorder(table.tree()).len(),
        inorder(table.tree()).subrange(first, first + inorder(tree).len()) == inorder(tree),
        flushed(table.entries(), first, old(file)@, *old(trie), old(bloom_filter)@),
        index_nodes(table.entries()).len() <= 0x1_0000_0000,
        data_end(table.entries()) <= usize::MAX,
    ensures
        flushed(
            table.entries(),
            first + inorder(tree).len(),
            final(file)@,
            *final(trie),
            final(bloom_filter)@,
        ),
    decreases tree,
{
    let node_idx: usize = match node_idx_opt {
        Some(node_idx) => node_idx,
        None => {
            return;
        },
    };
    let ghost left = *tree->left;
    let ghost right = *tree->right;
    let ghost mid = first + inorder(left).len();
    let ghost entries = table.entries();
    proof {
        lemma_inorder_parts(inorder(table.tree()), first, tree);
    }
    inorder_flush(
        table,
        table.arena[node_idx].left,
        file,
        trie,
        bloom_filter,
        Ghost(left),
        Ghost(first),
    );
    let record = &table.arena[node_idx].record;
    proof {
        let upto = entries.take(mid + 1);
        assert(upto.drop_last() =~= entries.take(mid));
        assert(upto.last() == record@);
        lemma_index_nodes_monotonic(entries, mid + 1);
        log::lemma_log_bytes_monotonic(entries, mid);
        util::lemma_be_bytes_len(constants::V0_HEADER as nat, 2);
    }
    let record_offset: u64 = file.len() as u64;
    let mut disk_record = record.copy_record();
    bloom_filter.insert(record.key());
    trie.insert(record.key(), record_offset);
    let ghost before = file@;
    file.append(&mut disk_record);
    assert(file@ =~= header_bytes() + log_bytes(entries.take(mid + 1)));
    inorder_flush(
        table,
        table.arena[node_idx].right,
        file,
        trie,
        bloom_filter,
        Ghost(right),
        Ghost(mid + 1),
    );
}

} // verus!
