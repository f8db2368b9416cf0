//! What is read from an SSTable is what was written to it.
use crate::constants;
use crate::disk::block_answer;
use crate::disk::decode::lemma_decode_undoes_encode;
use crate::disk::log;
use crate::disk::log::log_bytes;
use crate::memtable::entries::{
    find, key_sorted, lemma_find_witness, lemma_key_sorted_drop_last,
};
use crate::memtable::inner::MemtableInner;
use crate::memtable::record::{record_bytes, RecordView};
use crate::ssindex::arena;
use crate::ssindex::arena::{
    contents, has_gap, is_gap, lookup, no_full_fan, walkable, NodeView, OFFSET_MASK,
};
use crate::ssindex::layout;
use crate::ssindex::layout::trie_bytes;
use crate::ssindex::{index_in, IndexView};
use crate::sstable::bloom_filter::{filter_len, lemma_no_false_negative, may_hold};
use crate::sstable::encode::{
    addressable, data_end, filter_bits, footer_of, header_bytes, index_nodes, sstable_bytes,
};
use crate::sstable::footer::{
    footer_at, footer_bytes, lemma_footer_at, lemma_footer_bytes_len, lemma_footer_numbers,
    SSTableFooter,
};
use crate::sstable::limits::{lemma_small_tables, writable};
use crate::sstable::{block_for_key, table_answer};
use crate::util;
use crate::util::be_value;
use vstd::prelude::*;
use vstd::set_lib::{lemma_int_range, lemma_len_subset, set_int_range};

verus! {

/// The keys of `entries`.
pub open spec fn keys_of(entries: Seq<RecordView>) -> Set<Seq<u8>> {
    Set::new(|key: Seq<u8>| find(entries, key) is Some)
}

/// The index that the SSTable of `entries` holds.
pub open spec fn written_index(entries: Seq<RecordView>) -> IndexView {
    IndexView {
        nodes: index_nodes(entries),
        filter: filter_bits(entries, entries.len()),
        data_block_end: data_end(entries) as u64,
    }
}

/// The index of sorted entries leads from each key to the place of its record, and
/// from no other key to anything.
pub proof fn lemma_index_nodes(entries: Seq<RecordView>)
    requires
        key_sorted(entries),
        index_nodes(entries).len() <= 0x1_0000_0000,
        data_end(entries) <= OFFSET_MASK,
    ensures
        arena::wf(index_nodes(entries)),
        forall|i: int|
            0 <= i < entries.len() ==> lookup(
                index_nodes(entries),
                (#[trigger] entries[i]).key,
            ) == Some(data_end(entries.take(i)) as u64),
        forall|key: Seq<u8>| #[trigger]
            lookup(index_nodes(entries), key) is Some <==> find(entries, key) is Some,
    decreases entries.len(),
{
    let nodes = index_nodes(entries);
    if entries.len() > 0 {
        let front = entries.drop_last();
        let last = entries.last();
        let offset = data_end(front) as u64;
        let before = index_nodes(front);
        lemma_key_sorted_drop_last(entries);
        arena::lemma_grown_len(before, last.key);
        log::lemma_log_bytes_monotonic(entries, front.len() as int);
        assert(entries.take(front.len() as int) =~= front);
        lemma_index_nodes(front);
        arena::lemma_inserted(before, last.key, offset);
        assert(offset & OFFSET_MASK == offset) by (bit_vector)
            requires
                offset <= OFFSET_MASK,
        ;
        assert forall|key: Seq<u8>| #[trigger] lookup(nodes, key) == if key == last.key {
            Some(offset)
        } else {
            lookup(before, key)
        } by {
            assert(contents(nodes).contains_key(key) <==> lookup(nodes, key) is Some);
            assert(contents(before).contains_key(key) <==> lookup(before, key) is Some);
            if lookup(nodes, key) is Some {
                assert(contents(nodes)[key] == lookup(nodes, key)->0);
            }
            if lookup(before, key) is Some {
                assert(contents(before)[key] == lookup(before, key)->0);
            }
        }
        assert forall|i: int| 0 <= i < entries.len() implies lookup(
            nodes,
            (#[trigger] entries[i]).key,
        ) == Some(data_end(entries.take(i)) as u64) by {
            if i < front.len() {
                assert(util::bytes_lt(entries[i].key, entries[entries.len() - 1].key));
                util::lemma_bytes_lt_total(entries[i].key, last.key);
                assert(front[i] == entries[i]);
                assert(front.take(i) =~= entries.take(i));
            } else {
                assert(entries.take(i) =~= front);
            }
        }
    } else {
        assert forall|key: Seq<u8>| #[trigger] lookup(nodes, key) is Some <==> find(
            entries,
            key,
        ) is Some by {}
    }
}

/// The filter of `entries` lets every one of their keys through.
pub proof fn lemma_filter_bits(entries: Seq<RecordView>, capacity: nat)
    ensures
        filter_bits(entries, capacity).len() == filter_len(capacity),
        forall|i: int|
            0 <= i < entries.len() ==> may_hold(
                filter_bits(entries, capacity),
                (#[trigger] entries[i]).key,
            ),
    decreases entries.len(),
{
    if entries.len() > 0 {
        let front = entries.drop_last();
        let before = filter_bits(front, capacity);
        lemma_filter_bits(front, capacity);
        lemma_no_false_negative(before, entries.last().key, entries.last().key);
        assert forall|i: int| 0 <= i < entries.len() implies may_hold(
            filter_bits(entries, capacity),
            (#[trigger] entries[i]).key,
        ) by {
            if i < front.len() {
                assert(front[i] == entries[i]);
                lemma_no_false_negative(before, entries.last().key, front[i].key);
            }
        }
    }
}

/// The SSTables that can be read back: offsets fit in 63 bits, the nodes of the
/// index can be counted in a `u32`, and behind every beginning of a key some byte
/// goes on in no key.
pub open spec fn readable_back(entries: Seq<RecordView>) -> bool {
    &&& sstable_bytes(entries).len() <= OFFSET_MASK
    &&& index_nodes(entries).len() <= u32::MAX
    &&& no_full_fan(keys_of(entries))
}

/// The sections of five byte strings, one after the other.
proof fn lemma_sections(a: Seq<u8>, b: Seq<u8>, c: Seq<u8>, d: Seq<u8>, e: Seq<u8>)
    ensures
        ({
            let s = a + b + c + d + e;
            let at_b = a.len() as int;
            let at_c = at_b + b.len();
            let at_d = at_c + c.len();
            let at_e = at_d + d.len();
            &&& s.len() == at_e + e.len()
            &&& s.subrange(0, at_b) == a
            &&& s.subrange(at_b, at_c) == b
            &&& s.subrange(at_c, at_d) == c
            &&& s.subrange(at_d, at_e) == d
            &&& s.subrange(at_e, at_e + e.len()) == e
        }),
{
    let s = a + b + c + d + e;
    let at_b = a.len() as int;
    let at_c = at_b + b.len();
    let at_d = at_c + c.len();
    let at_e = at_d + d.len();
    assert(s.subrange(0, at_b) =~= a);
    assert(s.subrange(at_b, at_c) =~= b);
    assert(s.subrange(at_c, at_d) =~= c);
    assert(s.subrange(at_d, at_e) =~= d);
    assert(s.subrange(at_e, at_e + e.len()) =~= e);
}

/// A file whose footer names the places of a trie and of filter bits holds the index
/// made of these.
proof fn lemma_index_in(
    file: Seq<u8>,
    nodes: Seq<NodeView>,
    filter: Seq<u8>,
    index_start: int,
    filter_start: int,
    footer: SSTableFooter,
)
    requires
        0 <= index_start <= filter_start <= file.len() - 24,
        footer.index_block_start == index_start,
        footer.bloom_filter_start == filter_start,
        file.subrange(index_start, filter_start) == trie_bytes(nodes),
        file.subrange(filter_start, file.len() - 24) == filter,
        file.subrange(file.len() - 24, file.len() as int) == footer_bytes(footer),
        layout::countable(nodes),
        nodes.len() <= u32::MAX,
    ensures
        index_in(file) == Some(
            IndexView { nodes, filter, data_block_end: footer.index_block_start },
        ),
{
    let trie = trie_bytes(nodes);
    lemma_footer_at(file, file.len() - 24, footer);
    assert(trie =~= trie.subrange(0, trie.len() as int));
    layout::lemma_deserialize_undoes_serialize(trie, nodes);
}

/// Opening a written SSTable gives the index that was written.
pub proof fn lemma_index_of_written(entries: Seq<RecordView>)
    requires
        key_sorted(entries),
        readable_back(entries),
    ensures
        sstable_bytes(entries).len() >= 33,
        sstable_bytes(entries).len() >= data_end(entries),
        sstable_bytes(entries).subrange(0, 7) == constants::sstable_magic(),
        sstable_bytes(entries).subrange(
            constants::HEADER_SIZE as int,
            data_end(entries) as int,
        ) == log_bytes(entries),
        index_in(sstable_bytes(entries)) == Some(written_index(entries)),
        arena::wf(index_nodes(entries)),
{
    let file = sstable_bytes(entries);
    let header = header_bytes();
    let data = log_bytes(entries);
    let nodes = index_nodes(entries);
    let trie = trie_bytes(nodes);
    let filter = filter_bits(entries, entries.len());
    let footer = footer_of(entries);
    assert(header.len() == 9) by {
        util::lemma_be_bytes_len(constants::V0_HEADER as nat, 2);
    }
    lemma_footer_bytes_len(footer);
    lemma_sections(header, data, trie, filter, footer_bytes(footer));
    let index_start = data_end(entries) as int;
    let filter_start = index_start + trie.len();
    assert(file.subrange(0, 7) == constants::sstable_magic()) by {
        assert(file.subrange(0, 7) =~= file.subrange(0, 9).subrange(0, 7));
        assert(header.subrange(0, 7) =~= constants::sstable_magic());
    }
    lemma_index_nodes(entries);
    assert(contents(nodes).dom() =~= keys_of(entries));
    arena::lemma_no_full_fan(nodes);
    lemma_index_in(file, nodes, filter, index_start, filter_start, footer);
}

/// The bytes from a record on begin with that record.
proof fn lemma_block_of_written(entries: Seq<RecordView>, file: Seq<u8>, i: int)
    requires
        0 <= i < entries.len(),
        data_end(entries) <= u64::MAX,
        data_end(entries) <= file.len(),
        file.subrange(constants::HEADER_SIZE as int, data_end(entries) as int) == log_bytes(
            entries,
        ),
    ensures
        data_end(entries.take(i)) <= data_end(entries),
        block_answer(
            file.subrange(data_end(entries.take(i)) as int, data_end(entries) as int),
            entries[i].key,
        ) == Some(entries[i].value),
{
    let end = data_end(entries) as int;
    let record = entries[i];
    let at = log_bytes(entries.take(i)).len() as int;
    let bytes = record_bytes(record.key, record.value);
    let offset = data_end(entries.take(i)) as int;
    log::lemma_log_record_at(entries, i);
    let block = file.subrange(offset, end);
    let there = file.subrange(constants::HEADER_SIZE as int, end);
    assert(block.subrange(0, bytes.len() as int) =~= there.subrange(at, at + bytes.len()));
    lemma_decode_undoes_encode(block, 0, record.key, record.value);
}

/// The index of `entries` names the bytes from the record of a key on.
proof fn lemma_block_for_key(entries: Seq<RecordView>, i: int)
    requires
        key_sorted(entries),
        index_nodes(entries).len() <= u32::MAX,
        data_end(entries) <= OFFSET_MASK,
        0 <= i < entries.len(),
        data_end(entries.take(i)) <= data_end(entries),
    ensures
        block_for_key(written_index(entries), entries[i].key) == Some(
            (data_end(entries.take(i)) as u64, data_end(entries) as u64),
        ),
{
    lemma_index_nodes(entries);
    lemma_filter_bits(entries, entries.len());
    let index = written_index(entries);
    assert(may_hold(index.filter, entries[i].key));
    assert(lookup(index.nodes, entries[i].key) == Some(data_end(entries.take(i)) as u64));
}

/// A file with the records of `entries` in its data block, searched with their index.
proof fn lemma_answer_of_written(entries: Seq<RecordView>, file: Seq<u8>, key: Seq<u8>)
    requires
        key_sorted(entries),
        index_nodes(entries).len() <= u32::MAX,
        data_end(entries) <= OFFSET_MASK,
        data_end(entries) <= file.len(),
        file.subrange(constants::HEADER_SIZE as int, data_end(entries) as int) == log_bytes(
            entries,
        ),
    ensures
        table_answer(written_index(entries), file, key) == find(entries, key),
{
    if find(entries, key) is Some {
        let i = lemma_find_witness(entries, key);
        lemma_block_of_written(entries, file, i);
        lemma_block_for_key(entries, i);
    } else {
        assert(lookup(index_nodes(entries), key) is None) by {
            lemma_index_nodes(entries);
        }
    }
}

/// A written SSTable can be searched, and a lookup in it answers as the memtable that it
/// was written from: the value of a key, its tombstone, or nothing.
pub proof fn lemma_sstable_roundtrip(entries: Seq<RecordView>, key: Seq<u8>)
    requires
        key_sorted(entries),
        readable_back(entries),
    ensures
        index_in(sstable_bytes(entries)) matches Some(index) && walkable(index.nodes)
            && table_answer(index, sstable_bytes(entries), key) == find(entries, key),
{
    lemma_index_of_written(entries);
    lemma_answer_of_written(entries, sstable_bytes(entries), key);
}

/// What stands where in a written SSTable: the magic bytes and a version of zero, the
/// records in their order, the index, the filter, and at the end three big-endian
/// numbers: where the index starts, how many records were written, and where the filter
/// starts.
pub proof fn lemma_file_layout(entries: Seq<RecordView>)
    requires
        sstable_bytes(entries).len() <= u64::MAX,
    ensures
        ({
            let file = sstable_bytes(entries);
            let end = file.len() as int;
            let index_start = be_value(file.subrange(end - 24, end - 16)) as int;
            let count = be_value(file.subrange(end - 16, end - 8));
            let filter_start = be_value(file.subrange(end - 8, end)) as int;
            &&& 9 <= index_start <= filter_start <= end - 24
            &&& file.subrange(0, 7) == seq![0x6Cu8, 0x73, 0x6D, 0x6C, 0x69, 0x74, 0x65]
            &&& file[7] == 0 && file[8] == 0
            &&& file.subrange(9, index_start) == log_bytes(entries)
            &&& file.subrange(index_start, filter_start) == trie_bytes(index_nodes(entries))
            &&& file.subrange(filter_start, end - 24) == filter_bits(entries, entries.len())
            &&& count == entries.len()
            &&& footer_at(file, end - 24).index_block_count == entries.len()
            &&& footer_at(file, end - 24).index_block_start == index_start
            &&& footer_at(file, end - 24).bloom_filter_start == filter_start
        }),
{
    let file = sstable_bytes(entries);
    let header = header_bytes();
    let data = log_bytes(entries);
    let trie = trie_bytes(index_nodes(entries));
    let filter = filter_bits(entries, entries.len());
    let footer = footer_of(entries);
    let bytes = footer_bytes(footer);
    let end = file.len() as int;
    assert(header.len() == 9 && header[7] == 0 && header[8] == 0) by {
        util::lemma_be_bytes_len(0, 2);
        reveal_with_fuel(util::be_bytes, 3);
    }
    lemma_footer_numbers(footer);
    lemma_sections(header, data, trie, filter, bytes);
    log::lemma_log_len(entries);
    let tail = file.subrange(end - 24, end);
    assert(tail == bytes);
    assert(file.subrange(end - 24, end - 16) =~= tail.subrange(0, 8));
    assert(file.subrange(end - 16, end - 8) =~= tail.subrange(8, 16));
    assert(file.subrange(end - 8, end) =~= tail.subrange(16, 24));
    lemma_footer_at(file, end - 24, footer);
    let front = file.subrange(0, 9);
    assert(front == header);
    assert(front[7] == file[7] && front[8] == file[8]);
    assert(file.subrange(0, 7) =~= front.subrange(0, 7));
    assert(header.subrange(0, 7) =~= constants::sstable_magic());
}

/// Up to 255 keys leave out some byte behind every beginning.
pub proof fn lemma_few_keys(entries: Seq<RecordView>)
    requires
        entries.len() <= 255,
    ensures
        no_full_fan(keys_of(entries)),
{
    let words = keys_of(entries);
    assert forall|path: Seq<u8>| #[trigger] has_gap(words, path) by {
        let n = path.len() as int;
        let used = Seq::new(
            entries.len(),
            |i: int|
                if n < entries[i].key.len() {
                    entries[i].key[n] as int
                } else {
                    -1
                },
        );
        if forall|c: u8| used.contains(c as int) {
            lemma_int_range(0, 256);
            used.lemma_cardinality_of_set();
            assert(set_int_range(0, 256).subset_of(used.to_set())) by {
                assert forall|c: int| set_int_range(0, 256).contains(c) implies used.to_set().contains(
                    c,
                ) by {
                    assert(used.contains((c as u8) as int));
                }
            }
            lemma_len_subset(set_int_range(0, 256), used.to_set());
            assert(false);
        }
        let c = choose|c: u8| !used.contains(c as int);
        assert forall|word: Seq<u8>| #[trigger] words.contains(word) implies !path.push(
            c,
        ).is_prefix_of(word) by {
            let i = lemma_find_witness(entries, word);
            if path.push(c).is_prefix_of(word) {
                assert(word[n] == path.push(c)[n]);
                assert(used[i] == c);
                assert(used.contains(c as int));
            }
        }
        assert(is_gap(words, path.push(c)));
    }
}

/// Tables of up to 128 MiB of records can be written, and read back where behind every
/// beginning some byte goes on in no key; with up to 255 keys it always does.
pub proof fn lemma_ordinary_tables(entries: Seq<RecordView>)
    requires
        log_bytes(entries).len() <= 0x800_0000,
    ensures
        writable(entries),
        addressable(entries),
        no_full_fan(keys_of(entries)) ==> readable_back(entries),
        entries.len() <= 255 ==> readable_back(entries),
{
    lemma_small_tables(entries);
    if entries.len() <= 255 {
        lemma_few_keys(entries);
    }
}

/// Writing a memtable of up to 255 keys and 128 MiB to an SSTable and looking a key up
/// in the file gives what the memtable says of it.
pub proof fn lemma_flush(table: MemtableInner, key: Seq<u8>)
    requires
        table.wf(),
        table.entries().len() <= 255,
        log_bytes(table.entries()).len() <= 0x800_0000,
    ensures
        index_in(sstable_bytes(table.entries())) matches Some(index) && walkable(index.nodes)
            && table_answer(index, sstable_bytes(table.entries()), key) == find(
            table.entries(),
            key,
        ),
{
    lemma_ordinary_tables(table.entries());
    lemma_sstable_roundtrip(table.entries(), key);
}

} // verus!
