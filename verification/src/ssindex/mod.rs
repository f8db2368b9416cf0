//! The index of an SSTable.
pub mod arena;
pub mod layout;
pub mod trie;

use crate::constants;
use crate::error::unexpected_eof;
use crate::memtable::Blob;
use crate::ssindex::arena::{lookup, walkable, NodeView};
use crate::ssindex::layout::trie_in;
use crate::ssindex::trie::Trie;
use crate::sstable::bloom_filter::{may_hold, BloomFilter};
use crate::sstable::footer::{footer_at, SSTableFooter};
use crate::util;
use crate::util::{be_value, bytes_lt};
use vstd::prelude::*;

verus! {

/// What an index holds: the nodes of its trie, the bits of its filter, and where
/// the data blocks end.
#[verifier::ext_equal]
pub struct IndexView {
    pub nodes: Seq<NodeView>,
    pub filter: Seq<u8>,
    pub data_block_end: u64,
}

/// Where the record of `key` starts in the file. The filter is asked first, then
/// the trie.
pub open spec fn offset_for_key(index: IndexView, key: Seq<u8>) -> Option<u64> {
    if may_hold(index.filter, key) {
        lookup(index.nodes, key)
    } else {
        None
    }
}

/// The footer that closes an SSTable file.
pub open spec fn footer_in(file: Seq<u8>) -> SSTableFooter {
    footer_at(file, file.len() - constants::FOOTER_SIZE)
}

/// The index that an SSTable file holds: the trie in its index block and the bits
/// between that and the footer. `None` where the footer names no such blocks, or
/// the index block holds no trie.
pub open spec fn index_in(file: Seq<u8>) -> Option<IndexView> {
    let footer_offset = file.len() - constants::FOOTER_SIZE;
    let index_start = footer_in(file).index_block_start as int;
    let filter_start = footer_in(file).bloom_filter_start as int;
    if footer_offset < 0 || !(index_start <= filter_start <= footer_offset) {
        None
    } else {
        match trie_in(file.subrange(index_start, filter_start)) {
            Some(nodes) => Some(
                IndexView {
                    nodes,
                    filter: file.subrange(filter_start, footer_offset),
                    data_block_end: footer_in(file).index_block_start,
                },
            ),
            None => None,
        }
    }
}

/// The index block that the footer names goes on behind the end of the file.
pub open spec fn index_cut_off(file: Seq<u8>) -> bool {
    &&& constants::FOOTER_SIZE <= file.len()
    &&& footer_in(file).index_block_start < footer_in(file).bloom_filter_start
    &&& file.len() < footer_in(file).bloom_filter_start
}

/// The index of one SSTable: a trie from keys to file offsets, behind a filter.
#[derive(Debug)]
pub struct SstIndex {
    pub trie: Trie,
    pub bloom_filter: BloomFilter,
    /// Where the data blocks end and the index block starts.
    pub data_block_end: u64,
}

impl View for SstIndex {
    type V = IndexView;

    open spec fn view(&self) -> IndexView {
        IndexView {
            nodes: self.trie.nodes(),
            filter: self.bloom_filter@,
            data_block_end: self.data_block_end,
        }
    }
}

impl SstIndex {
    /// The trie can be searched.
    pub open spec fn wf(&self) -> bool {
        walkable(self@.nodes)
    }

    /// Reads the index of an SSTable file. Fails where its block is cut off.
    pub fn from_disk_sstable(file: &[u8]) -> (index: Result<SstIndex, std::io::Error>)
        requires
            index_in(file@) is Some || index_cut_off(file@),
        ensures
            match index {
                Ok(index) => index_in(file@) == Some(index@),
                Err(_) => index_cut_off(file@),
            },
    {
        let footer_offset: usize = file.len() - constants::FOOTER_SIZE as usize;
        let footer = SSTableFooter::from_disk_sstable(file, footer_offset);
        if footer.bloom_filter_start > file.len() as u64 {
            return Err(unexpected_eof());
        }
        let index_start: usize = footer.index_block_start as usize;
        let filter_start: usize = footer.bloom_filter_start as usize;
        let trie = Trie::deserialize_from_disk(
            vstd::slice::slice_subrange(file, index_start, filter_start),
        );
        let bloom_filter = BloomFilter::from_bytes(
            vstd::slice::slice_subrange(file, filter_start, footer_offset),
        );
        Ok(SstIndex { trie, bloom_filter, data_block_end: footer.index_block_start })
    }

    /// Whether an SSTable file holds an index.
    pub fn is_indexed(file: &[u8]) -> (found: bool)
        ensures
            found == (index_in(file@) is Some),
    {
        if file.len() < constants::FOOTER_SIZE as usize {
            return false;
        }
        let footer_offset: usize = file.len() - constants::FOOTER_SIZE as usize;
        let footer = SSTableFooter::from_disk_sstable(file, footer_offset);
        if footer.index_block_start > footer.bloom_filter_start || footer.bloom_filter_start
            > footer_offset as u64 {
            return false;
        }
        let block = vstd::slice::slice_subrange(
            file,
            footer.index_block_start as usize,
            footer.bloom_filter_start as usize,
        );
        Trie::is_serialized(block)
    }

    /// Whether the index block of an SSTable file is cut off.
    pub fn is_cut_off(file: &[u8]) -> (cut_off: bool)
        ensures
            cut_off == index_cut_off(file@),
    {
        if file.len() < constants::FOOTER_SIZE as usize {
            return false;
        }
        let footer_offset: usize = file.len() - constants::FOOTER_SIZE as usize;
        let footer = SSTableFooter::from_disk_sstable(file, footer_offset);
        footer.index_block_start < footer.bloom_filter_start && footer.bloom_filter_start
            > file.len() as u64
    }

    /// Whether the trie can be searched: what was read from a file may hold anything.
    pub fn is_searchable(&self) -> (checked: bool)
        ensures
            checked == self.wf(),
    {
        self.trie.is_walkable()
    }

    /// Where the record of `key` starts in the file. `None` where the filter or the
    /// trie says that there is no such record.
    pub fn get_offset_for_key(&self, key: &[u8]) -> (offset: Option<u64>)
        requires
            self.wf(),
        ensures
            offset == offset_for_key(self@, key@),
    {
        if !self.bloom_filter.contains(key) {
            return None;
        }
        self.trie.get(key)
    }

    /// Whether the first and the last key can be found.
    pub fn is_spanned(&self) -> (checked: bool)
        ensures
            checked == arena::spanned(self@.nodes),
    {
        self.trie.is_spanned()
    }

    /// The first key in byte order; empty where there is no key.
    pub fn min_key(&self) -> (key: Blob)
        requires
            arena::spanned(self@.nodes),
        ensures
            is_min_key(arena::contents(self@.nodes).dom(), key@),
            forall|other: Seq<u8>| #[trigger]
                arena::contents(self@.nodes).dom().contains(other) ==> {
                    &&& arena::contents(self@.nodes).dom().contains(key@)
                    &&& other == key@ || bytes_lt(key@, other)
                },
    {
        match self.trie.min_key() {
            Some(key) => key,
            None => Vec::new(),
        }
    }

    /// The last key in byte order; empty where there is no key.
    pub fn max_key(&self) -> (key: Blob)
        requires
            arena::spanned(self@.nodes),
        ensures
            is_max_key(arena::contents(self@.nodes).dom(), key@),
            forall|other: Seq<u8>| #[trigger]
                arena::contents(self@.nodes).dom().contains(other) ==> {
                    &&& arena::contents(self@.nodes).dom().contains(key@)
                    &&& other == key@ || bytes_lt(other, key@)
                },
    {
        match self.trie.max_key() {
            Some(key) => key,
            None => Vec::new(),
        }
    }
}

/// `key` is the first of `keys` in byte order, or empty where there are none.
pub open spec fn is_min_key(keys: Set<Seq<u8>>, key: Seq<u8>) -> bool {
    ||| keys.contains(key) && forall|other: Seq<u8>| #[trigger]
        keys.contains(other) ==> other == key || bytes_lt(key, other)
    ||| keys == Set::<Seq<u8>>::empty() && key == Seq::<u8>::empty()
}

/// `key` is the last of `keys` in byte order, or empty where there are none.
pub open spec fn is_max_key(keys: Set<Seq<u8>>, key: Seq<u8>) -> bool {
    ||| keys.contains(key) && forall|other: Seq<u8>| #[trigger]
        keys.contains(other) ==> other == key || bytes_lt(other, key)
    ||| keys == Set::<Seq<u8>>::empty() && key == Seq::<u8>::empty()
}

/// The first of `keys` in byte order, or the empty key where there are none.
pub open spec fn first_key(keys: Set<Seq<u8>>) -> Seq<u8> {
    choose|key: Seq<u8>| is_min_key(keys, key)
}

/// The last of `keys` in byte order, or the empty key where there are none.
pub open spec fn last_key(keys: Set<Seq<u8>>) -> Seq<u8> {
    choose|key: Seq<u8>| is_max_key(keys, key)
}

/// There is one first key, and one last key.
pub proof fn lemma_first_last_key(keys: Set<Seq<u8>>, min: Seq<u8>, max: Seq<u8>)
    requires
        is_min_key(keys, min),
        is_max_key(keys, max),
    ensures
        first_key(keys) == min,
        last_key(keys) == max,
        min == max || bytes_lt(min, max),
{
    let first = first_key(keys);
    let last = last_key(keys);
    assert(is_min_key(keys, first));
    assert(is_max_key(keys, last));
    util::lemma_bytes_lt_total(first, min);
    util::lemma_bytes_lt_total(last, max);
    if keys.contains(min) {
        assert(keys != Set::<Seq<u8>>::empty());
    }
    if keys.contains(max) {
        assert(keys != Set::<Seq<u8>>::empty());
    }
}

/// The keys of a trie have a first and a last one.
pub proof fn lemma_spanned_keys(nodes: Seq<NodeView>)
    requires
        arena::spanned(nodes),
    ensures
        is_min_key(arena::contents(nodes).dom(), first_key(arena::contents(nodes).dom())),
        is_max_key(arena::contents(nodes).dom(), last_key(arena::contents(nodes).dom())),
{
    let keys = arena::contents(nodes).dom();
    let root = Seq::<u8>::empty();
    if nodes.len() == 0 {
        assert(keys =~= Set::<Seq<u8>>::empty());
        assert(is_min_key(keys, root));
        assert(is_max_key(keys, root));
    } else {
        assert(forall|word: Seq<u8>| root.is_prefix_of(word)) by {
            assert forall|word: Seq<u8>| root.is_prefix_of(word) by {
                assert(root =~= word.subrange(0, 0));
            }
        }
        let first = arena::lemma_first_word(nodes, root);
        let last = arena::lemma_last_word(nodes, root);
        assert(forall|word: Seq<u8>| #[trigger] keys.contains(word) ==> lookup(nodes, word) is Some);
        assert(is_min_key(keys, first));
        assert(is_max_key(keys, last));
    }
}

/// What cuts the index off: of the three big-endian numbers at the end of the file, the
/// last, where the filter starts, lies behind the file, and behind the first, where the
/// index starts.
pub proof fn lemma_index_cut_off(file: Seq<u8>)
    ensures
        index_cut_off(file) <==> {
            let end = file.len() as int;
            &&& 24 <= end
            &&& end < be_value(file.subrange(end - 8, end))
            &&& be_value(file.subrange(end - 24, end - 16)) < be_value(
                file.subrange(end - 8, end),
            )
        },
        index_cut_off(file) ==> index_in(file) is None,
{
    let end = file.len() as int;
    if 24 <= end {
        util::lemma_be_value_bound(file.subrange(end - 8, end));
        util::lemma_be_value_bound(file.subrange(end - 24, end - 16));
    }
}

/// Whatever file it was read from, an index has its data block end where the first number
/// of the footer says, and its filter in the bytes from where the last says up to the
/// footer. Its trie was read from the bytes between these places.
pub proof fn lemma_index_blocks(file: Seq<u8>)
    ensures
        index_in(file) matches Some(index) ==> {
            let end = file.len() as int;
            let index_start = be_value(file.subrange(end - 24, end - 16)) as int;
            let filter_start = be_value(file.subrange(end - 8, end)) as int;
            &&& 24 <= end
            &&& index_start <= filter_start <= end - 24
            &&& index.data_block_end == index_start
            &&& index.filter == file.subrange(filter_start, end - 24)
            &&& trie_in(file.subrange(index_start, filter_start)) == Some(index.nodes)
        },
        index_in(file) is None <==> {
            let end = file.len() as int;
            let index_start = be_value(file.subrange(end - 24, end - 16)) as int;
            let filter_start = be_value(file.subrange(end - 8, end)) as int;
            ||| end < 24
            ||| !(index_start <= filter_start <= end - 24)
            ||| trie_in(file.subrange(index_start, filter_start)) is None
        },
{
    let end = file.len() as int;
    if 24 <= end {
        util::lemma_be_value_bound(file.subrange(end - 8, end));
        util::lemma_be_value_bound(file.subrange(end - 24, end - 16));
    }
}

/// A key that the filter refuses is not looked up in the trie.
pub proof fn lemma_filter_first(index: IndexView, key: Seq<u8>)
    ensures
        !may_hold(index.filter, key) ==> offset_for_key(index, key) is None,
        may_hold(index.filter, key) ==> offset_for_key(index, key) == lookup(index.nodes, key),
{
}

/// The first and the last key can be found in every trie that insertions built.
pub proof fn lemma_wf_is_spanned(nodes: Seq<NodeView>)
    requires
        arena::wf(nodes),
    ensures
        arena::spanned(nodes),
        walkable(nodes),
{
}

} // verus!
