//! The footer of an SSTable: where its blocks lie.
use crate::constants;
use crate::util;
use crate::util::{be_bytes, be_value};
use vstd::prelude::*;

verus! {

/// The three numbers that close an SSTable file.
#[derive(Clone, Copy, Debug, PartialEq, Eq, Structural)]
pub struct SSTableFooter {
    /// Position of the index block.
    pub index_block_start: u64,
    /// Number of entries in the index block.
    pub index_block_count: u64,
    /// Position of the Bloom filter.
    pub bloom_filter_start: u64,
}

/// The bytes of a footer: its three numbers, big-endian.
pub open spec fn footer_bytes(footer: SSTableFooter) -> Seq<u8> {
    be_bytes(footer.index_block_start as nat, 8) + be_bytes(footer.index_block_count as nat, 8)
        + be_bytes(footer.bloom_filter_start as nat, 8)
}

/// The footer that stands at position `at` of `s`.
pub open spec fn footer_at(s: Seq<u8>, at: int) -> SSTableFooter {
    SSTableFooter {
        index_block_start: be_value(s.subrange(at, at + 8)) as u64,
        index_block_count: be_value(s.subrange(at + 8, at + 16)) as u64,
        bloom_filter_start: be_value(s.subrange(at + 16, at + 24)) as u64,
    }
}

/// A footer is read back where it was written.
pub proof fn lemma_footer_at(s: Seq<u8>, at: int, footer: SSTableFooter)
    requires
        0 <= at,
        at + 24 <= s.len(),
        s.subrange(at, at + 24) == footer_bytes(footer),
    ensures
        footer_at(s, at) == footer,
{
    util::lemma_be_value_of_u64(footer.index_block_start);
    util::lemma_be_value_of_u64(footer.index_block_count);
    util::lemma_be_value_of_u64(footer.bloom_filter_start);
    let bytes = footer_bytes(footer);
    let there = s.subrange(at, at + 24);
    assert(s.subrange(at, at + 8) =~= there.subrange(0, 8));
    assert(s.subrange(at + 8, at + 16) =~= there.subrange(8, 16));
    assert(s.subrange(at + 16, at + 24) =~= there.subrange(16, 24));
    assert(bytes.subrange(0, 8) =~= be_bytes(footer.index_block_start as nat, 8));
    assert(bytes.subrange(8, 16) =~= be_bytes(footer.index_block_count as nat, 8));
    assert(bytes.subrange(16, 24) =~= be_bytes(footer.bloom_filter_start as nat, 8));
}

pub proof fn lemma_footer_bytes_len(footer: SSTableFooter)
    ensures
        footer_bytes(footer).len() == constants::FOOTER_SIZE,
{
    util::lemma_be_bytes_len(footer.index_block_start as nat, 8);
    util::lemma_be_bytes_len(footer.index_block_count as nat, 8);
    util::lemma_be_bytes_len(footer.bloom_filter_start as nat, 8);
}

impl SSTableFooter {
    /// Reads the footer at `footer_offset` of a file.
    pub fn from_disk_sstable(file: &[u8], footer_offset: usize) -> (footer: SSTableFooter)
        requires
            footer_offset + 24 <= file.len(),
        ensures
            footer == footer_at(file@, footer_offset as int),
            footer.index_block_start == be_value(
                file@.subrange(footer_offset as int, footer_offset + 8),
            ),
            footer.index_block_count == be_value(
                file@.subrange(footer_offset + 8, footer_offset + 16),
            ),
            footer.bloom_filter_start == be_value(
                file@.subrange(footer_offset + 16, footer_offset + 24),
            ),
    {
        SSTableFooter {
            index_block_start: util::get_be_u64(file, footer_offset),
            index_block_count: util::get_be_u64(file, footer_offset + 8),
            bloom_filter_start: util::get_be_u64(file, footer_offset + 16),
        }
    }
}

/// The three numbers stand in a footer in this order, eight big-endian bytes each: where
/// the index starts, how many entries it has, where the filter starts.
pub proof fn lemma_footer_numbers(footer: SSTableFooter)
    ensures
        footer_bytes(footer).len() == 24,
        be_value(footer_bytes(footer).subrange(0, 8)) == footer.index_block_start,
        be_value(footer_bytes(footer).subrange(8, 16)) == footer.index_block_count,
        be_value(footer_bytes(footer).subrange(16, 24)) == footer.bloom_filter_start,
{
    let bytes = footer_bytes(footer);
    lemma_footer_bytes_len(footer);
    util::lemma_be_value_of_u64(footer.index_block_start);
    util::lemma_be_value_of_u64(footer.index_block_count);
    util::lemma_be_value_of_u64(footer.bloom_filter_start);
    assert(bytes.subrange(0, 8) =~= be_bytes(footer.index_block_start as nat, 8));
    assert(bytes.subrange(8, 16) =~= be_bytes(footer.index_block_count as nat, 8));
    assert(bytes.subrange(16, 24) =~= be_bytes(footer.bloom_filter_start as nat, 8));
}

} // verus!
