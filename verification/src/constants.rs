//! Fixed numbers of the on-disk formats.
use vstd::prelude::*;

verus! {

/// First byte of a data record.
pub const DATA_LOG_HEADER: u8 = 0x00;

/// First byte of a tombstone record.
pub const TOMBSTONE_LOG_HEADER: u8 = 0x01;

/// Bytes in the file header of an SSTable: seven of magic, two of version.
pub const HEADER_SIZE: u64 = 9;

/// Bytes in the footer of an SSTable.
pub const FOOTER_SIZE: u64 = 24;

/// The one version of the SSTable format.
pub const V0_HEADER: u16 = 0;

/// The magic bytes that open every SSTable file: ASCII `lsmlite`.
pub open spec fn sstable_magic() -> Seq<u8> {
    seq![0x6C, 0x73, 0x6D, 0x6C, 0x69, 0x74, 0x65]
}

/// Builds the magic bytes that open every SSTable file.
pub fn lsmlite_sstable_header() -> (magic: Vec<u8>)
    ensures
        magic@ == sstable_magic(),
{
    vec![0x6C, 0x73, 0x6D, 0x6C, 0x69, 0x74, 0x65]
}

} // verus!
