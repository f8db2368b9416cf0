//! Records as they stand on disk.
pub mod decode;
pub mod encode;
pub mod log;

use crate::disk::decode::{lemma_decode_undoes_encode, record_in, record_layout};
use crate::error::SSTableError;
use crate::memtable::record::record_bytes;
use crate::memtable::Blob;
use crate::util;
use crate::util::KeyOrder;
use vstd::prelude::*;

verus! {

/// What the record that `block` begins with says of `key`: `Some(Some(v))` for the
/// value `v`, `Some(None)` for a tombstone, `None` where there is no whole record or
/// it is for another key.
pub open spec fn block_answer(block: Seq<u8>, key: Seq<u8>) -> Option<Option<Seq<u8>>> {
    match record_layout(block, 0) {
        Some(layout) => if record_in(block, layout).key == key {
            Some(record_in(block, layout).value)
        } else {
            None
        },
        None => None,
    }
}

/// Looks `key` up in the record that `block` begins with. `block` is what a file
/// holds from the offset that the index gives for the key.
pub fn read_data_block(block: &[u8], key: &[u8]) -> (result: Result<Blob, SSTableError>)
    ensures
        match result {
            Ok(value) => block_answer(block@, key@) == Some(Some(value@)),
            Err(SSTableError::Tombstone) => block_answer(block@, key@) == Some(
                None::<Seq<u8>>,
            ),
            Err(SSTableError::DiskRecordNotFound) => record_layout(block@, 0) matches Some(layout)
                && record_in(block@, layout).key != key@,
            Err(SSTableError::InvalidSSTableFile) => record_layout(block@, 0) is None,
            Err(SSTableError::IOError(_)) => false,
        },
{
    if !decode::has_record(block, 0) {
        return Err(SSTableError::InvalidSSTableFile);
    }
    let mut offset: usize = 0;
    let record = decode::decode_disk_record(block, &mut offset).unwrap();
    if util::key_order(record.key(), key) != KeyOrder::Equal {
        return Err(SSTableError::DiskRecordNotFound);
    }
    match record.copy_value() {
        Some(value) => Ok(value),
        None => Err(SSTableError::Tombstone),
    }
}

/// A block that begins with a record says of its key what the record says, and nothing
/// of any other key.
pub proof fn lemma_block_answer(
    key: Seq<u8>,
    value: Option<Seq<u8>>,
    behind: Seq<u8>,
    other: Seq<u8>,
)
    requires
        record_bytes(key, value).len() <= u64::MAX,
    ensures
        block_answer(record_bytes(key, value) + behind, other) == if other == key {
            Some(value)
        } else {
            None
        },
{
    let bytes = record_bytes(key, value);
    let block = bytes + behind;
    assert(block.subrange(0, bytes.len() as int) =~= bytes);
    lemma_decode_undoes_encode(block, 0, key, value);
}

} // verus!
