//! Writing records.
use crate::constants;
use crate::memtable::record::{
    lemma_record_fits, record_body, record_bytes, record_fits, Record, RecordView,
};
use crate::memtable::Blob;
use crate::util;
use vstd::prelude::*;

verus! {

/// Encodes a data record:
/// `[0x00][log_size_varint][key_len_varint][key][data_len_varint][data]`.
pub fn encode_data_record(key: Blob, value: Blob) -> (record: Record)
    requires
        record_fits(key@, Some(value@)),
    ensures
        record.wf(),
        record@ == (RecordView { key: key@, value: Some(value@) }),
        record.encodes(key@, Some(value@)),
{
    proof {
        lemma_record_fits(key@, Some(value@));
    }
    let key_varint = util::encode_varint(key.len());
    let value_varint = util::encode_varint(value.len());
    let ghost body = record_body(key@, Some(value@));
    assert(body.len() == key_varint@.len() + key@.len() + value_varint@.len() + value@.len());
    let log_size: usize = key_varint.len() + value_varint.len() + key.len() + value.len();
    let log_size_varint = util::encode_varint(log_size);
    let buffer_size: usize = log_size_varint.len() + log_size + 1;
    let mut record_buffer: Vec<u8> = Vec::with_capacity(buffer_size);

    record_buffer.push(constants::DATA_LOG_HEADER);
    record_buffer.extend_from_slice(log_size_varint.as_slice());
    record_buffer.extend_from_slice(key_varint.as_slice());
    let key_offset: (usize, usize) = (record_buffer.len(), key.len());
    record_buffer.extend_from_slice(key.as_slice());
    record_buffer.extend_from_slice(value_varint.as_slice());
    let value_offset: (usize, usize) = (record_buffer.len(), value.len());
    record_buffer.extend_from_slice(value.as_slice());

    let record = Record { blob: record_buffer, key: key_offset, value: Some(value_offset) };
    proof {
        assert(record.blob@ =~= record_bytes(key@, Some(value@)));
        assert(record@.key =~= key@);
        assert(record@.value->0 =~= value@);
    }
    record
}

/// Encodes a tombstone: `[0x01][log_size_varint][key_len_varint][key]`.
pub fn encode_tombstone_record(key: Blob) -> (record: Record)
    requires
        record_fits(key@, None),
    ensures
        record.wf(),
        record@ == (RecordView { key: key@, value: None }),
        record.encodes(key@, None),
{
    proof {
        lemma_record_fits(key@, None);
    }
    let key_varint = util::encode_varint(key.len());
    let ghost body = record_body(key@, None);
    assert(body.len() == key_varint@.len() + key@.len());
    let log_size: usize = key_varint.len() + key.len();
    let log_size_varint = util::encode_varint(log_size);
    let buffer_size: usize = log_size_varint.len() + log_size + 1;
    let mut record_buffer: Vec<u8> = Vec::with_capacity(buffer_size);

    record_buffer.push(constants::TOMBSTONE_LOG_HEADER);
    record_buffer.extend_from_slice(log_size_varint.as_slice());
    record_buffer.extend_from_slice(key_varint.as_slice());
    let key_offset: (usize, usize) = (record_buffer.len(), key.len());
    record_buffer.extend_from_slice(key.as_slice());

    let record = Record { blob: record_buffer, key: key_offset, value: None };
    proof {
        assert(record.blob@ =~= record_bytes(key@, None));
        assert(record@.key =~= key@);
    }
    record
}

} // verus!
