use lsmlite::disk::decode::{decode_disk_record, has_record};
use lsmlite::disk::encode::{encode_data_record, encode_tombstone_record};
use lsmlite::disk::read_data_block;
use lsmlite::error::SSTableError;
use lsmlite::memtable::record::{Record, RecordType};
use lsmlite::memtable::Blob;
use lsmlite::util::{
    decode_varint, encode_varint, get_be_u16, get_be_u32, get_be_u64, key_order, push_be,
    varint_size_from_len, write_at, KeyOrder,
};
use std::cmp::Ordering;

#[test]
fn varints_of_the_documented_values() {
    assert_eq!(encode_varint(0), vec![0x00]);
    assert_eq!(encode_varint(1), vec![0x01]);
    assert_eq!(encode_varint(127), vec![0x7f]);
    assert_eq!(encode_varint(128), vec![0x80, 0x01]);
    assert_eq!(encode_varint(300), vec![0xac, 0x02]);
    assert_eq!(varint_size_from_len(127), 1);
    assert_eq!(varint_size_from_len(128), 2);
    assert_eq!(varint_size_from_len(16384), 3);
}

#[test]
fn varints_are_read_back() {
    for n in [0usize, 1, 127, 128, 300, 16383, 16384, 1 << 31, usize::MAX] {
        let mut buffer = vec![0xff];
        buffer.extend(encode_varint(n));
        buffer.push(0x80);
        let len = varint_size_from_len(n);
        assert_eq!(decode_varint(&buffer, 1), Some((n as u64, len)));
    }
}

#[test]
fn broken_varints_are_refused() {
    // No last byte.
    assert_eq!(decode_varint(&[0x80, 0x80], 0), None);
    assert_eq!(decode_varint(&[], 0), None);
    assert_eq!(decode_varint(&[0x01], 1), None);
    // Eleven bytes.
    assert_eq!(decode_varint(&[0x80, 0x80, 0x80, 0x80, 0x80, 0x80, 0x80, 0x80, 0x80, 0x80, 0x00], 0), None);
    // Ten bytes, and one bit too many for a u64.
    assert_eq!(decode_varint(&[0xff, 0xff, 0xff, 0xff, 0xff, 0xff, 0xff, 0xff, 0xff, 0x02], 0), None);
    assert_eq!(
        decode_varint(&[0xff, 0xff, 0xff, 0xff, 0xff, 0xff, 0xff, 0xff, 0xff, 0x01], 0),
        Some((u64::MAX, 10))
    );
}

#[test]
fn big_endian_integers() {
    let mut buffer: Blob = vec![0xaa];
    push_be(&mut buffer, 0x0102030405060708, 8);
    assert_eq!(buffer, vec![0xaa, 1, 2, 3, 4, 5, 6, 7, 8]);
    assert_eq!(get_be_u64(&buffer, 1), 0x0102030405060708);
    assert_eq!(get_be_u32(&buffer, 5), 0x05060708);
    assert_eq!(get_be_u16(&buffer, 7), 0x0708);
    write_at(&mut buffer, 2, &[9, 9]);
    assert_eq!(buffer, vec![0xaa, 1, 9, 9, 4, 5, 6, 7, 8]);
}

#[test]
fn keys_are_ordered_byte_by_byte() {
    assert_eq!(key_order(b"a", b"b"), KeyOrder::Less);
    assert_eq!(key_order(b"ab", b"a"), KeyOrder::Greater);
    assert_eq!(key_order(b"", b"a"), KeyOrder::Less);
    assert_eq!(key_order(b"abc", b"abc"), KeyOrder::Equal);
    assert_eq!(key_order(&[0xff], &[0x01, 0xff]), KeyOrder::Greater);
}

#[test]
fn data_record_layout() {
    let record = encode_data_record(b"key".to_vec(), b"value".to_vec());
    assert_eq!(
        record.blob,
        vec![0x00, 10, 3, b'k', b'e', b'y', 5, b'v', b'a', b'l', b'u', b'e']
    );
    assert_eq!(record.key, (3, 3));
    assert_eq!(record.value, Some((7, 5)));
}

#[test]
fn tombstone_record_layout() {
    let record = encode_tombstone_record(b"key".to_vec());
    assert_eq!(record.blob, vec![0x01, 4, 3, b'k', b'e', b'y']);
    assert_eq!(record.key, (3, 3));
    assert_eq!(record.value, None);
}

#[test]
fn long_value_takes_longer_varints() {
    let record = encode_data_record(b"k".to_vec(), vec![7u8; 300]);
    assert_eq!(record.blob[..6], [0x00, 0xb0, 0x02, 1, b'k', 0xac]);
    assert_eq!(record.size(), 1 + 2 + 1 + 1 + 2 + 300);
    assert_eq!(record.value(), Some(vec![7u8; 300].as_slice()));
}

#[test]
fn decoding_undoes_encoding() {
    let data = encode_data_record(b"key".to_vec(), b"value".to_vec());
    let tombstone = encode_tombstone_record(b"gone".to_vec());
    let mut buffer: Blob = data.copy_record();
    buffer.extend(tombstone.copy_record());
    let mut offset = 0;
    let first = decode_disk_record(&buffer, &mut offset).unwrap();
    assert_eq!(first.key(), b"key");
    assert_eq!(first.value(), Some(&b"value"[..]));
    assert_eq!(offset, data.size());
    let second = decode_disk_record(&buffer, &mut offset).unwrap();
    assert_eq!(second.key(), b"gone");
    assert_eq!(second.value(), None);
    assert_eq!(second.record_type(), RecordType::Tombstone);
    assert_eq!(offset, buffer.len());
}

#[test]
fn records_are_told_from_other_bytes() {
    let data = encode_data_record(b"key".to_vec(), b"value".to_vec()).take_blob();
    assert!(has_record(&data, 0));
    assert!(!has_record(&data, 1) || data[1] <= 1);
    // Cut short.
    for cut in 0..data.len() {
        assert!(!has_record(&data[..cut], 0));
    }
    // Unknown header.
    let mut other = data.clone();
    other[0] = 2;
    assert!(!has_record(&other, 0));
    // A log size that is not the length of what follows.
    let mut other = data.clone();
    other[1] = 9;
    assert!(!has_record(&other, 0));
    let mut offset = 0;
    let mut unknown = data;
    unknown[0] = 7;
    assert!(decode_disk_record(&unknown, &mut offset).is_none());
}

#[test]
fn record_accessors() {
    let record = Record::new_data_record(b"key".to_vec(), b"value".to_vec());
    assert_eq!(record.record_type(), RecordType::Data);
    assert_eq!(record.key(), b"key");
    assert_eq!(record.copy_key(), b"key".to_vec());
    assert_eq!(record.value(), Some(&b"value"[..]));
    assert_eq!(record.copy_value(), Some(b"value".to_vec()));
    assert_eq!(record.copy_record(), record.blob);
    assert_eq!(record.size(), 12);
    let other = Record::new_tombstone_record(b"kez".to_vec());
    assert_eq!(record.cmp_key(&other), Ordering::Less);
    assert_eq!(other.cmp_key(&record), Ordering::Greater);
    assert_eq!(record.cmp_key(&record), Ordering::Equal);
    assert_eq!(other.copy_value(), None);
    let blob: Blob = Blob::from(other);
    assert_eq!(blob, vec![0x01, 4, 3, b'k', b'e', b'z']);
}

#[test]
fn updating_a_record_gives_the_encoding_of_the_new_value() {
    let lens = [0usize, 1, 5, 118, 119, 120, 127, 128, 129, 300, 16380, 20000];
    for old_len in lens {
        for new_len in lens {
            let mut record = Record::new_data_record(b"some key".to_vec(), vec![1u8; old_len]);
            let newer = Record::new_data_record(b"some key".to_vec(), vec![2u8; new_len]);
            record.update_from_record(&newer);
            assert_eq!(record, newer);
            assert_eq!(record.key(), b"some key");
            assert_eq!(record.value(), Some(vec![2u8; new_len].as_slice()));
        }
    }
}

#[test]
fn updating_to_a_tombstone_and_back() {
    for len in [0usize, 3, 127, 128, 20000] {
        let mut record = Record::new_data_record(b"0123456789".to_vec(), vec![1u8; len]);
        let gone = Record::new_tombstone_record(b"0123456789".to_vec());
        record.update_from_record(&gone);
        assert_eq!(record, gone);
        record.update_from_record(&gone);
        assert_eq!(record, gone);
        let back = Record::new_data_record(b"0123456789".to_vec(), vec![9u8; len]);
        record.update_from_record(&back);
        assert_eq!(record, back);
    }
}

#[test]
fn overwriting_leaves_nothing_of_the_old_value() {
    let mut record = Record::new_tombstone_record(b"key".to_vec());
    record.overwrite_data(&[7; 200]);
    assert_eq!(record, encode_data_record(b"key".to_vec(), vec![7; 200]));
    record.overwrite_data(b"x");
    assert_eq!(record, encode_data_record(b"key".to_vec(), b"x".to_vec()));
    let size = record.size();
    record.update_data_to_tombstone();
    assert_eq!(record, encode_tombstone_record(b"key".to_vec()));
    assert!(record.size() <= size);
}

#[test]
fn a_second_update_changes_nothing() {
    // The key stays, whatever key the other record has.
    let other = Record::new_data_record(b"another key".to_vec(), vec![1; 130]);
    let mut once = Record::new_data_record(b"key".to_vec(), b"old".to_vec());
    once.update_from_record(&other);
    let mut twice = Record::new_data_record(b"key".to_vec(), b"old".to_vec());
    twice.update_from_record(&other);
    twice.update_from_record(&other);
    assert_eq!(once, twice);
    assert_eq!(twice.key(), b"key");
    assert_eq!(once, encode_data_record(b"key".to_vec(), vec![1; 130]));
}

#[test]
fn reading_a_block() {
    let mut block: Blob = Vec::new();
    block.extend(encode_data_record(b"a".to_vec(), b"1".to_vec()).take_blob());
    block.extend(encode_tombstone_record(b"b".to_vec()).take_blob());
    assert_eq!(read_data_block(&block, b"a").unwrap(), b"1".to_vec());
    assert!(matches!(read_data_block(&block, b"b"), Err(SSTableError::DiskRecordNotFound)));
    assert!(matches!(read_data_block(&block[6..], b"b"), Err(SSTableError::Tombstone)));
    assert!(matches!(read_data_block(&block[..3], b"a"), Err(SSTableError::InvalidSSTableFile)));
    assert!(matches!(read_data_block(&[], b"a"), Err(SSTableError::InvalidSSTableFile)));
}
