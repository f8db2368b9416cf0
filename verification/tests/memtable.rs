use lsmlite::config::LsmliteConfig;
use lsmlite::disk::log::find_log_end;
use lsmlite::error::MemtableError;
use lsmlite::memtable::immutable::ImmutableMemtable;
use lsmlite::memtable::inner::{MemtableInner, MemtableQuery};
use lsmlite::memtable::record::Record;
use lsmlite::memtable::{Blob, Memtable};
use lsmlite::wal::WalBuffer;

fn data(value: &[u8]) -> MemtableQuery {
    MemtableQuery::Data(value.to_vec())
}

#[test]
fn a_table_gives_back_what_was_written() {
    let mut table = MemtableInner::new(1 << 20, 1 << 10);
    assert_eq!(table.get(b"a"), MemtableQuery::NotFound);
    table.insert_data_record(b"b".to_vec(), b"1".to_vec()).unwrap();
    table.insert_data_record(b"a".to_vec(), b"2".to_vec()).unwrap();
    table.insert_tombstone_record(b"c".to_vec()).unwrap();
    table.insert_data_record(b"b".to_vec(), b"33".to_vec()).unwrap();
    assert_eq!(table.get(b"a"), data(b"2"));
    assert_eq!(table.get(b"b"), data(b"33"));
    assert_eq!(table.get(b"c"), MemtableQuery::Tombstone);
    assert_eq!(table.get(b"d"), MemtableQuery::NotFound);
    table.insert_tombstone_record(b"a".to_vec()).unwrap();
    assert_eq!(table.get(b"a"), MemtableQuery::Tombstone);
    // Every record written counts.
    assert_eq!(table.size, 6 + 6 + 4 + 7 + 4);
    assert_eq!(table.arena.len(), 3);
}

#[test]
fn many_keys_in_many_orders() {
    for step in [1usize, 7, 389, 996] {
        let mut table = MemtableInner::new(usize::MAX, usize::MAX);
        for n in 0..997 {
            let i = n * step % 997;
            table
                .insert_data_record(format!("key{:04}", i).into_bytes(), format!("{}", i).into_bytes())
                .unwrap();
        }
        assert_eq!(table.arena.len(), 997);
        for i in 0..997 {
            let key = format!("key{:04}", i).into_bytes();
            assert_eq!(table.get(&key), data(format!("{}", i).as_bytes()));
        }
        assert_eq!(table.get(b"key0997"), MemtableQuery::NotFound);
    }
}

#[test]
fn a_table_is_full_by_keys() {
    let mut table = MemtableInner::new(1 << 20, 2);
    table.insert_data_record(b"a".to_vec(), b"1".to_vec()).unwrap();
    assert!(!table.is_full());
    table.insert_data_record(b"b".to_vec(), b"2".to_vec()).unwrap();
    assert!(table.is_full());
    match table.insert_data_record(b"c".to_vec(), b"3".to_vec()) {
        Err(MemtableError::TableFull(key, value)) => {
            assert_eq!(key, b"c".to_vec());
            assert_eq!(value, Some(b"3".to_vec()));
        }
        Ok(()) => panic!("the table is full"),
    }
    match table.insert_tombstone_record(b"a".to_vec()) {
        Err(MemtableError::TableFull(key, value)) => {
            assert_eq!(key, b"a".to_vec());
            assert_eq!(value, None);
        }
        Ok(()) => panic!("the table is full"),
    }
    assert_eq!(table.get(b"c"), MemtableQuery::NotFound);
    assert_eq!(table.get(b"a"), data(b"1"));
}

#[test]
fn a_table_is_full_by_bytes() {
    let mut table = MemtableInner::new(12, 100);
    table.insert_data_record(b"a".to_vec(), b"1".to_vec()).unwrap();
    table.insert_data_record(b"a".to_vec(), b"2".to_vec()).unwrap();
    assert_eq!(table.size, 12);
    assert!(table.insert_data_record(b"a".to_vec(), b"3".to_vec()).is_err());
    assert_eq!(table.get(b"a"), data(b"2"));
}

#[test]
fn a_log_makes_the_table_that_wrote_it() {
    let mut memtable = Memtable::new(1 << 20, 100);
    let mut wal: Blob = Vec::new();
    wal.extend(memtable.insert(b"a".to_vec(), b"1".to_vec()).unwrap());
    wal.extend(memtable.insert(b"b".to_vec(), b"2".to_vec()).unwrap());
    wal.extend(memtable.delete(b"a".to_vec()).unwrap());
    wal.extend(memtable.insert(b"b".to_vec(), b"3".to_vec()).unwrap());
    let again = Memtable::new_from_wal(&wal, 1 << 20, 100);
    assert_eq!(again.get(b"a"), MemtableQuery::Tombstone);
    assert_eq!(again.get(b"b"), data(b"3"));
    assert_eq!(again.inner.size, memtable.inner.size);
    assert_eq!(again.inner.arena.len(), 2);
    // A log that lost its end gives the records that are there as a whole.
    let cut = Memtable::new_from_wal(&wal[..wal.len() - 1], 1 << 20, 100);
    assert_eq!(cut.get(b"a"), MemtableQuery::Tombstone);
    assert_eq!(cut.get(b"b"), data(b"2"));
    let empty = Memtable::new_from_wal(&wal[..3], 1 << 20, 100);
    assert_eq!(empty.get(b"a"), MemtableQuery::NotFound);
}

#[test]
fn a_log_goes_on_behind_its_last_whole_record() {
    let first = Record::new_data_record(b"a".to_vec(), b"1".to_vec()).take_blob();
    let second = Record::new_tombstone_record(b"b".to_vec()).take_blob();
    let mut torn = first.clone();
    torn.extend(&second[..3]);
    assert_eq!(find_log_end(&torn), first.len());
    assert_eq!(find_log_end(&[]), 0);
    torn.truncate(find_log_end(&torn));
    torn.extend(&second);
    assert_eq!(find_log_end(&torn), torn.len());
    let table = MemtableInner::new_from_wal(&torn, 100, 100);
    assert_eq!(table.get(b"a"), data(b"1"));
    assert_eq!(table.get(b"b"), MemtableQuery::Tombstone);
}

#[test]
fn what_is_buffered_is_written_in_order() {
    let mut buffer = WalBuffer::new();
    assert!(!buffer.is_due(399));
    assert!(buffer.is_due(400));
    buffer.append(vec![1, 2]);
    buffer.append(vec![3]);
    assert_eq!(buffer.take(), vec![1, 2, 3]);
    assert_eq!(buffer.take(), Vec::new());
    buffer.append(vec![0; 65535]);
    assert!(!buffer.is_due(0));
    buffer.append(vec![0]);
    assert!(buffer.is_due(0));
}

#[test]
fn a_log_is_replayed_past_the_bounds() {
    let mut wal: Blob = Vec::new();
    wal.extend(Record::new_data_record(b"a".to_vec(), b"1".to_vec()).take_blob());
    wal.extend(Record::new_data_record(b"b".to_vec(), b"2".to_vec()).take_blob());
    let table = MemtableInner::new_from_wal(&wal, 1 << 20, 1);
    assert!(table.is_full());
    assert_eq!(table.get(b"b"), data(b"2"));
}

#[test]
fn rotation_gives_the_table_out_and_keeps_the_bounds() {
    let mut memtable = Memtable::new(1 << 20, 1);
    memtable.insert(b"a".to_vec(), b"1".to_vec()).unwrap();
    assert!(memtable.insert(b"b".to_vec(), b"2".to_vec()).is_err());
    let full = memtable.rotate();
    assert_eq!(full.get(b"a"), data(b"1"));
    assert_eq!(memtable.get(b"a"), MemtableQuery::NotFound);
    assert_eq!(memtable.inner.max_nodes, 1);
    assert_eq!(memtable.inner.max_size, 1 << 20);
    memtable.insert(b"b".to_vec(), b"2".to_vec()).unwrap();
    assert_eq!(memtable.get(b"b"), data(b"2"));
}

#[test]
fn the_newest_immutable_table_answers_first() {
    let config = LsmliteConfig {
        max_memtable_size: 1 << 20,
        max_memtable_nodes: 100,
        compaction_rate: 4,
        compaction_queue_size: 4,
        memtable_flush_queue_size: 4,
    };
    let oldest = Record::new_data_record(b"a".to_vec(), b"1".to_vec()).take_blob();
    let mut immutable = ImmutableMemtable::new(vec![oldest], &config);
    let mut second = MemtableInner::new(100, 100);
    second.insert_tombstone_record(b"a".to_vec()).unwrap();
    second.insert_data_record(b"b".to_vec(), b"2".to_vec()).unwrap();
    immutable.insert(second);
    assert_eq!(immutable.get(b"a"), MemtableQuery::Tombstone);
    assert_eq!(immutable.get(b"b"), data(b"2"));
    assert_eq!(immutable.get(b"c"), MemtableQuery::NotFound);
    assert_eq!(immutable.oldest().unwrap().get(b"a"), data(b"1"));
    immutable.remove_oldest();
    assert_eq!(immutable.oldest().unwrap().get(b"a"), MemtableQuery::Tombstone);
    immutable.remove_oldest();
    assert!(immutable.oldest().is_none());
    immutable.remove_oldest();
    assert_eq!(immutable.get(b"a"), MemtableQuery::NotFound);
}
