use lsmlite::compaction::compact;
use lsmlite::constants::lsmlite_sstable_header;
use lsmlite::disk::read_data_block;
use lsmlite::error::SSTableError;
use lsmlite::memtable::inner::{MemtableInner, MemtableQuery};
use lsmlite::memtable::Blob;
use lsmlite::ssindex::SstIndex;
use lsmlite::sstable::bloom_filter::BloomFilter;
use lsmlite::sstable::encode::{encode_footer, write_sstable};
use lsmlite::sstable::footer::SSTableFooter;
use lsmlite::sstable::limits::{is_readable_back, is_writable};
use lsmlite::sstable::{
    validate_buffer_and_get_version, SSTable, SSTableCache, SearchStep, TableStep,
};

fn make_memtable_with_records(records: &[(&[u8], &[u8])]) -> MemtableInner {
    let mut table = MemtableInner::new(usize::MAX, usize::MAX);
    for (key, data) in records {
        table
            .insert_data_record(key.to_vec(), data.to_vec())
            .unwrap();
    }
    table
}

/// Looks a key up in one table, with its file at hand.
fn search(table: &SSTable, file: &[u8], key: &[u8]) -> Result<Blob, SSTableError> {
    match table.search(key) {
        TableStep::Read { offset, end } => {
            read_data_block(&file[offset as usize..end as usize], key)
        }
        TableStep::Done(result) => result,
    }
}

/// Looks a key up in a cache, with the files of its tables at hand.
fn search_cache(cache: &SSTableCache, files: &[Blob], key: &[u8]) -> Result<Blob, SSTableError> {
    let mut step = cache.search(key);
    loop {
        match step {
            SearchStep::Done(result) => return result,
            SearchStep::Read { table, offset, end } => {
                let block = &files[table][offset as usize..end as usize];
                step = cache.resume(key, table, read_data_block(block, key));
            }
        }
    }
}

fn open(file: &Blob) -> SSTable {
    assert!(SstIndex::is_indexed(file));
    SSTable::from_bytes(file).unwrap()
}

#[test]
fn roundtrip_search() {
    let records: Vec<(&'static [u8], &'static [u8])> = vec![
        (b"apple", b"fruit"),
        (b"banana", b"yellow"),
        (b"cherry", b"red"),
        (b"date", b"sweet"),
        (b"elderberry", b"dark"),
    ];

    let table = make_memtable_with_records(&records);
    assert!(is_writable(&table));
    let file = write_sstable(&table);

    let sstable = open(&file);

    for (key, expected_data) in &records {
        let result = search(&sstable, &file, key).unwrap();
        assert_eq!(result, *expected_data, "data mismatch for key {:?}", key);
    }

    assert!(matches!(
        search(&sstable, &file, b"notakey"),
        Err(SSTableError::DiskRecordNotFound)
    ));
}

#[test]
fn an_sstable_answers_as_its_memtable() {
    let mut table = MemtableInner::new(usize::MAX, usize::MAX);
    for i in 0..500u32 {
        let key = format!("k{}", i * 7919 % 500).into_bytes();
        if i % 5 == 0 {
            table.insert_tombstone_record(key).unwrap();
        } else {
            table.insert_data_record(key, vec![i as u8; (i % 200) as usize]).unwrap();
        }
    }
    let file = write_sstable(&table);
    let sstable = open(&file);
    for i in 0..600u32 {
        let key = format!("k{}", i).into_bytes();
        match (table.get(&key), search(&sstable, &file, &key)) {
            (MemtableQuery::Data(value), Ok(found)) => assert_eq!(value, found),
            (MemtableQuery::Tombstone, Err(SSTableError::Tombstone)) => {}
            (MemtableQuery::NotFound, Err(SSTableError::DiskRecordNotFound)) => {}
            other => panic!("{:?}", other),
        }
    }
}

#[test]
fn sections_of_a_file() {
    let table = make_memtable_with_records(&[(b"b", b"2"), (b"a", b"1")]);
    let file = write_sstable(&table);
    assert_eq!(&file[..7], b"lsmlite");
    assert_eq!(lsmlite_sstable_header(), b"lsmlite".to_vec());
    assert_eq!(&file[7..9], &[0, 0]);
    // The records, in the order of their keys.
    assert_eq!(&file[9..21], &[0, 4, 1, b'a', 1, b'1', 0, 4, 1, b'b', 1, b'2']);
    let footer = SSTableFooter::from_disk_sstable(&file, file.len() - 24);
    assert_eq!(footer.index_block_start, 21);
    // Two keys.
    assert_eq!(footer.index_block_count, 2);
    // Node count, a root with two children, and two leaves.
    assert_eq!(footer.bloom_filter_start, 21 + 4 + 19 + 9 + 9);
    // Ten bits a key.
    assert_eq!(file.len() as u64, footer.bloom_filter_start + 3 + 24);
    let sstable = open(&file);
    assert_eq!(sstable.size, file.len() as u64);
    assert_eq!(sstable.version, 0);
    assert!(sstable.is_spanned());
    assert_eq!(sstable.min_key(), b"a".to_vec());
    assert_eq!(sstable.max_key(), b"b".to_vec());
}

#[test]
fn an_empty_table_has_a_file() {
    let table = MemtableInner::new(1, 1);
    let file = write_sstable(&table);
    assert_eq!(file.len(), 9 + 4 + 1 + 24);
    let sstable = open(&file);
    assert!(matches!(search(&sstable, &file, b"a"), Err(SSTableError::DiskRecordNotFound)));
    assert_eq!(sstable.min_key(), Vec::new());
    assert_eq!(sstable.max_key(), Vec::new());
}

#[test]
fn footers() {
    let footer = encode_footer(1, 2, 0x0102030405060708);
    assert_eq!(
        footer,
        vec![0, 0, 0, 0, 0, 0, 0, 1, 0, 0, 0, 0, 0, 0, 0, 2, 1, 2, 3, 4, 5, 6, 7, 8]
    );
    let read = SSTableFooter::from_disk_sstable(&footer, 0);
    assert_eq!(read.index_block_start, 1);
    assert_eq!(read.index_block_count, 2);
    assert_eq!(read.bloom_filter_start, 0x0102030405060708);
}

#[test]
fn other_files_are_refused() {
    let mut file = write_sstable(&make_memtable_with_records(&[(b"a", b"1")]));
    assert!(SstIndex::is_indexed(&file));
    file[0] = b'L';
    assert!(matches!(SSTable::from_bytes(&file), Err(SSTableError::InvalidSSTableFile)));
    assert!(!SstIndex::is_indexed(&file[..20]));
    assert!(!SstIndex::is_indexed(b"lsmlite"));
    // A footer that points behind the file.
    let len = file.len();
    file[len - 24] = 0xff;
    assert!(!SstIndex::is_indexed(&file));
    assert!(!SstIndex::is_cut_off(&file));
}

#[test]
fn short_files_are_told_apart() {
    assert!(matches!(SSTable::from_bytes(b""), Err(SSTableError::IOError(_))));
    assert!(matches!(SSTable::from_bytes(b"lsmlit"), Err(SSTableError::IOError(_))));
    assert!(matches!(SSTable::from_bytes(b"Lsmlit"), Err(SSTableError::IOError(_))));
    assert!(matches!(SSTable::from_bytes(b"lsmlite"), Err(SSTableError::IOError(_))));
    assert!(matches!(SSTable::from_bytes(b"lsmlite\0"), Err(SSTableError::IOError(_))));
    assert!(matches!(SSTable::from_bytes(b"Lsmlite"), Err(SSTableError::InvalidSSTableFile)));
    assert!(matches!(SSTable::from_bytes(b"Lsmlite\0"), Err(SSTableError::InvalidSSTableFile)));
    assert!(matches!(SSTable::from_bytes(b"Lsmlite\0\0"), Err(SSTableError::InvalidSSTableFile)));
    match validate_buffer_and_get_version(b"lsmlite") {
        Err(SSTableError::IOError(err)) => {
            assert_eq!(err.kind(), std::io::ErrorKind::UnexpectedEof)
        }
        other => panic!("{:?}", other),
    }
    assert_eq!(validate_buffer_and_get_version(b"lsmlite\x01\x02").unwrap(), 258);
    assert_eq!(validate_buffer_and_get_version(b"lsmlite\0\0...").unwrap(), 0);
}

#[test]
fn an_index_behind_the_end_of_the_file_is_an_error_of_reading() {
    let mut file = b"lsmlite\0\0".to_vec();
    file.extend(encode_footer(9, 1, 34));
    assert!(SstIndex::is_cut_off(&file));
    assert!(matches!(SSTable::from_bytes(&file), Err(SSTableError::IOError(_))));
    assert!(SstIndex::from_disk_sstable(&file).is_err());
}

#[test]
fn a_damaged_index_is_read_and_told() {
    // Two children of the root, in the wrong order.
    let mut file = write_sstable(&make_memtable_with_records(&[(b"a", b"1"), (b"b", b"2")]));
    assert!(SSTable::from_bytes(&file).unwrap().is_searchable());
    let root_children = 21 + 4 + 9;
    assert_eq!(file[root_children], b'a');
    file[root_children] = b'z';
    assert!(SstIndex::is_indexed(&file));
    assert!(!SSTable::from_bytes(&file).unwrap().is_searchable());
}

#[test]
fn tables_that_cannot_be_read_back_are_told() {
    let mut table = MemtableInner::new(usize::MAX, usize::MAX);
    for c in 0..255u8 {
        table.insert_data_record(vec![b'k', c], vec![c]).unwrap();
    }
    assert!(is_writable(&table));
    assert!(is_readable_back(&table));
    let file = write_sstable(&table);
    let sstable = open(&file);
    assert_eq!(search(&sstable, &file, &[b'k', 7]).unwrap(), vec![7]);
    // A byte of every value behind the same beginning.
    table.insert_data_record(vec![b'k', 255], vec![255]).unwrap();
    assert!(is_writable(&table));
    assert!(!is_readable_back(&table));
    assert!(is_readable_back(&MemtableInner::new(1, 1)));
}

#[test]
fn the_filter_lets_every_key_through() {
    let mut filter = BloomFilter::new(100);
    for i in 0..100u32 {
        filter.insert(format!("key{}", i).as_bytes());
    }
    let mut passed = 0;
    for i in 0..1000u32 {
        if filter.contains(format!("other{}", i).as_bytes()) {
            passed += 1;
        }
    }
    assert!(passed < 200, "{} of 1000 other keys passed", passed);
    let bytes = filter.serialize();
    assert_eq!(bytes.len(), 126);
    let again = BloomFilter::from_bytes(&bytes);
    for i in 0..100u32 {
        assert!(again.contains(format!("key{}", i).as_bytes()));
    }
    assert!(!BloomFilter::new(100).contains(b"key"));
}

#[test]
fn the_newest_table_of_a_cache_answers() {
    let old = write_sstable(&make_memtable_with_records(&[(b"a", b"1"), (b"b", b"1"), (b"c", b"1")]));
    let mut table = make_memtable_with_records(&[(b"a", b"2")]);
    table.insert_tombstone_record(b"b".to_vec()).unwrap();
    let new = write_sstable(&table);
    let mut cache = SSTableCache::new(2);
    assert!(search_cache(&cache, &[], b"a").is_err());
    assert_eq!(cache.push(open(&old)), 1);
    assert!(!cache.needs_compaction());
    assert_eq!(cache.push(open(&new)), 2);
    assert!(cache.needs_compaction());
    let files = vec![new.clone(), old.clone()];
    assert_eq!(search_cache(&cache, &files, b"a").unwrap(), b"2".to_vec());
    assert!(matches!(
        search_cache(&cache, &files, b"b"),
        Err(SSTableError::DiskRecordNotFound)
    ));
    assert_eq!(search_cache(&cache, &files, b"c").unwrap(), b"1".to_vec());
    assert!(matches!(
        search_cache(&cache, &files, b"d"),
        Err(SSTableError::DiskRecordNotFound)
    ));
    // The same tables, found on a restart.
    let again = SSTableCache::from_restart(vec![open(&new), open(&old)], 7);
    assert_eq!(again.compaction_rate, 7);
    assert_eq!(again.clone_tables().len(), 2);
    assert_eq!(search_cache(&again, &files, b"a").unwrap(), b"2".to_vec());
    // Only the other table is left.
    cache.replace_with_compact_table(open(&old));
    assert_eq!(cache.clone_tables().len(), 1);
    assert_eq!(search_cache(&cache, &[old], b"a").unwrap(), b"1".to_vec());
}

#[test]
fn a_search_goes_on_after_an_error() {
    let file = write_sstable(&make_memtable_with_records(&[(b"a", b"1")]));
    let cache = SSTableCache::from_restart(vec![open(&file), open(&file)], 2);
    let first = match cache.search(b"a") {
        SearchStep::Read { table, .. } => table,
        SearchStep::Done(_) => panic!("there is a block to read"),
    };
    assert_eq!(first, 0);
    match cache.resume(b"a", 0, Err(SSTableError::InvalidSSTableFile)) {
        SearchStep::Read { table, .. } => assert_eq!(table, 1),
        SearchStep::Done(_) => panic!("there is a block to read"),
    }
    assert!(matches!(
        cache.resume(b"a", 1, Err(SSTableError::InvalidSSTableFile)),
        SearchStep::Done(Err(SSTableError::DiskRecordNotFound))
    ));
}

#[test]
fn compaction_keeps_the_newest_values() {
    let mut oldest = make_memtable_with_records(&[(b"a", b"1"), (b"b", b"1"), (b"c", b"1")]);
    oldest.insert_tombstone_record(b"e".to_vec()).unwrap();
    let mut newer = make_memtable_with_records(&[(b"b", b"2"), (b"d", b"2")]);
    newer.insert_tombstone_record(b"c".to_vec()).unwrap();
    let files = vec![write_sstable(&newer), write_sstable(&oldest)];
    let cache = SSTableCache::from_restart(vec![open(&files[0]), open(&files[1])], 2);
    let mut blocks: Vec<Blob> = Vec::new();
    for (table, file) in cache.clone_tables().iter().zip(&files) {
        blocks.push(file[9..table.index.data_block_end as usize].to_vec());
    }
    let merged = compact(&blocks);
    assert_eq!(merged.arena.len(), 3);
    assert!(is_writable(&merged));
    let file = write_sstable(&merged);
    let mut compacted = SSTableCache::new(2);
    compacted.replace_with_compact_table(open(&file));
    let compacted_files = vec![file];
    for key in [&b"a"[..], b"b", b"c", b"d", b"e", b"f"] {
        assert_eq!(
            search_cache(&cache, &files, key).ok(),
            search_cache(&compacted, &compacted_files, key).ok()
        );
    }
    assert_eq!(search_cache(&compacted, &compacted_files, b"b").unwrap(), b"2".to_vec());
    assert!(search_cache(&compacted, &compacted_files, b"c").is_err());
}
