use lsmlite::disk::read_data_block;
use lsmlite::error::SSTableError;
use lsmlite::memtable::inner::MemtableInner;
use lsmlite::memtable::Blob;
use lsmlite::sstable::encode::write_sstable;
use lsmlite::sstable::level_cache::{CacheLevel, LevelStep, LevelZero, SSTableLevelCache};
use lsmlite::sstable::{SSTable, SearchStep};

fn file_of(records: &[(&[u8], Option<&[u8]>)]) -> Blob {
    let mut table = MemtableInner::new(usize::MAX, usize::MAX);
    for (key, value) in records {
        match value {
            Some(value) => table.insert_data_record(key.to_vec(), value.to_vec()).unwrap(),
            None => table.insert_tombstone_record(key.to_vec()).unwrap(),
        }
    }
    write_sstable(&table)
}

fn open(file: &Blob) -> SSTable {
    SSTable::from_bytes(file).unwrap()
}

fn level(tables: Vec<SSTable>, max_size: u64, current_size: u64) -> CacheLevel {
    CacheLevel { table: tables, level: 1, compaction_key: Vec::new(), max_size, current_size }
}

fn search(cache: &SSTableLevelCache, zero: &[Blob], key: &[u8]) -> Result<Blob, SSTableError> {
    let mut step = cache.get(key);
    loop {
        match step {
            LevelStep::Done(result) => return result,
            LevelStep::Read { level, table, offset, end } => {
                assert_eq!(level, 0);
                let block = &zero[table][offset as usize..end as usize];
                step = cache.resume(key, level, table, read_data_block(block, key));
            }
        }
    }
}

#[test]
fn level_zero_answers_newest_first() {
    let files = vec![
        file_of(&[(b"a", Some(b"3")), (b"b", None)]),
        file_of(&[(b"a", Some(b"1")), (b"b", Some(b"1")), (b"c", Some(b"1"))]),
    ];
    let cache = SSTableLevelCache {
        zero: LevelZero { level: vec![open(&files[0]), open(&files[1])], capacity: 4 },
        tables: vec![level(vec![open(&files[1])], 10, 5)],
    };
    assert_eq!(search(&cache, &files, b"a").unwrap(), b"3".to_vec());
    assert!(matches!(search(&cache, &files, b"b"), Err(SSTableError::DiskRecordNotFound)));
    assert_eq!(search(&cache, &files, b"c").unwrap(), b"1".to_vec());
    assert!(matches!(search(&cache, &files, b"d"), Err(SSTableError::DiskRecordNotFound)));
}

#[test]
fn a_tombstone_ends_the_search_of_level_zero() {
    let file = file_of(&[(b"a", Some(b"1"))]);
    let zero = LevelZero { level: vec![open(&file), open(&file)], capacity: 2 };
    assert!(matches!(
        zero.resume(b"a", 0, Err(SSTableError::Tombstone)),
        SearchStep::Done(Err(SSTableError::DiskRecordNotFound))
    ));
    assert!(matches!(
        zero.resume(b"a", 0, Err(SSTableError::DiskRecordNotFound)),
        SearchStep::Read { table: 1, .. }
    ));
    assert!(matches!(
        zero.resume(b"a", 1, Err(SSTableError::DiskRecordNotFound)),
        SearchStep::Done(Err(SSTableError::DiskRecordNotFound))
    ));
    assert!(matches!(zero.get(b"a"), SearchStep::Read { table: 0, .. }));
    assert!(matches!(
        zero.get(b"q"),
        SearchStep::Done(Err(SSTableError::DiskRecordNotFound))
    ));
}

#[test]
fn no_table_of_a_lower_level_is_a_candidate() {
    let tables = vec![
        open(&file_of(&[(b"a", Some(b"1")), (b"c", Some(b"1"))])),
        open(&file_of(&[(b"d", Some(b"1")), (b"f", Some(b"1"))])),
        open(&file_of(&[])),
    ];
    let level = level(tables, 1, 1);
    for key in [&b""[..], b"a", b"b", b"c", b"d", b"e", b"f", b"g"] {
        assert!(matches!(
            level.get(key),
            SearchStep::Done(Err(SSTableError::DiskRecordNotFound))
        ));
    }
}

#[test]
fn levels_are_due_at_their_size() {
    assert!(!level(Vec::new(), 10, 9).needs_compaction());
    assert!(level(Vec::new(), 10, 10).needs_compaction());
    assert!(level(Vec::new(), 10, 11).needs_compaction());
    let cache = SSTableLevelCache {
        zero: LevelZero { level: Vec::new(), capacity: 1 },
        tables: vec![level(Vec::new(), 2, 1), level(Vec::new(), 2, 2)],
    };
    assert!(!cache.level_needs_compaction(0));
    assert!(cache.level_needs_compaction(1));
    assert!(!cache.level_needs_compaction(2));
}

#[test]
fn lower_levels_are_asked_in_turn() {
    let cache = SSTableLevelCache {
        zero: LevelZero { level: Vec::new(), capacity: 1 },
        tables: vec![level(Vec::new(), 2, 1), level(Vec::new(), 2, 2)],
    };
    assert!(matches!(
        cache.get(b"a"),
        LevelStep::Done(Err(SSTableError::DiskRecordNotFound))
    ));
    match cache.resume(b"a", 1, 0, Ok(b"1".to_vec())) {
        LevelStep::Done(Ok(value)) => assert_eq!(value, b"1".to_vec()),
        _ => panic!("a value ends the search"),
    }
    assert!(matches!(
        cache.resume(b"a", 1, 0, Err(SSTableError::Tombstone)),
        LevelStep::Done(Err(SSTableError::DiskRecordNotFound))
    ));
    assert!(matches!(
        cache.resume(b"a", 1, 0, Err(SSTableError::InvalidSSTableFile)),
        LevelStep::Done(Err(SSTableError::DiskRecordNotFound))
    ));
}
