use lsmlite::memtable::Blob;
use lsmlite::restart::{get_restart_state, sstable_file_name, wal_file_name};

#[test]
fn names_of_files() {
    assert_eq!(sstable_file_name(0), b"lsmlite.0.sstable".to_vec());
    assert_eq!(sstable_file_name(1712345678901), b"lsmlite.1712345678901.sstable".to_vec());
    assert_eq!(wal_file_name(10), b"lsmlite.wal.10.log".to_vec());
    assert_eq!(
        wal_file_name(u64::MAX),
        b"lsmlite.wal.18446744073709551615.log".to_vec()
    );
}

#[test]
fn files_are_found_in_order() {
    let names: Vec<Blob> = vec![
        b"lsmlite.wal.30.log".to_vec(),
        b"lsmlite.5.sstable".to_vec(),
        sstable_file_name(1000),
        b"lsmlite.wal.4.log".to_vec(),
        b"lsmlite.70.sstable".to_vec(),
        wal_file_name(u64::MAX),
        b"notes.txt".to_vec(),
    ];
    let state = get_restart_state(&names);
    let sstables: Vec<u64> = state.sstables.iter().map(|file| file.timestamp).collect();
    let wals: Vec<u64> = state.wals.iter().map(|file| file.timestamp).collect();
    assert_eq!(sstables, vec![1000, 70, 5]);
    assert_eq!(wals, vec![4, 30, u64::MAX]);
    assert_eq!(state.sstables[2].filename, b"lsmlite.5.sstable".to_vec());
    assert_eq!(state.wals[0].filename, b"lsmlite.wal.4.log".to_vec());
}

#[test]
fn other_names_are_passed_over() {
    let names: Vec<Blob> = vec![
        b"lsmlite..sstable".to_vec(),
        b"lsmlite.sstable".to_vec(),
        b"lsmlite.1x.sstable".to_vec(),
        b"lsmlite.-1.sstable".to_vec(),
        b"lsmlite.wal.1.sstable".to_vec(),
        b"lsmlite.1.sstable.tmp".to_vec(),
        b"Lsmlite.1.sstable".to_vec(),
        b"lsmlite.18446744073709551616.sstable".to_vec(),
        b"lsmlite.wal..log".to_vec(),
        b"lsmlite.wal.18446744073709551616.log".to_vec(),
        b"lsmlite.1.log".to_vec(),
        b"".to_vec(),
    ];
    let state = get_restart_state(&names);
    assert!(state.sstables.is_empty());
    assert!(state.wals.is_empty());
}
