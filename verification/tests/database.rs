use lsmlite::config::LsmliteConfig;
use lsmlite::database::inner::{LsmliteInner, ReadStep, WriteStep};
use lsmlite::database::LsmLite;
use lsmlite::disk::read_data_block;
use lsmlite::error::SSTableError;
use lsmlite::memtable::inner::MemtableFlushSignal;
use lsmlite::memtable::Blob;
use lsmlite::sstable::encode::write_sstable;
use lsmlite::sstable::SSTable;

fn config(max_memtable_nodes: u64) -> LsmliteConfig {
    LsmliteConfig {
        max_memtable_size: 1 << 20,
        max_memtable_nodes,
        compaction_rate: 4,
        compaction_queue_size: 8,
        memtable_flush_queue_size: 8,
    }
}

/// A database with its files: logs, oldest first, and SSTables, newest first.
struct Disk {
    db: LsmLite,
    wals: Vec<Blob>,
    sstables: Vec<Blob>,
}

impl Disk {
    fn new(config: &LsmliteConfig) -> Disk {
        Disk {
            db: LsmLite::new(Vec::new(), Vec::new(), config),
            wals: vec![Vec::new()],
            sstables: Vec::new(),
        }
    }

    fn append(&mut self, step: WriteStep) {
        if step.signal == Some(MemtableFlushSignal::Flush) {
            self.wals.push(Vec::new());
        }
        self.wals.last_mut().unwrap().extend(step.log);
    }

    fn set(&mut self, key: &[u8], value: &[u8]) {
        let planned = self.db.inner.plan_set(key, value);
        let step = self.db.set(key.to_vec(), value.to_vec());
        assert_eq!(planned.signal, step.signal);
        assert_eq!(planned.log, step.log);
        self.append(step);
    }

    fn delete(&mut self, key: &[u8]) {
        let planned = self.db.inner.plan_delete(key);
        let step = self.db.delete(key.to_vec());
        assert_eq!(planned.signal, step.signal);
        assert_eq!(planned.log, step.log);
        self.append(step);
    }

    fn get(&self, key: &[u8]) -> Option<Blob> {
        let mut step = self.db.get(key);
        loop {
            match step {
                ReadStep::Done(value) => return value,
                ReadStep::Read { table, offset, end } => {
                    let block = &self.sstables[table][offset as usize..end as usize];
                    step = self.db.resume_get(key, table, read_data_block(block, key));
                }
            }
        }
    }

    /// Writes the oldest waiting memtable to an SSTable.
    fn flush(&mut self) {
        let file = write_sstable(self.db.inner.immutable.oldest().unwrap());
        let tables = self.db.inner.load_sstable(SSTable::from_bytes(&file).unwrap());
        self.sstables.insert(0, file);
        assert_eq!(tables, self.sstables.len());
        self.wals.remove(0);
    }

    /// The database that a restart makes of the files.
    fn restart(&self, config: &LsmliteConfig) -> Disk {
        let tables: Vec<SSTable> =
            self.sstables.iter().map(|file| SSTable::from_bytes(file).unwrap()).collect();
        Disk {
            db: LsmLite::new(tables, self.wals.clone(), config),
            wals: self.wals.clone(),
            sstables: self.sstables.clone(),
        }
    }
}

#[test]
fn a_read_gives_back_the_last_write() {
    let mut disk = Disk::new(&config(100));
    assert_eq!(disk.get(b"a"), None);
    disk.set(b"a", b"1");
    disk.set(b"b", b"2");
    assert_eq!(disk.get(b"a"), Some(b"1".to_vec()));
    assert_eq!(disk.get(b"b"), Some(b"2".to_vec()));
    disk.set(b"a", b"3");
    assert_eq!(disk.get(b"a"), Some(b"3".to_vec()));
    disk.delete(b"a");
    assert_eq!(disk.get(b"a"), None);
    assert_eq!(disk.get(b"b"), Some(b"2".to_vec()));
    disk.set(b"a", b"");
    assert_eq!(disk.get(b"a"), Some(Vec::new()));
}

#[test]
fn writes_give_what_the_log_takes() {
    let mut db = LsmliteInner::new(Vec::new(), Vec::new(), &config(1));
    let step = db.set(b"a".to_vec(), b"1".to_vec());
    assert_eq!(step.signal, None);
    assert_eq!(step.log, vec![0, 4, 1, b'a', 1, b'1']);
    // The next write rotates the memtable out.
    let planned = db.plan_delete(b"a");
    assert_eq!(planned.signal, Some(MemtableFlushSignal::Flush));
    assert_eq!(planned.log, vec![1, 2, 1, b'a']);
    assert_eq!(db.immutable.tables.len(), 0);
    assert!(!format!("{:?}", db).is_empty());
    let step = db.delete(b"a".to_vec());
    assert_eq!(step.signal, Some(MemtableFlushSignal::Flush));
    assert_eq!(step.log, vec![1, 2, 1, b'a']);
    assert_eq!(db.immutable.tables.len(), 1);
    let step = db.set(b"b".to_vec(), Vec::new());
    assert_eq!(step.signal, Some(MemtableFlushSignal::Flush));
    assert_eq!(step.log, vec![0, 3, 1, b'b', 0]);
    assert_eq!(db.immutable.tables.len(), 2);
}

#[test]
fn a_tombstone_hides_older_tables() {
    let mut disk = Disk::new(&config(1));
    disk.set(b"a", b"1");
    disk.delete(b"a");
    // The value waits to be written, the tombstone is in the active memtable.
    assert_eq!(disk.get(b"a"), None);
    disk.set(b"b", b"2");
    // Both wait.
    assert_eq!(disk.get(b"a"), None);
    disk.flush();
    // The value is on disk, the tombstone waits.
    assert_eq!(disk.get(b"a"), None);
    disk.flush();
    // Both are on disk.
    assert_eq!(disk.get(b"a"), None);
    assert_eq!(disk.get(b"b"), Some(b"2".to_vec()));
    disk.set(b"a", b"4");
    assert_eq!(disk.get(b"a"), Some(b"4".to_vec()));
}

#[test]
fn rotation_and_flushes_change_no_value() {
    let mut disk = Disk::new(&config(3));
    let mut expected: Vec<(Blob, Option<Blob>)> = Vec::new();
    for i in 0..60u32 {
        let key = format!("key{}", i * 13 % 20).into_bytes();
        let value = if i % 7 == 3 { None } else { Some(format!("value{}", i).into_bytes()) };
        match &value {
            Some(value) => disk.set(&key, value),
            None => disk.delete(&key),
        }
        expected.retain(|(k, _)| *k != key);
        expected.push((key, value));
        if i % 5 == 4 && disk.db.inner.immutable.oldest().is_some() {
            disk.flush();
        }
        for (key, value) in &expected {
            assert_eq!(disk.get(key), *value);
        }
    }
    assert!(disk.sstables.len() > 3);
    // A restart finds the same.
    let again = disk.restart(&config(3));
    assert_eq!(again.db.inner.immutable.tables.len(), disk.db.inner.immutable.tables.len());
    for (key, value) in &expected {
        assert_eq!(again.get(key), *value);
    }
    assert_eq!(again.get(b"key20"), None);
}

#[test]
fn a_restart_after_a_torn_log() {
    let mut disk = Disk::new(&config(100));
    disk.set(b"a", b"1");
    disk.set(b"b", b"2");
    disk.wals[0].pop();
    let again = disk.restart(&config(100));
    assert_eq!(again.get(b"a"), Some(b"1".to_vec()));
    assert_eq!(again.get(b"b"), None);
}

#[test]
fn a_memtable_without_room_takes_nothing() {
    let mut disk = Disk::new(&config(0));
    disk.set(b"a", b"1");
    assert_eq!(disk.get(b"a"), None);
    assert_eq!(disk.wals.len(), 2);
    assert!(disk.wals[1].is_empty());
}

#[test]
fn poison_is_seen() {
    let mut db = LsmliteInner::new(Vec::new(), Vec::new(), &config(1));
    assert!(db.check_poison_flag());
    db.poison();
    assert!(!db.check_poison_flag());
}

#[test]
fn a_read_goes_on_where_a_table_cannot_be_read() {
    let mut disk = Disk::new(&config(1));
    disk.set(b"a", b"1");
    disk.set(b"a", b"2");
    disk.set(b"b", b"3");
    disk.flush();
    disk.flush();
    match disk.db.get(b"a") {
        ReadStep::Read { table, .. } => assert_eq!(table, 0),
        ReadStep::Done(_) => panic!("the value is on disk"),
    }
    match disk.db.resume_get(b"a", 0, Err(SSTableError::InvalidSSTableFile)) {
        ReadStep::Read { table, .. } => assert_eq!(table, 1),
        ReadStep::Done(_) => panic!("there is an older table"),
    }
    assert!(matches!(
        disk.db.resume_get(b"a", 0, Err(SSTableError::Tombstone)),
        ReadStep::Done(None)
    ));
    assert!(matches!(
        disk.db.resume_get(b"a", 1, Err(SSTableError::DiskRecordNotFound)),
        ReadStep::Done(None)
    ));
}
