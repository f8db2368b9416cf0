# lsmlite

The storage engine of an LSM-tree key-value store, verified with Verus.

Writes go to a memtable and to a write-ahead log. A full memtable is rotated out
and written to an immutable, sorted SSTable. Reads ask the memtables and then the
SSTables, newest first, and a tombstone ends them.

The library does no I/O. Reads and writes hand out steps: the bytes to append to
the log, the part of a file to read. `app/` carries them out on files, with the
background tasks that flush and compact.

- `src/memtable/` records, the red-black tree that holds them, the memtables
- `src/disk/` records and logs as bytes
- `src/ssindex/` the trie that leads from keys to file offsets
- `src/sstable/` SSTables: filter, footer, writing, searching, levels
- `src/compaction.rs` merging SSTables
- `src/database/` the database, and the laws of reads and writes taken together
- `src/restart.rs` finding the files of a database again
