//! Sorted tables on disk.
pub mod bloom_filter;
pub mod encode;
pub mod footer;
pub mod level_cache;
pub mod limits;
pub mod roundtrip;

use crate::constants;
use crate::disk::block_answer;
use crate::error::{unexpected_eof, SSTableError};
use crate::memtable::Blob;
use crate::ssindex::arena;
use crate::ssindex::arena::contents;
use crate::ssindex::{
    index_cut_off, index_in, is_max_key, is_min_key, offset_for_key, IndexView, SstIndex,
};
use crate::util;
use crate::util::{be_value, bytes_lt};
use vstd::prelude::*;

verus! {

/// What a lookup in one table does next.
pub enum TableStep {
    /// Read the bytes of the file from `offset` up to `end`, and look the key up in
    /// them with [`crate::disk::read_data_block`].
    Read { offset: u64, end: u64 },
    /// The lookup is over.
    Done(Result<Blob, SSTableError>),
}

/// The bytes of the file to read for `key`; `None` where nothing has to be read.
pub open spec fn block_for_key(index: IndexView, key: Seq<u8>) -> Option<(u64, u64)> {
    match offset_for_key(index, key) {
        Some(offset) => if offset <= index.data_block_end {
            Some((offset, index.data_block_end))
        } else {
            None
        },
        None => None,
    }
}

/// What a table with the given index and file says of `key`; see [`block_answer`].
pub open spec fn table_answer(index: IndexView, file: Seq<u8>, key: Seq<u8>) -> Option<
    Option<Seq<u8>>,
> {
    match block_for_key(index, key) {
        Some((offset, end)) => if end <= file.len() {
            block_answer(file.subrange(offset as int, end as int), key)
        } else {
            None
        },
        None => None,
    }
}

/// A file begins with the magic bytes.
pub open spec fn has_magic(file: Seq<u8>) -> bool {
    7 <= file.len() && file.subrange(0, 7) == constants::sstable_magic()
}

/// The magic bytes of a file are the seven of `lsmlite` in ASCII, each of them.
pub proof fn lemma_magic(file: Seq<u8>)
    ensures
        has_magic(file) <==> {
            &&& 7 <= file.len()
            &&& file[0] == 0x6C
            &&& file[1] == 0x73
            &&& file[2] == 0x6D
            &&& file[3] == 0x6C
            &&& file[4] == 0x69
            &&& file[5] == 0x74
            &&& file[6] == 0x65
        },
{
    let magic = constants::sstable_magic();
    if 7 <= file.len() {
        let front = file.subrange(0, 7);
        if front == magic {
            assert(front[0] == magic[0] && front[1] == magic[1] && front[2] == magic[2] && front[3]
                == magic[3] && front[4] == magic[4] && front[5] == magic[5] && front[6]
                == magic[6]);
        }
        if file[0] == 0x6C && file[1] == 0x73 && file[2] == 0x6D && file[3] == 0x6C && file[4]
            == 0x69 && file[5] == 0x74 && file[6] == 0x65 {
            assert(front =~= magic);
        }
    }
}

/// Checks the magic bytes at the start of a file, and gives the version behind them. A
/// file that ends before its header does fails to be read, unless its magic bytes are
/// others.
pub fn validate_buffer_and_get_version(file: &[u8]) -> (version: Result<u16, SSTableError>)
    ensures
        match version {
            Ok(version) => has_magic(file@) && 9 <= file@.len() && version == be_value(
                file@.subrange(7, 9),
            ),
            Err(SSTableError::InvalidSSTableFile) => 7 <= file@.len() && !has_magic(file@),
            Err(SSTableError::IOError(_)) => file@.len() < 7 || has_magic(file@) && file@.len() < 9,
            Err(_) => false,
        },
        match version {
            Ok(version) => 9 <= file@.len() && file@.subrange(0, 7) == seq![
                0x6Cu8,
                0x73,
                0x6D,
                0x6C,
                0x69,
                0x74,
                0x65,
            ] && version == 256 * file@[7] + file@[8],
            Err(SSTableError::InvalidSSTableFile) => 7 <= file@.len() && file@.subrange(0, 7)
                != seq![0x6Cu8, 0x73, 0x6D, 0x6C, 0x69, 0x74, 0x65],
            Err(_) => file@.len() < 9,
        },
{
    proof {
        if 9 <= file.len() {
            util::lemma_be_value_of_two(file@[7], file@[8]);
            assert(file@.subrange(7, 9) =~= seq![file@[7], file@[8]]);
        }
    }
    if file.len() < 7 {
        return Err(SSTableError::IOError(unexpected_eof()));
    }
    let magic = constants::lsmlite_sstable_header();
    let header_buffer = vstd::slice::slice_subrange(file, 0, 7);
    if util::key_order(header_buffer, magic.as_slice()) != util::KeyOrder::Equal {
        return Err(SSTableError::InvalidSSTableFile);
    }
    if file.len() < 9 {
        return Err(SSTableError::IOError(unexpected_eof()));
    }
    Ok(util::get_be_u16(file, 7))
}

/// An SSTable, apart from its file.
#[derive(Debug)]
pub struct SSTable {
    pub index: SstIndex,
    /// The version of the file format.
    pub version: u16,
    /// Bytes in the file.
    pub size: u64,
}

impl SSTable {
    /// The index can be searched.
    pub open spec fn wf(&self) -> bool {
        self.index.wf()
    }

    /// The first and the last key can be found.
    pub open spec fn spanned(&self) -> bool {
        arena::spanned(self.index@.nodes)
    }

    /// Whether the first and the last key can be found.
    pub fn is_spanned(&self) -> (checked: bool)
        ensures
            checked == self.spanned(),
    {
        self.index.is_spanned()
    }

    /// Whether the table can be searched: what was read from a file may hold anything.
    pub fn is_searchable(&self) -> (checked: bool)
        ensures
            checked == self.wf(),
    {
        self.index.is_searchable()
    }

    /// The table in a file. Behind a whole header the file has to hold an index, or a
    /// footer by which the index is cut off.
    pub fn from_bytes(file: &[u8]) -> (table: Result<SSTable, SSTableError>)
        requires
            has_magic(file@) && 9 <= file.len() ==> index_in(file@) is Some || index_cut_off(file@),
        ensures
            match table {
                Ok(table) => {
                    &&& has_magic(file@)
                    &&& 9 <= file@.len()
                    &&& index_in(file@) == Some(table.index@)
                    &&& table.version == be_value(file@.subrange(7, 9))
                    &&& table.size == file@.len()
                },
                Err(SSTableError::InvalidSSTableFile) => 7 <= file@.len() && !has_magic(file@),
                Err(SSTableError::IOError(_)) => {
                    ||| file@.len() < 7
                    ||| has_magic(file@) && (file@.len() < 9 || index_cut_off(file@))
                },
                Err(_) => false,
            },
            match table {
                Ok(table) => 9 <= file@.len() && file@.subrange(0, 7) == seq![
                    0x6Cu8,
                    0x73,
                    0x6D,
                    0x6C,
                    0x69,
                    0x74,
                    0x65,
                ] && table.version == 256 * file@[7] + file@[8],
                Err(SSTableError::InvalidSSTableFile) => 7 <= file@.len() && file@.subrange(0, 7)
                    != seq![0x6Cu8, 0x73, 0x6D, 0x6C, 0x69, 0x74, 0x65],
                Err(_) => true,
            },
    {
        let version: u16 = match validate_buffer_and_get_version(file) {
            Ok(version) => version,
            Err(err) => return Err(err),
        };
        match SstIndex::from_disk_sstable(file) {
            Ok(index) => Ok(SSTable { index, version, size: file.len() as u64 }),
            Err(err) => Err(SSTableError::from(err)),
        }
    }

    /// The first key of the table in byte order.
    pub fn min_key(&self) -> (key: Blob)
        requires
            self.spanned(),
        ensures
            is_min_key(contents(self.index@.nodes).dom(), key@),
            forall|other: Seq<u8>| #[trigger]
                contents(self.index@.nodes).dom().contains(other) ==> {
                    &&& contents(self.index@.nodes).dom().contains(key@)
                    &&& other == key@ || bytes_lt(key@, other)
                },
    {
        self.index.min_key()
    }

    /// The last key of the table in byte order.
    pub fn max_key(&self) -> (key: Blob)
        requires
            self.spanned(),
        ensures
            is_max_key(contents(self.index@.nodes).dom(), key@),
            forall|other: Seq<u8>| #[trigger]
                contents(self.index@.nodes).dom().contains(other) ==> {
                    &&& contents(self.index@.nodes).dom().contains(key@)
                    &&& other == key@ || bytes_lt(other, key@)
                },
    {
        self.index.max_key()
    }

    /// Starts a lookup of `key`.
    pub fn search(&self, key: &[u8]) -> (step: TableStep)
        requires
            self.wf(),
        ensures
            match step {
                TableStep::Read { offset, end } => block_for_key(self.index@, key@) == Some(
                    (offset, end),
                ),
                TableStep::Done(Err(SSTableError::DiskRecordNotFound)) => offset_for_key(
                    self.index@,
                    key@,
                ) is None,
                TableStep::Done(Err(SSTableError::InvalidSSTableFile)) => offset_for_key(
                    self.index@,
                    key@,
                ) is Some && block_for_key(self.index@, key@) is None,
                TableStep::Done(_) => false,
            },
            match step {
                TableStep::Read { offset, end } => offset_for_key(self.index@, key@) == Some(offset)
                    && end == self.index.data_block_end && offset <= end,
                TableStep::Done(Err(SSTableError::InvalidSSTableFile)) => offset_for_key(
                    self.index@,
                    key@,
                ) matches Some(offset) && self.index.data_block_end < offset,
                TableStep::Done(_) => offset_for_key(self.index@, key@) is None,
            },
    {
        match self.index.get_offset_for_key(key) {
            None => TableStep::Done(Err(SSTableError::DiskRecordNotFound)),
            Some(offset) => {
                let end: u64 = self.index.data_block_end;
                if offset <= end {
                    TableStep::Read { offset, end }
                } else {
                    TableStep::Done(Err(SSTableError::InvalidSSTableFile))
                }
            },
        }
    }
}

/// What a lookup in the tables of a cache does next.
pub enum SearchStep {
    /// Read the bytes of the file of table `table` from `offset` up to `end`, look
    /// the key up in them with [`crate::disk::read_data_block`], and go on with
    /// [`SSTableCache::resume`].
    Read { table: usize, offset: u64, end: u64 },
    /// The lookup is over.
    Done(Result<Blob, SSTableError>),
}

/// The SSTables of a database, newest first.
#[derive(Debug)]
pub struct SSTableCache {
    pub tables: Vec<SSTable>,
    /// How many tables make a compaction due.
    pub compaction_rate: usize,
}

/// The indexes of tables, in their order.
pub open spec fn indexes(tables: Seq<SSTable>) -> Seq<IndexView> {
    tables.map_values(|table: SSTable| table.index@)
}

/// What tables with the given indexes and files say of `key`: what the first from
/// table `first` on says that says anything.
pub open spec fn tables_answer(
    indexes: Seq<IndexView>,
    files: Seq<Seq<u8>>,
    key: Seq<u8>,
    first: int,
) -> Option<Option<Seq<u8>>>
    decreases indexes.len() - first,
{
    if first < 0 || first >= indexes.len() {
        None
    } else {
        match table_answer(indexes[first], files[first], key) {
            Some(answer) => Some(answer),
            None => tables_answer(indexes, files, key, first + 1),
        }
    }
}

/// Table `i` says something of `key`, and none before it, from table `first` on, does.
pub open spec fn is_first_for(
    indexes: Seq<IndexView>,
    files: Seq<Seq<u8>>,
    key: Seq<u8>,
    first: int,
    i: int,
) -> bool {
    &&& first <= i < indexes.len()
    &&& table_answer(indexes[i], files[i], key) is Some
    &&& forall|j: int|
        first <= j < i ==> table_answer(#[trigger] indexes[j], files[j], key) is None
}

/// What tables say of a key is what the first says that says anything, a tombstone too;
/// they say nothing if and only if none does.
pub proof fn lemma_tables_answer(
    indexes: Seq<IndexView>,
    files: Seq<Seq<u8>>,
    key: Seq<u8>,
    first: int,
)
    requires
        0 <= first <= indexes.len(),
    ensures
        forall|i: int| #[trigger]
            is_first_for(indexes, files, key, first, i) ==> tables_answer(
                indexes,
                files,
                key,
                first,
            ) == table_answer(indexes[i], files[i], key),
        tables_answer(indexes, files, key, first) is None <==> forall|i: int|
            first <= i < indexes.len() ==> table_answer(#[trigger] indexes[i], files[i], key)
                is None,
    decreases indexes.len() - first,
{
    if first < indexes.len() {
        lemma_tables_answer(indexes, files, key, first + 1);
        assert forall|i: int| #[trigger]
            is_first_for(indexes, files, key, first, i) implies tables_answer(
            indexes,
            files,
            key,
            first,
        ) == table_answer(indexes[i], files[i], key) by {
            if i > first {
                assert(table_answer(indexes[first], files[first], key) is None);
                assert(is_first_for(indexes, files, key, first + 1, i));
            }
        }
    }
}

/// There is a file for each index, with the data blocks in it.
pub open spec fn files_match(indexes: Seq<IndexView>, files: Seq<Seq<u8>>) -> bool {
    &&& files.len() == indexes.len()
    &&& forall|i: int|
        0 <= i < indexes.len() ==> (#[trigger] indexes[i]).data_block_end <= files[i].len()
}

/// The tables from `first` up to `last` have nothing to read for `key`.
pub open spec fn nothing_to_read(
    indexes: Seq<IndexView>,
    key: Seq<u8>,
    first: int,
    last: int,
) -> bool {
    forall|i: int| first <= i < last ==> block_for_key(#[trigger] indexes[i], key) is None
}

/// `step` is the next one for `key` from table `first` on: the first block that
/// there is to read, or the end, with nothing found.
pub open spec fn is_next_step(
    indexes: Seq<IndexView>,
    key: Seq<u8>,
    first: int,
    step: SearchStep,
) -> bool {
    match step {
        SearchStep::Read { table, offset, end } => {
            &&& first <= table < indexes.len()
            &&& block_for_key(indexes[table as int], key) == Some((offset, end))
            &&& nothing_to_read(indexes, key, first, table as int)
        },
        SearchStep::Done(result) => {
            &&& result matches Err(err) && err is DiskRecordNotFound
            &&& nothing_to_read(indexes, key, first, indexes.len() as int)
        },
    }
}

/// Tables with nothing to read are passed over.
pub proof fn lemma_nothing_to_read(
    indexes: Seq<IndexView>,
    files: Seq<Seq<u8>>,
    key: Seq<u8>,
    first: int,
    last: int,
)
    requires
        0 <= first <= last <= indexes.len(),
        nothing_to_read(indexes, key, first, last),
    ensures
        tables_answer(indexes, files, key, first) == tables_answer(indexes, files, key, last),
    decreases last - first,
{
    if first < last {
        assert(block_for_key(indexes[first], key) is None);
        lemma_nothing_to_read(indexes, files, key, first + 1, last);
    }
}

/// Searching step by step gives what the newest table says that says anything. Where
/// the search ends, no table says anything; where it reads, what the bytes say holds,
/// and where they say nothing, what the tables behind say.
pub proof fn lemma_search_step(
    indexes: Seq<IndexView>,
    files: Seq<Seq<u8>>,
    key: Seq<u8>,
    first: int,
    step: SearchStep,
)
    requires
        0 <= first <= indexes.len(),
        files_match(indexes, files),
        is_next_step(indexes, key, first, step),
    ensures
        match step {
            SearchStep::Read { table, offset, end } => {
                &&& offset <= end <= files[table as int].len()
                &&& tables_answer(indexes, files, key, first) == match block_answer(
                    files[table as int].subrange(offset as int, end as int),
                    key,
                ) {
                    Some(answer) => Some(answer),
                    None => tables_answer(indexes, files, key, table + 1),
                }
            },
            SearchStep::Done(_) => tables_answer(indexes, files, key, first) is None,
        },
{
    match step {
        SearchStep::Read { table, offset, end } => {
            lemma_nothing_to_read(indexes, files, key, first, table as int);
            assert(indexes[table as int].data_block_end <= files[table as int].len());
        },
        SearchStep::Done(_) => {
            lemma_nothing_to_read(indexes, files, key, first, indexes.len() as int);
        },
    }
}

/// An SSTable in front moves the others one place.
proof fn lemma_tables_push_front(
    index: IndexView,
    file: Seq<u8>,
    indexes: Seq<IndexView>,
    files: Seq<Seq<u8>>,
    key: Seq<u8>,
    first: int,
)
    requires
        files.len() == indexes.len(),
        0 <= first <= indexes.len(),
    ensures
        tables_answer(seq![index] + indexes, seq![file] + files, key, first + 1) == tables_answer(
            indexes,
            files,
            key,
            first,
        ),
    decreases indexes.len() - first,
{
    if first < indexes.len() {
        lemma_tables_push_front(index, file, indexes, files, key, first + 1);
    }
}

/// A table in front of others alone decides what is said of a key that it holds a
/// record of; of every other key the others say what they said before.
pub proof fn lemma_table_in_front(
    index: IndexView,
    file: Seq<u8>,
    indexes: Seq<IndexView>,
    files: Seq<Seq<u8>>,
    key: Seq<u8>,
)
    requires
        files.len() == indexes.len(),
    ensures
        tables_answer(seq![index] + indexes, seq![file] + files, key, 0) == match table_answer(
            index,
            file,
            key,
        ) {
            Some(answer) => Some(answer),
            None => tables_answer(indexes, files, key, 0),
        },
{
    lemma_tables_push_front(index, file, indexes, files, key, 0);
    assert((seq![index] + indexes)[0] == index);
    assert((seq![file] + files)[0] == file);
}

/// After a push the new table decides what the cache says of a key that it holds a
/// record of: its value, or nothing where that is a tombstone. Of every other key the
/// cache says what it said before.
pub proof fn lemma_push(
    before: SSTableCache,
    after: SSTableCache,
    table: SSTable,
    file: Seq<u8>,
    files: Seq<Seq<u8>>,
    key: Seq<u8>,
)
    requires
        after.tables@ == seq![table] + before.tables@,
        files.len() == before.tables@.len(),
    ensures
        tables_answer(after.indexes(), seq![file] + files, key, 0) == match table_answer(
            table.index@,
            file,
            key,
        ) {
            Some(answer) => Some(answer),
            None => tables_answer(before.indexes(), files, key, 0),
        },
{
    assert(after.indexes() =~= seq![table.index@] + before.indexes());
    lemma_table_in_front(table.index@, file, before.indexes(), files, key);
}

/// Every table can be searched.
pub open spec fn tables_wf(tables: Seq<SSTable>) -> bool {
    forall|i: int| 0 <= i < tables.len() ==> (#[trigger] tables[i]).wf()
}

/// The next step of a lookup in `tables` from table `first` on.
fn search_from(tables: &[SSTable], key: &[u8], first: usize) -> (step: SearchStep)
    requires
        tables_wf(tables@),
        first <= tables@.len(),
    ensures
        is_next_step(indexes(tables@), key@, first as int, step),
{
    let mut i: usize = first;
    while i < tables.len()
        invariant
            tables_wf(tables@),
            first <= i <= tables@.len(),
            nothing_to_read(indexes(tables@), key@, first as int, i as int),
        decreases tables@.len() - i,
    {
        let table = &tables[i];
        assert(indexes(tables@)[i as int] == table.index@);
        if let TableStep::Read { offset, end } = table.search(key) {
            return SearchStep::Read { table: i, offset, end };
        }
        i = i + 1;
    }
    SearchStep::Done(Err(SSTableError::DiskRecordNotFound))
}

impl SSTableCache {
    /// Every table can be searched.
    pub open spec fn wf(&self) -> bool {
        tables_wf(self.tables@)
    }

    /// The indexes of the tables, newest first.
    pub open spec fn indexes(&self) -> Seq<IndexView> {
        indexes(self.tables@)
    }

    /// A cache without tables.
    pub fn new(compaction_rate: usize) -> (cache: SSTableCache)
        ensures
            cache.wf(),
            cache.tables@ == Seq::<SSTable>::empty(),
            cache.compaction_rate == compaction_rate,
    {
        SSTableCache { tables: Vec::new(), compaction_rate }
    }

    /// The cache of the tables that a restart found, which are sorted from newest to
    /// oldest.
    pub fn from_restart(disk_tables: Vec<SSTable>, compaction_rate: usize) -> (cache: SSTableCache)
        requires
            tables_wf(disk_tables@),
        ensures
            cache.wf(),
            cache.tables@ == disk_tables@,
            cache.compaction_rate == compaction_rate,
    {
        SSTableCache { tables: disk_tables, compaction_rate }
    }

    /// Starts a lookup of `key`.
    pub fn search(&self, key: &[u8]) -> (step: SearchStep)
        requires
            self.wf(),
        ensures
            is_next_step(self.indexes(), key@, 0, step),
    {
        search_from(self.tables.as_slice(), key, 0)
    }

    /// Goes on with a lookup of `key` after table `table` gave `result`. A value ends
    /// it; a tombstone ends it with nothing found; else the next table is asked.
    pub fn resume(
        &self,
        key: &[u8],
        table: usize,
        result: Result<Blob, SSTableError>,
    ) -> (step: SearchStep)
        requires
            self.wf(),
            table < self.tables.len(),
        ensures
            match result {
                Ok(value) => step == SearchStep::Done(Ok(value)),
                Err(SSTableError::Tombstone) => step matches SearchStep::Done(Err(err)) && err
                    is DiskRecordNotFound,
                Err(_) => is_next_step(self.indexes(), key@, table + 1, step),
            },
    {
        match result {
            Ok(value) => SearchStep::Done(Ok(value)),
            Err(SSTableError::Tombstone) => SearchStep::Done(Err(SSTableError::DiskRecordNotFound)),
            Err(_) => search_from(self.tables.as_slice(), key, table + 1),
        }
    }

    /// Adds the newest table, and gives the number of tables.
    pub fn push(&mut self, table: SSTable) -> (len: usize)
        requires
            old(self).wf(),
            table.wf(),
        ensures
            final(self).wf(),
            final(self).tables@ == seq![table] + old(self).tables@,
            final(self).compaction_rate == old(self).compaction_rate,
            len == final(self).tables@.len(),
    {
        self.tables.insert(0, table);
        assert(self.tables@ =~= seq![table] + old(self).tables@);
        self.tables.len()
    }

    /// Whether there are so many tables that a compaction is due.
    pub fn needs_compaction(&self) -> (due: bool)
        ensures
            due == (self.tables@.len() >= self.compaction_rate),
    {
        self.tables.len() >= self.compaction_rate
    }

    /// Puts one table in the place of all.
    pub fn replace_with_compact_table(&mut self, new_table: SSTable)
        requires
            new_table.wf(),
        ensures
            final(self).wf(),
            final(self).tables@ == seq![new_table],
            final(self).compaction_rate == old(self).compaction_rate,
    {
        self.tables.clear();
        self.tables.push(new_table);
        assert(self.tables@ =~= seq![new_table]);
    }

    /// The tables, newest first.
    pub fn clone_tables(&self) -> (tables: &Vec<SSTable>)
        ensures
            tables@ == self.tables@,
    {
        &self.tables
    }
}

/// Files match the tables that were opened from them, one by one.
pub proof fn lemma_files_match(indexes: Seq<IndexView>, files: Seq<Seq<u8>>)
    requires
        files.len() == indexes.len(),
        forall|i: int|
            0 <= i < files.len() ==> index_in(#[trigger] files[i]) == Some(indexes[i]),
    ensures
        files_match(indexes, files),
{
    assert forall|i: int| 0 <= i < indexes.len() implies (#[trigger] indexes[i]).data_block_end
        <= files[i].len() by {
        assert(index_in(files[i]) == Some(indexes[i]));
    }
}

/// What a table says of a key is what the record at the key's offset says. A table whose
/// index has no offset for the key says nothing, and neither does one where the offset
/// lies behind the data block, or the data block ends behind the file.
pub proof fn lemma_table_answer(index: IndexView, file: Seq<u8>, key: Seq<u8>)
    ensures
        offset_for_key(index, key) matches Some(offset) && offset <= index.data_block_end
            && index.data_block_end <= file.len() ==> table_answer(index, file, key)
            == block_answer(
            file.subrange(offset_for_key(index, key)->0 as int, index.data_block_end as int),
            key,
        ),
        offset_for_key(index, key) is None ==> table_answer(index, file, key) is None,
        offset_for_key(index, key) matches Some(offset) && index.data_block_end < offset
            ==> table_answer(index, file, key) is None,
{
}

} // verus!
