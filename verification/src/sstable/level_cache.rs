//! SSTables in levels.
use crate::disk::block_answer;
use crate::error::SSTableError;
use crate::memtable::Blob;
use crate::ssindex::arena::contents;
use crate::ssindex::{first_key, last_key, lemma_first_last_key, lemma_spanned_keys};
use crate::sstable::{
    files_match, indexes, is_next_step, lemma_search_step, search_from, tables_answer, tables_wf,
    SSTable, SearchStep, TableStep,
};
use crate::util;
use crate::util::{bytes_lt, KeyOrder};
use vstd::prelude::*;

verus! {

/// The level that takes the tables from memory, newest first. Their keys overlap.
pub struct LevelZero {
    pub level: Vec<SSTable>,
    pub capacity: usize,
}

impl LevelZero {
    /// Every table can be searched.
    pub open spec fn wf(&self) -> bool {
        tables_wf(self.level@)
    }

    /// Starts a lookup of `key`.
    pub fn get(&self, key: &[u8]) -> (step: SearchStep)
        requires
            self.wf(),
        ensures
            is_next_step(indexes(self.level@), key@, 0, step),
    {
        search_from(self.level.as_slice(), key, 0)
    }

    /// Goes on with a lookup of `key` after table `table` gave `result`. A value ends
    /// it; a tombstone ends it with nothing found; else the next table is asked.
    pub fn resume(
        &self,
        key: &[u8],
        table: usize,
        result: Result<Blob, SSTableError>,
    ) -> (step: SearchStep)
        requires
            self.wf(),
            table < self.level.len(),
        ensures
            match result {
                Ok(value) => step == SearchStep::Done(Ok(value)),
                Err(SSTableError::Tombstone) => step == SearchStep::Done(
                    Err(SSTableError::DiskRecordNotFound),
                ),
                Err(_) => is_next_step(indexes(self.level@), key@, table + 1, step),
            },
    {
        match result {
            Ok(value) => SearchStep::Done(Ok(value)),
            Err(SSTableError::Tombstone) => SearchStep::Done(Err(SSTableError::DiskRecordNotFound)),
            Err(_) => search_from(self.level.as_slice(), key, table + 1),
        }
    }
}

/// How a table with the given first and last key stands to `key` in the search for a
/// candidate.
pub open spec fn candidate_order(min: Seq<u8>, max: Seq<u8>, key: Seq<u8>) -> KeyOrder {
    if bytes_lt(key, min) && bytes_lt(max, key) {
        KeyOrder::Equal
    } else if bytes_lt(min, key) {
        KeyOrder::Less
    } else {
        KeyOrder::Greater
    }
}

/// How `table` stands to `key` in the search for a candidate.
pub open spec fn table_order(table: SSTable, key: Seq<u8>) -> KeyOrder {
    let keys = contents(table.index@.nodes).dom();
    candidate_order(first_key(keys), last_key(keys), key)
}

/// The first and the last key of every table can be found.
pub open spec fn tables_spanned(tables: Seq<SSTable>) -> bool {
    forall|i: int| 0 <= i < tables.len() ==> (#[trigger] tables[i]).spanned()
}

/// Tables that come before the candidates, then candidates, then tables behind them.
pub open spec fn split_by(level: Seq<SSTable>, key: Seq<u8>) -> bool {
    forall|i: int, j: int|
        0 <= i < j < level.len() ==> {
            &&& table_order(#[trigger] level[j], key) is Less ==> table_order(
                #[trigger] level[i],
                key,
            ) is Less
            &&& table_order(level[i], key) is Greater ==> table_order(level[j], key) is Greater
        }
}

/// Table `i` of the level is a candidate for `key`.
pub open spec fn is_candidate(level: Seq<SSTable>, key: Seq<u8>, i: int) -> bool {
    0 <= i < level.len() && table_order(level[i], key) is Equal
}

/// A table that can be read is never a candidate: its first key is not above its
/// last.
pub proof fn lemma_no_candidate(level: Seq<SSTable>, key: Seq<u8>, i: int)
    requires
        tables_spanned(level),
    ensures
        !is_candidate(level, key, i),
{
    if is_candidate(level, key, i) {
        assert(level[i].spanned());
        let keys = contents(level[i].index@.nodes).dom();
        let min = first_key(keys);
        let max = last_key(keys);
        lemma_spanned_keys(level[i].index@.nodes);
        lemma_first_last_key(keys, min, max);
        util::lemma_bytes_lt_transitive(max, key, min);
        util::lemma_bytes_lt_total(min, max);
    }
}

/// How `table` stands to `key` in the search for a candidate.
fn candidate_table_search_fn(key: &[u8], table: &SSTable) -> (order: KeyOrder)
    requires
        table.spanned(),
    ensures
        order == table_order(*table, key@),
{
    let min = table.min_key();
    let max = table.max_key();
    let to_min = util::key_order(min.as_slice(), key);
    let to_max = util::key_order(max.as_slice(), key);
    proof {
        lemma_first_last_key(contents(table.index@.nodes).dom(), min@, max@);
        util::lemma_bytes_lt_total(min@, key@);
        util::lemma_bytes_lt_total(max@, key@);
    }
    match (to_min, to_max) {
        (KeyOrder::Greater, KeyOrder::Less) => KeyOrder::Equal,
        (KeyOrder::Less, _) => KeyOrder::Less,
        _ => KeyOrder::Greater,
    }
}

/// Searches a level for a candidate by halving. Of several candidates any may come.
fn binary_search_for_candidate_sstable(key: &[u8], level: &[SSTable]) -> (candidate: Option<usize>)
    requires
        tables_spanned(level@),
    ensures
        candidate matches Some(i) ==> is_candidate(level@, key@, i as int),
        candidate is None && split_by(level@, key@) ==> forall|i: int|
            !is_candidate(level@, key@, i),
{
    let mut low: usize = 0;
    let mut high: usize = level.len();
    while low < high
        invariant
            tables_spanned(level@),
            low <= high <= level@.len(),
            split_by(level@, key@) ==> forall|i: int|
                #[trigger] is_candidate(level@, key@, i) ==> low <= i < high,
        decreases high - low,
    {
        let mid: usize = low + (high - low) / 2;
        let table = &level[mid];
        match candidate_table_search_fn(key, table) {
            KeyOrder::Equal => {
                return Some(mid);
            },
            KeyOrder::Less => {
                low = mid + 1;
            },
            KeyOrder::Greater => {
                high = mid;
            },
        }
    }
    None
}

/// A level below level zero. The keys of its tables do not overlap.
pub struct CacheLevel {
    pub table: Vec<SSTable>,
    /// Which level of the cache this is.
    pub level: u8,
    /// The first key of the table compacted last. Tables leave the level in turn.
    pub compaction_key: Blob,
    pub max_size: u64,
    pub current_size: u64,
}

impl CacheLevel {
    /// Every table can be searched, and its first and last key found.
    pub open spec fn wf(&self) -> bool {
        tables_wf(self.table@) && tables_spanned(self.table@)
    }

    /// Whether the level has reached its size.
    pub fn needs_compaction(&self) -> (due: bool)
        ensures
            due == (self.current_size >= self.max_size),
    {
        self.current_size >= self.max_size
    }

    /// Looks `key` up. The search is for a candidate, and no table that can be read is
    /// one, so nothing is found.
    pub fn get(&self, key: &[u8]) -> (step: SearchStep)
        requires
            self.wf(),
        ensures
            step matches SearchStep::Done(Err(err)) && err is DiskRecordNotFound,
    {
        match binary_search_for_candidate_sstable(key, self.table.as_slice()) {
            None => SearchStep::Done(Err(SSTableError::DiskRecordNotFound)),
            Some(candidate_table) => {
                proof {
                    lemma_no_candidate(self.table@, key@, candidate_table as int);
                }
                match self.table[candidate_table].search(key) {
                    TableStep::Read { offset, end } => SearchStep::Read {
                        table: candidate_table,
                        offset,
                        end,
                    },
                    TableStep::Done(result) => SearchStep::Done(result),
                }
            },
        }
    }
}

/// What a lookup in the levels does next.
pub enum LevelStep {
    /// Read the bytes of the file of table `table` of level `level` from `offset` up
    /// to `end`, look the key up in them with [`crate::disk::read_data_block`], and go
    /// on with [`SSTableLevelCache::resume`].
    Read { level: usize, table: usize, offset: u64, end: u64 },
    /// The lookup is over.
    Done(Result<Blob, SSTableError>),
}

/// All levels: level zero, and the ones below it, from level one on.
pub struct SSTableLevelCache {
    pub zero: LevelZero,
    pub tables: Vec<CacheLevel>,
}

/// `step` is the next one for `key` from table `first` of level zero on: the first
/// block that there is to read in level zero, or the end, with nothing found.
pub open spec fn is_next_step_from_zero(
    cache: SSTableLevelCache,
    key: Seq<u8>,
    first: int,
    step: LevelStep,
) -> bool {
    let zero = indexes(cache.zero.level@);
    match step {
        LevelStep::Read { level, table, offset, end } => level == 0 && is_next_step(
            zero,
            key,
            first,
            SearchStep::Read { table, offset, end },
        ),
        LevelStep::Done(result) => is_next_step(zero, key, first, SearchStep::Done(result)),
    }
}

/// A lookup reads in level zero alone, and step by step it gives what the newest
/// table there says that says anything: no table below is ever a candidate.
pub proof fn lemma_level_step(
    cache: SSTableLevelCache,
    files: Seq<Seq<u8>>,
    key: Seq<u8>,
    first: int,
    step: LevelStep,
)
    requires
        cache.wf(),
        0 <= first <= cache.zero.level@.len(),
        files_match(indexes(cache.zero.level@), files),
        is_next_step_from_zero(cache, key, first, step),
    ensures
        match step {
            LevelStep::Read { level, table, offset, end } => {
                &&& level == 0
                &&& table < files.len()
                &&& offset <= end <= files[table as int].len()
                &&& tables_answer(indexes(cache.zero.level@), files, key, first)
                    == match block_answer(
                    files[table as int].subrange(offset as int, end as int),
                    key,
                ) {
                    Some(answer) => Some(answer),
                    None => tables_answer(indexes(cache.zero.level@), files, key, table + 1),
                }
            },
            LevelStep::Done(result) => {
                &&& result matches Err(err) && err is DiskRecordNotFound
                &&& tables_answer(indexes(cache.zero.level@), files, key, first) is None
            },
        },
{
    let zero = indexes(cache.zero.level@);
    match step {
        LevelStep::Read { level, table, offset, end } => {
            lemma_search_step(zero, files, key, first, SearchStep::Read { table, offset, end });
        },
        LevelStep::Done(result) => {
            lemma_search_step(zero, files, key, first, SearchStep::Done(result));
        },
    }
}

impl SSTableLevelCache {
    /// Every level can be searched.
    pub open spec fn wf(&self) -> bool {
        &&& self.zero.wf()
        &&& forall|i: int| 0 <= i < self.tables@.len() ==> (#[trigger] self.tables@[i]).wf()
    }

    /// Whether the given level below level zero has reached its size. A level that
    /// does not exist has not.
    pub fn level_needs_compaction(&self, level: usize) -> (due: bool)
        ensures
            due == (level < self.tables@.len() && self.tables@[level as int].current_size
                >= self.tables@[level as int].max_size),
    {
        if level >= self.tables.len() {
            return false;
        }
        self.tables[level].needs_compaction()
    }

    /// Starts a lookup of `key`: level zero is asked first.
    pub fn get(&self, key: &[u8]) -> (step: LevelStep)
        requires
            self.wf(),
        ensures
            is_next_step_from_zero(*self, key@, 0, step),
    {
        match self.zero.get(key) {
            SearchStep::Read { table, offset, end } => LevelStep::Read {
                level: 0,
                table,
                offset,
                end,
            },
            SearchStep::Done(_) => self.get_below(key, 0),
        }
    }

    /// Goes on with a lookup of `key` after table `table` of level `level` gave
    /// `result`. A value ends it; a tombstone ends it with nothing found; else the
    /// next table of level zero or the next level is asked.
    pub fn resume(
        &self,
        key: &[u8],
        level: usize,
        table: usize,
        result: Result<Blob, SSTableError>,
    ) -> (step: LevelStep)
        requires
            self.wf(),
            level <= self.tables@.len(),
            level == 0 ==> table < self.zero.level.len(),
        ensures
            match result {
                Ok(value) => step == LevelStep::Done(Ok(value)),
                Err(SSTableError::Tombstone) => step == LevelStep::Done(
                    Err(SSTableError::DiskRecordNotFound),
                ),
                Err(_) => if level == 0 {
                    is_next_step_from_zero(*self, key@, table + 1, step)
                } else {
                    step matches LevelStep::Done(Err(err)) && err is DiskRecordNotFound
                },
            },
    {
        match result {
            Ok(value) => LevelStep::Done(Ok(value)),
            Err(SSTableError::Tombstone) => LevelStep::Done(Err(SSTableError::DiskRecordNotFound)),
            Err(err) => if level == 0 {
                match self.zero.resume(key, table, Err(err)) {
                    SearchStep::Read { table, offset, end } => LevelStep::Read {
                        level: 0,
                        table,
                        offset,
                        end,
                    },
                    SearchStep::Done(_) => self.get_below(key, 0),
                }
            } else {
                self.get_below(key, level)
            },
        }
    }

    /// Asks the levels below level `first`, one after the other.
    fn get_below(&self, key: &[u8], first: usize) -> (step: LevelStep)
        requires
            self.wf(),
            first <= self.tables@.len(),
        ensures
            step matches LevelStep::Done(Err(err)) && err is DiskRecordNotFound,
    {
        let mut i: usize = first;
        while i < self.tables.len()
            invariant
                self.wf(),
                first <= i <= self.tables@.len(),
            decreases self.tables@.len() - i,
        {
            if let SearchStep::Read { table, offset, end } = self.tables[i].get(key) {
                return LevelStep::Read { level: i + 1, table, offset, end };
            }
            i = i + 1;
        }
        LevelStep::Done(Err(SSTableError::DiskRecordNotFound))
    }
}

} // verus!
