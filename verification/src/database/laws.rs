//! What holds of reads and writes taken together.
use crate::compaction::{all_written, data_blocks, lemma_compaction, live, merged};
use crate::database::inner::{is_next_read, visible, LsmliteInner, ReadStep, WriteStep};
use crate::disk::block_answer;
use crate::disk::log;
use crate::disk::log::{log_bytes, log_records};
use crate::error::SSTableError;
use crate::memtable::entries::{find, lemma_replayed, lemma_upsert, replayed};
use crate::memtable::immutable::{is_newest_for, lemma_newest_answer, newest_answer};
use crate::memtable::inner::lemma_takes_over;
use crate::memtable::record::{record_bytes, RecordView};
use crate::ssindex::{index_in, IndexView};
use crate::sstable::encode::sstable_bytes;
use crate::sstable::roundtrip;
use crate::sstable::roundtrip::readable_back;
use crate::sstable::{
    files_match, is_first_for, lemma_search_step, lemma_table_in_front, lemma_tables_answer,
    table_answer, tables_answer, SSTable, SearchStep,
};
use vstd::prelude::*;

verus! {

/// `step` leads to `value`: it is the value, or the block that it reads shows it, with
/// what the SSTables behind say where the block says nothing.
pub open spec fn leads_to(
    step: ReadStep,
    indexes: Seq<IndexView>,
    files: Seq<Seq<u8>>,
    key: Seq<u8>,
    value: Option<Seq<u8>>,
) -> bool {
    match step {
        ReadStep::Done(Some(blob)) => value == Some(blob@),
        ReadStep::Done(None) => value is None,
        ReadStep::Read { table, offset, end } => {
            &&& table < files.len()
            &&& offset <= end <= files[table as int].len()
            &&& value == match block_answer(
                files[table as int].subrange(offset as int, end as int),
                key,
            ) {
                Some(answer) => answer,
                None => visible(tables_answer(indexes, files, key, table + 1)),
            }
        },
    }
}

/// Going on with a read leads to what the SSTables from `first` on show.
pub proof fn lemma_next_read(
    db: LsmliteInner,
    files: Seq<Seq<u8>>,
    key: Seq<u8>,
    first: int,
    step: ReadStep,
)
    requires
        files_match(db.sstable_cache.indexes(), files),
        0 <= first <= files.len(),
        is_next_read(db.sstable_cache, key, first, step),
    ensures
        leads_to(
            step,
            db.sstable_cache.indexes(),
            files,
            key,
            visible(tables_answer(db.sstable_cache.indexes(), files, key, first)),
        ),
{
    let indexes = db.sstable_cache.indexes();
    match step {
        ReadStep::Read { table, offset, end } => {
            lemma_search_step(
                indexes,
                files,
                key,
                first,
                SearchStep::Read { table, offset, end },
            );
        },
        ReadStep::Done(_) => {
            lemma_search_step(
                indexes,
                files,
                key,
                first,
                SearchStep::Done(Err(SSTableError::DiskRecordNotFound)),
            );
        },
    }
}

/// A read leads to the value that the database holds: what the newest table says that
/// says anything, with nothing for a tombstone.
pub proof fn lemma_first_read(
    db: LsmliteInner,
    files: Seq<Seq<u8>>,
    key: Seq<u8>,
    step: ReadStep,
)
    requires
        files_match(db.sstable_cache.indexes(), files),
        db.is_first_read(key, step),
    ensures
        leads_to(step, db.sstable_cache.indexes(), files, key, db.value(files, key)),
{
    if db.memory_answer(key) is None {
        lemma_next_read(db, files, key, 0, step);
    }
}

/// The order in which a database is asked: the active memtable, then the waiting ones,
/// newest first, then the SSTables. What says anything first holds, and a tombstone says
/// that there is no value.
pub proof fn lemma_read_order(db: LsmliteInner, files: Seq<Seq<u8>>, key: Seq<u8>)
    ensures
        find(db.memtable.entries(), key) matches Some(found) ==> db.value(files, key) == found,
        find(db.memtable.entries(), key) is None ==> forall|i: int| #[trigger]
            is_newest_for(db.immutable.entries(), key, i) ==> Some(db.value(files, key)) == find(
                db.immutable.entries()[i],
                key,
            ),
        find(db.memtable.entries(), key) is None && (forall|i: int|
            0 <= i < db.immutable.entries().len() ==> find(
                #[trigger] db.immutable.entries()[i],
                key,
            ) is None) ==> {
            &&& forall|i: int| #[trigger]
                is_first_for(db.sstable_cache.indexes(), files, key, 0, i) ==> Some(
                    db.value(files, key),
                ) == table_answer(db.sstable_cache.indexes()[i], files[i], key)
            &&& (forall|i: int|
                0 <= i < db.sstable_cache.indexes().len() ==> table_answer(
                    #[trigger] db.sstable_cache.indexes()[i],
                    files[i],
                    key,
                ) is None) ==> db.value(files, key) is None
        },
{
    lemma_newest_answer(db.immutable.entries(), key);
    lemma_tables_answer(db.sstable_cache.indexes(), files, key, 0);
}

/// A table behind the others is asked first.
proof fn lemma_newest_push(tables: Seq<Seq<RecordView>>, table: Seq<RecordView>, key: Seq<u8>)
    ensures
        newest_answer(tables.push(table), key) == match find(table, key) {
            Some(answer) => Some(answer),
            None => newest_answer(tables, key),
        },
{
    assert(tables.push(table).drop_last() =~= tables);
}

/// The oldest table is asked last.
proof fn lemma_newest_skip(tables: Seq<Seq<RecordView>>, key: Seq<u8>)
    requires
        tables.len() > 0,
    ensures
        newest_answer(tables, key) == match newest_answer(tables.skip(1), key) {
            Some(answer) => Some(answer),
            None => find(tables[0], key),
        },
    decreases tables.len(),
{
    if tables.len() > 1 {
        lemma_newest_skip(tables.drop_last(), key);
        assert(tables.skip(1).drop_last() =~= tables.drop_last().skip(1));
        assert(tables.skip(1).last() == tables.last());
    } else {
        assert(tables.skip(1) =~= Seq::<Seq<RecordView>>::empty());
        assert(tables.drop_last() =~= Seq::<Seq<RecordView>>::empty());
        assert(newest_answer(tables.drop_last(), key) is None);
    }
}

/// After a write the database says of the key what was written, and of every other key
/// what it said before: a read gives back what the last write wrote, and nothing after
/// a deletion. Rotating the memtable changes nothing of that.
pub proof fn lemma_write(
    before: LsmliteInner,
    after: LsmliteInner,
    record: RecordView,
    step: WriteStep,
    files: Seq<Seq<u8>>,
    key: Seq<u8>,
)
    requires
        before.wf(),
        before.memtable.inner.max_size > 0,
        before.memtable.inner.max_nodes > 0,
        after.takes_write(&before, record, step),
    ensures
        after.answer(files, key) == if key == record.key {
            Some(record.value)
        } else {
            before.answer(files, key)
        },
        after.value(files, key) == if key == record.key {
            record.value
        } else {
            before.value(files, key)
        },
        after.memtable.inner.max_size == before.memtable.inner.max_size,
        after.memtable.inner.max_nodes == before.memtable.inner.max_nodes,
        step.log@ == record_bytes(record.key, record.value),
{
    let table = before.memtable.inner;
    if table.full() {
        assert(after.immutable.entries() =~= before.immutable.entries().push(table.entries()));
        lemma_newest_push(before.immutable.entries(), table.entries(), key);
        let entries = after.memtable.entries();
        assert(entries.drop_last() =~= Seq::<RecordView>::empty());
        assert(entries.last() == record);
        assert(find(entries.drop_last(), key) is None);
    } else {
        lemma_upsert(table.entries(), record);
    }
}

/// When a write rotates the memtable out: at as many keys as its bound, or at as many
/// bytes written as its other bound, and not before. The memtable that is rotated out
/// waits as the newest one, and the write goes to an empty one with the same bounds. So
/// a memtable whose bounds are positive never outgrows its bound on keys by writes.
pub proof fn lemma_rotation(
    before: LsmliteInner,
    after: LsmliteInner,
    record: RecordView,
    step: WriteStep,
)
    requires
        before.wf(),
        before.memtable.inner.max_size > 0,
        before.memtable.inner.max_nodes > 0,
        after.takes_write(&before, record, step),
    ensures
        step.signal is Some <==> before.memtable.inner.max_nodes <= before.memtable.entries().len()
            || before.memtable.inner.max_size <= before.memtable.inner.size,
        step.signal is Some ==> {
            &&& after.immutable.entries() == before.immutable.entries().push(
                before.memtable.entries(),
            )
            &&& after.memtable.entries() == seq![record]
            &&& after.memtable.inner.size == record_bytes(record.key, record.value).len()
        },
        step.signal is None ==> {
            &&& after.immutable.entries() == before.immutable.entries()
            &&& after.memtable.entries().len() >= before.memtable.entries().len()
            &&& before.memtable.inner.size <= after.memtable.inner.size
        },
        after.memtable.inner.max_size == before.memtable.inner.max_size,
        after.memtable.inner.max_nodes == before.memtable.inner.max_nodes,
        before.memtable.entries().len() <= before.memtable.inner.max_nodes
            ==> after.memtable.entries().len() <= after.memtable.inner.max_nodes,
        step.signal is Some ==> after.memtable.entries().len() <= after.memtable.inner.max_nodes,
        after.sstable_cache == before.sstable_cache,
{
    let table = before.memtable.inner;
    if table.full() {
        assert(after.immutable.entries() =~= before.immutable.entries().push(table.entries()));
    } else {
        lemma_takes_over(table, after.memtable.inner, record);
    }
}

/// Two databases opened with the same bounds have memtables with these bounds, whatever
/// logs they were made from, and also where there was none.
pub proof fn lemma_bounds(
    one: LsmliteInner,
    logs: Seq<Seq<u8>>,
    other: LsmliteInner,
    other_logs: Seq<Seq<u8>>,
    max_size: usize,
    max_nodes: usize,
)
    requires
        one.is_replay_of(logs, max_size, max_nodes),
        other.is_replay_of(other_logs, max_size, max_nodes),
    ensures
        one.memtable.inner.max_size == max_size,
        one.memtable.inner.max_nodes == max_nodes,
        one.memtable.inner.max_size == other.memtable.inner.max_size,
        one.memtable.inner.max_nodes == other.memtable.inner.max_nodes,
        forall|i: int|
            0 <= i < one.immutable.tables@.len() ==> (#[trigger] one.immutable.tables@[i]).max_size
                == max_size && one.immutable.tables@[i].max_nodes == max_nodes,
{
}

/// Loading the SSTable of the oldest waiting memtable changes nothing of what the
/// database says.
pub proof fn lemma_load_sstable(
    before: LsmliteInner,
    after: LsmliteInner,
    table: SSTable,
    files: Seq<Seq<u8>>,
    key: Seq<u8>,
)
    requires
        before.wf(),
        before.immutable.tables@.len() > 0,
        readable_back(before.immutable.tables@[0].entries()),
        index_in(sstable_bytes(before.immutable.tables@[0].entries())) == Some(table.index@),
        files.len() == before.sstable_cache.tables@.len(),
        after.memtable == before.memtable,
        after.sstable_cache.tables@ == seq![table] + before.sstable_cache.tables@,
        after.immutable.tables@ == before.immutable.tables@.skip(1),
    ensures
        after.answer(
            seq![sstable_bytes(before.immutable.tables@[0].entries())] + files,
            key,
        ) == before.answer(files, key),
{
    let oldest = before.immutable.tables@[0].entries();
    let file = sstable_bytes(oldest);
    let entries = before.immutable.entries();
    assert(before.immutable.tables@[0].wf());
    assert(after.immutable.entries() =~= entries.skip(1));
    assert(entries[0] == oldest);
    lemma_newest_skip(entries, key);
    roundtrip::lemma_sstable_roundtrip(oldest, key);
    let indexes = before.sstable_cache.indexes();
    assert(after.sstable_cache.indexes() =~= seq![table.index@] + indexes);
    lemma_table_in_front(table.index@, file, indexes, files, key);
}

/// Putting the compacted SSTable in the place of all changes no value that the database
/// holds.
pub proof fn lemma_load_compacted(
    before: LsmliteInner,
    after: LsmliteInner,
    table: SSTable,
    tables: Seq<Seq<RecordView>>,
    files: Seq<Seq<u8>>,
    key: Seq<u8>,
)
    requires
        all_written(tables, before.sstable_cache.indexes(), files),
        readable_back(live(merged(data_blocks(before.sstable_cache.indexes(), files), 0))),
        index_in(
            sstable_bytes(live(merged(data_blocks(before.sstable_cache.indexes(), files), 0))),
        ) == Some(table.index@),
        after.memtable == before.memtable,
        after.immutable == before.immutable,
        after.sstable_cache.tables@ == seq![table],
    ensures
        after.value(
            seq![
                sstable_bytes(live(merged(data_blocks(before.sstable_cache.indexes(), files), 0))),
            ],
            key,
        ) == before.value(files, key),
{
    lemma_compaction(tables, before.sstable_cache.indexes(), files, table.index@, key);
    assert(after.sstable_cache.indexes() =~= seq![table.index@]);
}

/// `logs` are the records of the logs, oldest first, that belong to the memtables of a
/// database: each memtable holds what its log makes. The last log is that of the
/// active memtable.
pub open spec fn logged(db: LsmliteInner, logs: Seq<Seq<RecordView>>) -> bool {
    &&& logs.len() == db.immutable.tables@.len() + 1
    &&& db.memtable.entries() == replayed(Seq::empty(), logs.last())
    &&& forall|i: int|
        0 <= i < db.immutable.tables@.len() ==> (#[trigger] db.immutable.tables@[i]).entries()
            == replayed(Seq::empty(), logs[i])
}

/// The logs after a write: the record is appended to the last one, or to a new one
/// where the memtable was rotated out.
pub open spec fn logs_after(
    logs: Seq<Seq<RecordView>>,
    record: RecordView,
    step: WriteStep,
) -> Seq<Seq<RecordView>> {
    if step.signal is Some {
        logs.push(seq![record])
    } else {
        logs.drop_last().push(logs.last().push(record))
    }
}

/// Appending what each write gives to the log keeps the logs and the memtables
/// together.
pub proof fn lemma_write_logged(
    before: LsmliteInner,
    after: LsmliteInner,
    record: RecordView,
    step: WriteStep,
    logs: Seq<Seq<RecordView>>,
)
    requires
        before.memtable.inner.max_size > 0,
        before.memtable.inner.max_nodes > 0,
        after.takes_write(&before, record, step),
        logged(before, logs),
    ensures
        logged(after, logs_after(logs, record, step)),
        log_bytes(logs_after(logs, record, step).last()) == if step.signal is Some {
            step.log@
        } else {
            log_bytes(logs.last()) + step.log@
        },
{
    let more = logs_after(logs, record, step);
    let one = seq![record];
    assert(one.drop_last() =~= Seq::<RecordView>::empty());
    assert(logs.last().push(record).drop_last() =~= logs.last());
    assert(replayed(Seq::empty(), one.drop_last()) =~= Seq::<RecordView>::empty());
    assert(log_bytes(one) =~= record_bytes(record.key, record.value)) by {
        assert(log_bytes(one.drop_last()) =~= Seq::<u8>::empty());
    }
    assert forall|i: int| 0 <= i < after.immutable.tables@.len() implies (
    #[trigger] after.immutable.tables@[i]).entries() == replayed(Seq::empty(), more[i]) by {
        if i < before.immutable.tables@.len() {
            assert(before.immutable.tables@[i].entries() == replayed(Seq::empty(), logs[i]));
        }
    }
}

/// Loading an SSTable takes the oldest log away.
pub proof fn lemma_load_logged(
    before: LsmliteInner,
    after: LsmliteInner,
    logs: Seq<Seq<RecordView>>,
)
    requires
        before.immutable.tables@.len() > 0,
        after.memtable == before.memtable,
        after.immutable.tables@ == before.immutable.tables@.skip(1),
        logged(before, logs),
    ensures
        logged(after, logs.skip(1)),
{
    assert forall|i: int| 0 <= i < after.immutable.tables@.len() implies (
    #[trigger] after.immutable.tables@[i]).entries() == replayed(
        Seq::empty(),
        logs.skip(1)[i],
    ) by {
        assert(before.immutable.tables@[i + 1].entries() == replayed(Seq::empty(), logs[i + 1]));
    }
}

/// Recovery: replaying the logs gives a database that says of every key what the one
/// said that wrote them.
pub proof fn lemma_recovery(
    before: LsmliteInner,
    after: LsmliteInner,
    logs: Seq<Seq<RecordView>>,
    max_size: usize,
    max_nodes: usize,
    files: Seq<Seq<u8>>,
    key: Seq<u8>,
)
    requires
        logged(before, logs),
        forall|i: int| 0 <= i < logs.len() ==> log_bytes(#[trigger] logs[i]).len() <= u64::MAX,
        after.is_replay_of(
            logs.map_values(|log: Seq<RecordView>| log_bytes(log)),
            max_size,
            max_nodes,
        ),
        after.sstable_cache.indexes() == before.sstable_cache.indexes(),
    ensures
        logged(after, logs),
        after.answer(files, key) == before.answer(files, key),
        after.value(files, key) == before.value(files, key),
        after.memtable.inner.max_size == max_size,
        after.memtable.inner.max_nodes == max_nodes,
        log_bytes(logs.last()).len() <= usize::MAX ==> after.memtable.inner.size == log_bytes(
            logs.last(),
        ).len(),
{
    let bytes = logs.map_values(|log: Seq<RecordView>| log_bytes(log));
    assert forall|i: int| 0 <= i < logs.len() implies log_records(
        #[trigger] bytes[i],
        0,
    ) == logs[i] by {
        log::lemma_log_roundtrip(logs[i]);
    }
    assert(bytes.last() == bytes[logs.len() - 1]);
    assert forall|i: int| 0 <= i < after.immutable.tables@.len() implies (
    #[trigger] after.immutable.tables@[i]).entries() == replayed(Seq::empty(), logs[i]) by {
        assert(log_records(bytes[i], 0) == logs[i]);
    }
    assert(after.immutable.entries() =~= before.immutable.entries());
}

/// Recovery from a crash: where the end of the last log was lost, the database holds
/// what its first records make, those that are there as a whole.
pub proof fn lemma_cut_recovery(
    after: LsmliteInner,
    logs: Seq<Seq<RecordView>>,
    cut: int,
    max_size: usize,
    max_nodes: usize,
) -> (n: int)
    requires
        logs.len() > 0,
        forall|i: int| 0 <= i < logs.len() ==> log_bytes(#[trigger] logs[i]).len() <= u64::MAX,
        0 <= cut <= log_bytes(logs.last()).len(),
        after.is_replay_of(
            logs.drop_last().map_values(|log: Seq<RecordView>| log_bytes(log)).push(
                log_bytes(logs.last()).take(cut),
            ),
            max_size,
            max_nodes,
        ),
    ensures
        0 <= n <= logs.last().len(),
        log_bytes(logs.last().take(n)).len() <= cut,
        n < logs.last().len() ==> cut < log_bytes(logs.last().take(n + 1)).len(),
        logged(after, logs.drop_last().push(logs.last().take(n))),
{
    let front = logs.drop_last();
    let bytes = front.map_values(|log: Seq<RecordView>| log_bytes(log)).push(
        log_bytes(logs.last()).take(cut),
    );
    let n = log::lemma_cut_log(logs.last(), cut);
    let kept = front.push(logs.last().take(n));
    assert forall|i: int| 0 <= i < after.immutable.tables@.len() implies (
    #[trigger] after.immutable.tables@[i]).entries() == replayed(Seq::empty(), kept[i]) by {
        assert(bytes[i] == log_bytes(logs[i]));
        log::lemma_log_roundtrip(logs[i]);
    }
    n
}

/// A database opened without logs has one log, an empty one; a database opened with logs
/// has the logs that it was opened with.
pub proof fn lemma_opened_logged(
    db: LsmliteInner,
    logs: Seq<Seq<RecordView>>,
    max_size: usize,
    max_nodes: usize,
)
    requires
        forall|i: int| 0 <= i < logs.len() ==> log_bytes(#[trigger] logs[i]).len() <= u64::MAX,
        db.is_replay_of(
            logs.map_values(|log: Seq<RecordView>| log_bytes(log)),
            max_size,
            max_nodes,
        ),
    ensures
        logs.len() == 0 ==> logged(db, seq![Seq::<RecordView>::empty()]),
        logs.len() > 0 ==> logged(db, logs),
{
    let bytes = logs.map_values(|log: Seq<RecordView>| log_bytes(log));
    if logs.len() > 0 {
        assert(bytes.last() == log_bytes(logs.last()));
        log::lemma_log_roundtrip(logs[logs.len() - 1]);
        assert forall|i: int| 0 <= i < db.immutable.tables@.len() implies (
        #[trigger] db.immutable.tables@[i]).entries() == replayed(Seq::empty(), logs[i]) by {
            assert(bytes[i] == log_bytes(logs[i]));
            log::lemma_log_roundtrip(logs[i]);
        }
    }
}

/// What a write was planned to leave to be done is what it leaves.
pub proof fn lemma_plan(
    before: LsmliteInner,
    after: LsmliteInner,
    record: RecordView,
    planned: WriteStep,
    step: WriteStep,
)
    requires
        before.is_write_step(record, planned),
        after.takes_write(&before, record, step),
    ensures
        planned.signal == step.signal,
        planned.log@ == step.log@,
{
}

/// What logs that belong to a database say: the last one says of a key what the active
/// memtable says, and each of the others what its waiting memtable says.
pub proof fn lemma_logged(db: LsmliteInner, logs: Seq<Seq<RecordView>>, key: Seq<u8>)
    requires
        logged(db, logs),
    ensures
        logs.len() == db.immutable.entries().len() + 1,
        find(db.memtable.entries(), key) == find(logs.last(), key),
        forall|i: int|
            0 <= i < db.immutable.entries().len() ==> find(
                #[trigger] db.immutable.entries()[i],
                key,
            ) == find(logs[i], key),
{
    lemma_replayed(Seq::empty(), logs.last());
    assert forall|i: int| 0 <= i < db.immutable.entries().len() implies find(
        #[trigger] db.immutable.entries()[i],
        key,
    ) == find(logs[i], key) by {
        assert(db.immutable.tables@[i].entries() == replayed(Seq::empty(), logs[i]));
        lemma_replayed(Seq::empty(), logs[i]);
    }
}

/// A database with a bound of zero takes no writes: each rotates the memtable out, leaves
/// nothing for the log, and changes nothing of what the database says.
pub proof fn lemma_no_room(
    before: LsmliteInner,
    after: LsmliteInner,
    record: RecordView,
    step: WriteStep,
    files: Seq<Seq<u8>>,
    key: Seq<u8>,
)
    requires
        before.memtable.inner.max_size == 0 || before.memtable.inner.max_nodes == 0,
        after.takes_write(&before, record, step),
    ensures
        step.signal is Some,
        step.log@ == Seq::<u8>::empty(),
        after.memtable.entries() == Seq::<RecordView>::empty(),
        after.answer(files, key) == before.answer(files, key),
{
    let table = before.memtable.inner;
    assert(after.immutable.entries() =~= before.immutable.entries().push(table.entries()));
    lemma_newest_push(before.immutable.entries(), table.entries(), key);
}

} // verus!
