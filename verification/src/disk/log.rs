//! Records one after the other: the write-ahead log, and the data blocks.
use crate::disk::decode;
use crate::disk::decode::{
    lemma_decode_undoes_encode, lemma_record_layout_bounds, lemma_record_layout_prefix,
    lemma_record_layout_within, record_in, record_layout,
};
use crate::memtable::record::{record_body, record_bytes, RecordView};
use crate::util;
use vstd::prelude::*;

verus! {

/// The records that stand in `s` from position `at` on, up to the first place where
/// there is no whole one.
pub open spec fn log_records(s: Seq<u8>, at: int) -> Seq<RecordView>
    decreases s.len() - at,
{
    match record_layout(s, at) {
        Some(layout) => {
            proof {
                lemma_record_layout_bounds(s, at);
            }
            seq![record_in(s, layout)] + log_records(s, layout.end)
        },
        None => Seq::empty(),
    }
}

/// Where the records that stand in `s` from position `at` on end.
pub open spec fn log_end(s: Seq<u8>, at: int) -> int
    decreases s.len() - at,
{
    match record_layout(s, at) {
        Some(layout) => {
            proof {
                lemma_record_layout_bounds(s, at);
            }
            log_end(s, layout.end)
        },
        None => at,
    }
}

/// The encodings of records, one after the other.
pub open spec fn log_bytes(records: Seq<RecordView>) -> Seq<u8>
    decreases records.len(),
{
    if records.len() == 0 {
        Seq::empty()
    } else {
        log_bytes(records.drop_last()) + record_bytes(records.last().key, records.last().value)
    }
}

/// The encodings of some records and then others.
pub proof fn lemma_log_bytes_concat(front: Seq<RecordView>, back: Seq<RecordView>)
    ensures
        log_bytes(front + back) == log_bytes(front) + log_bytes(back),
    decreases back.len(),
{
    if back.len() == 0 {
        assert(front + back =~= front);
        assert(log_bytes(front) + log_bytes(back) =~= log_bytes(front));
    } else {
        assert((front + back).drop_last() =~= front + back.drop_last());
        lemma_log_bytes_concat(front, back.drop_last());
        assert(log_bytes(front + back) =~= log_bytes(front) + log_bytes(back));
    }
}

/// A log is at least three bytes long for each of its records.
pub proof fn lemma_log_len(records: Seq<RecordView>)
    ensures
        3 * records.len() <= log_bytes(records).len(),
    decreases records.len(),
{
    if records.len() > 0 {
        lemma_log_len(records.drop_last());
        let record = records.last();
        util::lemma_varint_len(record.key.len());
        util::lemma_varint_len(record_body(record.key, record.value).len());
    }
}

/// A record is no later in a log than the log is long.
pub proof fn lemma_log_bytes_monotonic(records: Seq<RecordView>, n: int)
    requires
        0 <= n <= records.len(),
    ensures
        log_bytes(records.take(n)).len() <= log_bytes(records).len(),
{
    assert(records =~= records.take(n) + records.skip(n));
    lemma_log_bytes_concat(records.take(n), records.skip(n));
}

/// Every record of a log is at its place: behind the ones before it.
pub proof fn lemma_log_record_at(records: Seq<RecordView>, i: int)
    requires
        0 <= i < records.len(),
    ensures
        ({
            let at = log_bytes(records.take(i)).len() as int;
            let bytes = record_bytes(records[i].key, records[i].value);
            &&& at + bytes.len() <= log_bytes(records).len()
            &&& log_bytes(records).subrange(at, at + bytes.len()) == bytes
            &&& log_bytes(records.take(i + 1)).len() == at + bytes.len()
        }),
{
    let upto = records.take(i + 1);
    let bytes = record_bytes(records[i].key, records[i].value);
    assert(upto.drop_last() =~= records.take(i));
    assert(records =~= upto + records.skip(i + 1));
    lemma_log_bytes_concat(upto, records.skip(i + 1));
    let at = log_bytes(records.take(i)).len() as int;
    assert(log_bytes(records).subrange(at, at + bytes.len()) =~= bytes);
}

/// Reading a log from where record `i` stands gives that record and those behind it.
proof fn lemma_log_records_from(records: Seq<RecordView>, i: int)
    requires
        0 <= i <= records.len(),
        log_bytes(records).len() <= u64::MAX,
    ensures
        log_records(log_bytes(records), log_bytes(records.take(i)).len() as int) == records.skip(i),
    decreases records.len() - i,
{
    let s = log_bytes(records);
    let at = log_bytes(records.take(i)).len() as int;
    if i == records.len() {
        assert(records.take(i) =~= records);
        assert(records.skip(i) =~= Seq::<RecordView>::empty());
    } else {
        let record = records[i];
        lemma_log_record_at(records, i);
        lemma_decode_undoes_encode(s, at, record.key, record.value);
        lemma_log_records_from(records, i + 1);
        assert(records.skip(i) =~= seq![record] + records.skip(i + 1));
    }
}

/// Reading a log gives back the records that were written to it, in their order.
pub proof fn lemma_log_roundtrip(records: Seq<RecordView>)
    requires
        log_bytes(records).len() <= u64::MAX,
    ensures
        log_records(log_bytes(records), 0) == records,
{
    lemma_log_records_from(records, 0);
    assert(records.take(0) =~= Seq::<RecordView>::empty());
    assert(records.skip(0) =~= records);
}

/// Reading a log that was cut off gives the records that are there as a whole, from
/// where record `i` stands on.
proof fn lemma_cut_log_from(records: Seq<RecordView>, cut: int, i: int) -> (n: int)
    requires
        log_bytes(records).len() <= u64::MAX,
        0 <= i <= records.len(),
        log_bytes(records.take(i)).len() <= cut <= log_bytes(records).len(),
    ensures
        i <= n <= records.len(),
        log_bytes(records.take(n)).len() <= cut,
        n < records.len() ==> cut < log_bytes(records.take(n + 1)).len(),
        log_records(
            log_bytes(records).take(cut),
            log_bytes(records.take(i)).len() as int,
        ) == records.subrange(i, n),
    decreases records.len() - i,
{
    let s = log_bytes(records);
    let front = s.take(cut);
    let at = log_bytes(records.take(i)).len() as int;
    if i == records.len() {
        assert(records.take(i) =~= records);
        assert(records.subrange(i, i) =~= Seq::<RecordView>::empty());
        i
    } else {
        let record = records[i];
        let bytes = record_bytes(record.key, record.value);
        lemma_log_record_at(records, i);
        if at + bytes.len() <= cut {
            assert(front.subrange(at, at + bytes.len()) =~= s.subrange(at, at + bytes.len()));
            lemma_decode_undoes_encode(front, at, record.key, record.value);
            let n = lemma_cut_log_from(records, cut, i + 1);
            assert(records.subrange(i, n) =~= seq![record] + records.subrange(i + 1, n));
            n
        } else {
            lemma_decode_undoes_encode(s, at, record.key, record.value);
            lemma_record_layout_prefix(s, cut, at);
            lemma_record_layout_bounds(front, at);
            assert(record_layout(front, at) is None);
            assert(records.subrange(i, i) =~= Seq::<RecordView>::empty());
            i
        }
    }
}

/// Reading a log that was cut off at any byte gives back the first records that were
/// written to it: those that are there as a whole.
pub proof fn lemma_cut_log(records: Seq<RecordView>, cut: int) -> (n: int)
    requires
        log_bytes(records).len() <= u64::MAX,
        0 <= cut <= log_bytes(records).len(),
    ensures
        0 <= n <= records.len(),
        log_bytes(records.take(n)).len() <= cut,
        n < records.len() ==> cut < log_bytes(records.take(n + 1)).len(),
        log_records(log_bytes(records).take(cut), 0) == records.take(n),
{
    assert(records.take(0) =~= Seq::<RecordView>::empty());
    let n = lemma_cut_log_from(records, cut, 0);
    assert(records.subrange(0, n) =~= records.take(n));
    n
}

/// Records end within their bytes.
pub proof fn lemma_log_end(s: Seq<u8>, at: int)
    requires
        0 <= at <= s.len(),
    ensures
        at <= log_end(s, at) <= s.len(),
    decreases s.len() - at,
{
    if let Some(layout) = record_layout(s, at) {
        lemma_record_layout_bounds(s, at);
        lemma_log_end(s, layout.end);
    }
}

proof fn lemma_append_from(s: Seq<u8>, at: int, record: RecordView)
    requires
        0 <= at <= s.len(),
        record_bytes(record.key, record.value).len() <= u64::MAX,
    ensures
        log_records(
            s.take(log_end(s, at)) + record_bytes(record.key, record.value),
            at,
        ) == log_records(s, at).push(record),
    decreases s.len() - at,
{
    let end = log_end(s, at);
    let bytes = record_bytes(record.key, record.value);
    let t = s.take(end) + bytes;
    lemma_log_end(s, at);
    match record_layout(s, at) {
        Some(layout) => {
            lemma_record_layout_bounds(s, at);
            lemma_log_end(s, layout.end);
            assert(t.take(layout.end) =~= s.take(layout.end));
            lemma_record_layout_within(s, layout.end, at);
            lemma_record_layout_prefix(t, layout.end, at);
            lemma_record_layout_within(t, layout.end, at);
            lemma_append_from(s, layout.end, record);
            assert(log_records(t, at) =~= log_records(s, at).push(record));
        },
        None => {
            assert(t.subrange(at, at + bytes.len()) =~= bytes);
            lemma_decode_undoes_encode(t, at, record.key, record.value);
            let layout = record_layout(t, at)->0;
            assert(layout.end == t.len());
            assert(record_layout(t, layout.end) is None);
            assert(log_records(t, layout.end) =~= Seq::<RecordView>::empty());
            assert(log_records(t, at) =~= log_records(s, at).push(record));
        },
    }
}

/// A log goes on where its records end: with what stands behind them cut off, the next
/// record that is appended is read behind the others.
pub proof fn lemma_append(s: Seq<u8>, record: RecordView)
    requires
        record_bytes(record.key, record.value).len() <= u64::MAX,
    ensures
        log_records(s.take(log_end(s, 0)) + record_bytes(record.key, record.value), 0)
            == log_records(s, 0).push(record),
{
    lemma_append_from(s, 0, record);
}

/// Where the records of a log end. What stands behind was not written as a whole.
pub fn find_log_end(wal: &[u8]) -> (end: usize)
    ensures
        end == log_end(wal@, 0),
        end <= wal@.len(),
{
    let mut offset: usize = 0;
    while decode::has_record(wal, offset)
        invariant
            offset <= wal.len(),
            log_end(wal@, offset as int) == log_end(wal@, 0),
        decreases wal.len() - offset,
    {
        proof {
            lemma_record_layout_bounds(wal@, offset as int);
        }
        let _record = decode::decode_disk_record(wal, &mut offset);
    }
    offset
}

} // verus!
