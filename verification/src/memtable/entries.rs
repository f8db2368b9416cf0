//! What a table says of its keys, as a sequence of records in the order of keys.
use crate::memtable::record::RecordView;
use crate::util;
use crate::util::bytes_lt;
use vstd::prelude::*;

verus! {

/// The keys rise strictly.
pub open spec fn key_sorted(entries: Seq<RecordView>) -> bool {
    forall|i: int, j: int|
        0 <= i < j < entries.len() ==> bytes_lt(
            (#[trigger] entries[i]).key,
            (#[trigger] entries[j]).key,
        )
}

/// What the entries say of `key`: `Some(Some(v))` for the value `v`, `Some(None)`
/// for a tombstone, `None` for nothing.
pub open spec fn find(entries: Seq<RecordView>, key: Seq<u8>) -> Option<Option<Seq<u8>>>
    decreases entries.len(),
{
    if entries.len() == 0 {
        None
    } else if entries.last().key == key {
        Some(entries.last().value)
    } else {
        find(entries.drop_last(), key)
    }
}

/// The entries with `record` in its place, instead of the one for the same key.
pub open spec fn upsert(entries: Seq<RecordView>, record: RecordView) -> Seq<RecordView>
    decreases entries.len(),
{
    if entries.len() == 0 {
        seq![record]
    } else if entries.last().key == record.key {
        entries.drop_last().push(record)
    } else if bytes_lt(entries.last().key, record.key) {
        entries.push(record)
    } else {
        upsert(entries.drop_last(), record).push(entries.last())
    }
}

/// The entries after the given records were put in, one after the other.
pub open spec fn replayed(entries: Seq<RecordView>, records: Seq<RecordView>) -> Seq<RecordView>
    decreases records.len(),
{
    if records.len() == 0 {
        entries
    } else {
        upsert(replayed(entries, records.drop_last()), records.last())
    }
}

/// What the last of the given records for `key` says of it.
pub open spec fn last_write(records: Seq<RecordView>, key: Seq<u8>) -> Option<Option<Seq<u8>>> {
    find(records, key)
}

pub proof fn lemma_find_some(entries: Seq<RecordView>, i: int)
    requires
        key_sorted(entries),
        0 <= i < entries.len(),
    ensures
        find(entries, entries[i].key) == Some(entries[i].value),
    decreases entries.len(),
{
    if i < entries.len() - 1 {
        let front = entries.drop_last();
        assert(bytes_lt(entries[i].key, entries.last().key));
        util::lemma_bytes_lt_total(entries[i].key, entries.last().key);
        assert(key_sorted(front)) by {
            assert forall|a: int, b: int| 0 <= a < b < front.len() implies bytes_lt(
                (#[trigger] front[a]).key,
                (#[trigger] front[b]).key,
            ) by {
                assert(bytes_lt(entries[a].key, entries[b].key));
            }
        }
        assert(front[i] == entries[i]);
        lemma_find_some(front, i);
    }
}

pub proof fn lemma_find_none(entries: Seq<RecordView>, key: Seq<u8>)
    requires
        forall|i: int| 0 <= i < entries.len() ==> (#[trigger] entries[i]).key != key,
    ensures
        find(entries, key) is None,
    decreases entries.len(),
{
    if entries.len() > 0 {
        let front = entries.drop_last();
        assert forall|i: int| 0 <= i < front.len() implies (#[trigger] front[i]).key != key by {
            assert(front[i] == entries[i]);
        }
        lemma_find_none(front, key);
    }
}

/// What is found is the value of an entry.
pub proof fn lemma_find_witness(entries: Seq<RecordView>, key: Seq<u8>) -> (i: int)
    requires
        find(entries, key) is Some,
    ensures
        0 <= i < entries.len(),
        entries[i].key == key,
        find(entries, key) == Some(entries[i].value),
    decreases entries.len(),
{
    if entries.last().key == key {
        entries.len() - 1
    } else {
        lemma_find_witness(entries.drop_last(), key)
    }
}

/// Record `i` is for `key`, and none behind it is.
pub open spec fn is_last_for(records: Seq<RecordView>, key: Seq<u8>, i: int) -> bool {
    &&& 0 <= i < records.len()
    &&& records[i].key == key
    &&& forall|j: int| i < j < records.len() ==> (#[trigger] records[j]).key != key
}

/// What is found of a key is what its last record says; nothing is found if and only if
/// it has none.
pub proof fn lemma_find_is_last(records: Seq<RecordView>, key: Seq<u8>)
    ensures
        forall|i: int| #[trigger]
            is_last_for(records, key, i) ==> find(records, key) == Some(records[i].value),
        find(records, key) is None <==> forall|i: int|
            0 <= i < records.len() ==> (#[trigger] records[i]).key != key,
    decreases records.len(),
{
    if records.len() > 0 {
        let front = records.drop_last();
        let n = records.len() - 1;
        lemma_find_is_last(front, key);
        assert forall|i: int| #[trigger] is_last_for(records, key, i) implies find(records, key)
            == Some(records[i].value) by {
            if i < n {
                assert(records[n].key != key);
                assert forall|j: int| i < j < front.len() implies (#[trigger] front[j]).key
                    != key by {
                    assert(records[j].key != key);
                }
                assert(is_last_for(front, key, i));
            }
        }
        if records.last().key == key {
            assert(records[n].key == key);
        } else if find(front, key) is Some {
            let i = lemma_find_witness(front, key);
            assert(records[i].key == key);
        } else {
            assert forall|i: int| 0 <= i < records.len() implies (#[trigger] records[i]).key
                != key by {
                if i < n {
                    assert(front[i].key != key);
                }
            }
        }
    }
}

pub proof fn lemma_key_sorted_drop_last(entries: Seq<RecordView>)
    requires
        key_sorted(entries),
        entries.len() > 0,
    ensures
        key_sorted(entries.drop_last()),
{
    let front = entries.drop_last();
    assert forall|a: int, b: int| 0 <= a < b < front.len() implies bytes_lt(
        (#[trigger] front[a]).key,
        (#[trigger] front[b]).key,
    ) by {
        assert(bytes_lt(entries[a].key, entries[b].key));
    }
}

/// Putting a record in keeps the order, and changes what is found of its key alone.
pub proof fn lemma_upsert(entries: Seq<RecordView>, record: RecordView)
    requires
        key_sorted(entries),
    ensures
        key_sorted(upsert(entries, record)),
        entries.len() <= upsert(entries, record).len() <= entries.len() + 1,
        upsert(entries, record).len() == entries.len() <==> find(entries, record.key) is Some,
        forall|i: int|
            0 <= i < upsert(entries, record).len() ==> #[trigger] upsert(entries, record)[i]
                == record || entries.contains(upsert(entries, record)[i]),
        forall|key: Seq<u8>| #[trigger]
            find(upsert(entries, record), key) == if key == record.key {
                Some(record.value)
            } else {
                find(entries, key)
            },
    decreases entries.len(),
{
    let after = upsert(entries, record);
    if entries.len() > 0 {
        let front = entries.drop_last();
        let last = entries.last();
        lemma_key_sorted_drop_last(entries);
        util::lemma_bytes_lt_total(last.key, record.key);
        assert forall|i: int| 0 <= i < front.len() implies bytes_lt(
            (#[trigger] front[i]).key,
            last.key,
        ) by {
            assert(bytes_lt(entries[i].key, entries[entries.len() - 1].key));
        }
        if last.key == record.key {
            assert(after.drop_last() =~= front);
            assert forall|i: int, j: int| 0 <= i < j < after.len() implies bytes_lt(
                (#[trigger] after[i]).key,
                (#[trigger] after[j]).key,
            ) by {
                assert(bytes_lt(entries[i].key, entries[j].key));
            }
            assert forall|i: int| 0 <= i < after.len() implies #[trigger] after[i] == record
                || entries.contains(after[i]) by {
                if i < front.len() {
                    assert(after[i] == entries[i]);
                }
            }
        } else if bytes_lt(last.key, record.key) {
            assert(after.drop_last() =~= entries);
            assert forall|i: int, j: int| 0 <= i < j < after.len() implies bytes_lt(
                (#[trigger] after[i]).key,
                (#[trigger] after[j]).key,
            ) by {
                if j < entries.len() {
                    assert(bytes_lt(entries[i].key, entries[j].key));
                } else if i < front.len() {
                    assert(after[i] == front[i]);
                    util::lemma_bytes_lt_transitive(front[i].key, last.key, record.key);
                }
            }
            assert forall|i: int| 0 <= i < after.len() implies #[trigger] after[i] == record
                || entries.contains(after[i]) by {
                if i < entries.len() {
                    assert(after[i] == entries[i]);
                }
            }
            assert(find(entries, record.key) is None) by {
                assert forall|i: int| 0 <= i < entries.len() implies (
                #[trigger] entries[i]).key != record.key by {
                    if i < front.len() {
                        assert(entries[i] == front[i]);
                        util::lemma_bytes_lt_transitive(front[i].key, last.key, record.key);
                    }
                    util::lemma_bytes_lt_total(entries[i].key, record.key);
                }
                lemma_find_none(entries, record.key);
            }
        } else {
            lemma_upsert(front, record);
            let inner = upsert(front, record);
            assert(after.drop_last() =~= inner);
            assert forall|i: int| 0 <= i < inner.len() implies bytes_lt(
                (#[trigger] inner[i]).key,
                last.key,
            ) by {
                if inner[i] != record {
                    let n = choose|n: int| 0 <= n < front.len() && front[n] == inner[i];
                    assert(bytes_lt(front[n].key, last.key));
                }
            }
            assert forall|i: int, j: int| 0 <= i < j < after.len() implies bytes_lt(
                (#[trigger] after[i]).key,
                (#[trigger] after[j]).key,
            ) by {
                assert(after[i] == inner[i]);
                if j < inner.len() {
                    assert(after[j] == inner[j]);
                }
            }
            assert forall|i: int| 0 <= i < after.len() implies #[trigger] after[i] == record
                || entries.contains(after[i]) by {
                if i < inner.len() {
                    assert(after[i] == inner[i]);
                    if inner[i] != record {
                        let n = choose|n: int| 0 <= n < front.len() && front[n] == inner[i];
                        assert(entries[n] == after[i]);
                    }
                } else {
                    assert(entries[entries.len() - 1] == after[i]);
                }
            }
            assert forall|key: Seq<u8>| #[trigger] find(after, key) == if key == record.key {
                Some(record.value)
            } else {
                find(entries, key)
            } by {
                assert(find(inner, key) == if key == record.key {
                    Some(record.value)
                } else {
                    find(front, key)
                });
            }
        }
    } else {
        assert(after.drop_last() =~= entries);
    }
}

/// Putting records in, one after the other, leaves for every key what the last of
/// them says, and what was there where none of them is for that key.
pub proof fn lemma_replayed(entries: Seq<RecordView>, records: Seq<RecordView>)
    requires
        key_sorted(entries),
    ensures
        key_sorted(replayed(entries, records)),
        forall|key: Seq<u8>| #[trigger]
            find(replayed(entries, records), key) == match last_write(records, key) {
                Some(value) => Some(value),
                None => find(entries, key),
            },
    decreases records.len(),
{
    if records.len() > 0 {
        let front = records.drop_last();
        lemma_replayed(entries, front);
        lemma_upsert(replayed(entries, front), records.last());
        assert forall|key: Seq<u8>| #[trigger]
            find(replayed(entries, records), key) == match last_write(records, key) {
                Some(value) => Some(value),
                None => find(entries, key),
            } by {
            assert(find(replayed(entries, front), key) == match last_write(front, key) {
                Some(value) => Some(value),
                None => find(entries, key),
            });
        }
    }
}

/// In sorted entries, a key below the middle one is looked for on the left.
pub proof fn lemma_split(
    left: Seq<RecordView>,
    mid: RecordView,
    right: Seq<RecordView>,
    record: RecordView,
)
    requires
        key_sorted(left + seq![mid] + right),
    ensures
        key_sorted(left),
        key_sorted(right),
        bytes_lt(record.key, mid.key) ==> {
            &&& find(left + seq![mid] + right, record.key) == find(left, record.key)
            &&& upsert(left + seq![mid] + right, record) == upsert(left, record) + seq![mid] + right
        },
        bytes_lt(mid.key, record.key) ==> {
            &&& find(left + seq![mid] + right, record.key) == find(right, record.key)
            &&& upsert(left + seq![mid] + right, record) == left + seq![mid] + upsert(right, record)
        },
        record.key == mid.key ==> {
            &&& find(left + seq![mid] + right, record.key) == Some(mid.value)
            &&& upsert(left + seq![mid] + right, record) == left + seq![record] + right
        },
    decreases right.len(),
{
    let all = left + seq![mid] + right;
    let n = left.len() as int;
    assert(all[n] == mid);
    assert forall|a: int, b: int| 0 <= a < b < left.len() implies bytes_lt(
        (#[trigger] left[a]).key,
        (#[trigger] left[b]).key,
    ) by {
        assert(bytes_lt(all[a].key, all[b].key));
    }
    assert forall|a: int, b: int| 0 <= a < b < right.len() implies bytes_lt(
        (#[trigger] right[a]).key,
        (#[trigger] right[b]).key,
    ) by {
        assert(bytes_lt(all[n + 1 + a].key, all[n + 1 + b].key));
    }
    util::lemma_bytes_lt_total(mid.key, record.key);
    if right.len() == 0 {
        assert(all =~= left.push(mid));
        assert(all.drop_last() =~= left);
        if bytes_lt(record.key, mid.key) {
            assert(upsert(all, record) =~= upsert(left, record) + seq![mid] + right);
        } else if bytes_lt(mid.key, record.key) {
            assert(upsert(all, record) =~= left + seq![mid] + upsert(right, record));
            assert forall|i: int| 0 <= i < left.len() implies (#[trigger] left[i]).key
                != record.key by {
                assert(bytes_lt(all[i].key, all[n].key));
                util::lemma_bytes_lt_transitive(left[i].key, mid.key, record.key);
                util::lemma_bytes_lt_total(left[i].key, record.key);
            }
            lemma_find_none(left, record.key);
        } else {
            assert(upsert(all, record) =~= left + seq![record] + right);
        }
    } else {
        let front = right.drop_last();
        let last = right.last();
        assert(all.last() == last);
        assert(all.drop_last() =~= left + seq![mid] + front);
        lemma_key_sorted_drop_last(all);
        lemma_split(left, mid, front, record);
        util::lemma_bytes_lt_total(last.key, record.key);
        assert(bytes_lt(mid.key, last.key)) by {
            assert(bytes_lt(all[n].key, all[all.len() - 1].key));
        }
        if bytes_lt(record.key, mid.key) {
            util::lemma_bytes_lt_transitive(record.key, mid.key, last.key);
            assert(upsert(all, record) =~= upsert(left, record) + seq![mid] + right);
        } else if bytes_lt(mid.key, record.key) {
            assert(upsert(all, record) =~= left + seq![mid] + upsert(right, record));
        } else {
            assert(upsert(all, record) =~= left + seq![record] + right);
        }
    }
}

} // verus!
