//! Reading records.
use crate::constants;
use crate::memtable::record::{
    record_body, record_bytes, sized, Record, RecordView,
};
use crate::util;
use crate::util::{parse_varint, valid_varint, varint};
use vstd::prelude::*;

verus! {

/// Where the parts of a record lie in the bytes that hold it.
pub struct RecordLayout {
    pub key_at: int,
    pub key_len: nat,
    /// Place and length of the value; `None` for a tombstone.
    pub value: Option<(int, nat)>,
    /// The position behind the record.
    pub end: int,
}

/// A byte string behind its length, at position `at` of `s`: where it starts and
/// how long it is; `None` where `s` does not hold all of it.
pub open spec fn sized_at(s: Seq<u8>, at: int) -> Option<(int, nat)> {
    if !valid_varint(s, at) {
        None
    } else {
        let (len, walked) = parse_varint(s, at)->0;
        if at + walked + len <= s.len() {
            Some((at + walked, len))
        } else {
            None
        }
    }
}

/// The record at position `at` of `s`; `None` where there is none: an unknown
/// header, a varint that is not valid, too few bytes, or a log size that is not the
/// length of what follows it.
pub open spec fn record_layout(s: Seq<u8>, at: int) -> Option<RecordLayout> {
    if !(0 <= at < s.len() && known_header(s[at]) && valid_varint(s, at + 1)) {
        None
    } else {
        let (log_size, walked) = parse_varint(s, at + 1)->0;
        let body = at + 1 + walked;
        match body_layout(s, s[at], body) {
            Some(layout) => if log_size == layout.end - body {
                Some(layout)
            } else {
                None
            },
            None => None,
        }
    }
}

/// The fields behind the log size of a record with the given header.
pub open spec fn body_layout(s: Seq<u8>, header: u8, body: int) -> Option<RecordLayout> {
    match sized_at(s, body) {
        None => None,
        Some((key_at, key_len)) => if header == constants::TOMBSTONE_LOG_HEADER {
            Some(RecordLayout { key_at, key_len, value: None, end: key_at + key_len })
        } else {
            match sized_at(s, key_at + key_len) {
                None => None,
                Some((value_at, value_len)) => Some(
                    RecordLayout {
                        key_at,
                        key_len,
                        value: Some((value_at, value_len)),
                        end: value_at + value_len,
                    },
                ),
            }
        },
    }
}

/// Whether `header` opens a record.
pub open spec fn known_header(header: u8) -> bool {
    header == constants::DATA_LOG_HEADER || header == constants::TOMBSTONE_LOG_HEADER
}

/// What the record laid out as `layout` in `s` says.
pub open spec fn record_in(s: Seq<u8>, layout: RecordLayout) -> RecordView {
    RecordView {
        key: s.subrange(layout.key_at, layout.key_at + layout.key_len),
        value: match layout.value {
            Some((value_at, value_len)) => Some(s.subrange(value_at, value_at + value_len)),
            None => None,
        },
    }
}

/// The parts of a record lie behind its first byte, one after the other, and in
/// the bytes that hold it.
pub proof fn lemma_record_layout_bounds(s: Seq<u8>, at: int)
    ensures
        record_layout(s, at) matches Some(layout) ==> {
            &&& 0 <= at < layout.key_at
            &&& layout.key_at + layout.key_len <= layout.end <= s.len()
            &&& layout.value matches Some((value_at, value_len)) ==> layout.key_at + layout.key_len
                < value_at && value_at + value_len == layout.end
        },
{
    if record_layout(s, at) is Some {
        util::lemma_parse_varint_bounds(s, at + 1);
        let body = at + 1 + (parse_varint(s, at + 1)->0).1;
        util::lemma_parse_varint_bounds(s, body);
        let (key_at, key_len) = sized_at(s, body)->0;
        util::lemma_parse_varint_bounds(s, key_at + key_len);
    }
}

/// A record that is read from the first bytes is read from all.
pub proof fn lemma_record_layout_prefix(s: Seq<u8>, cut: int, at: int)
    requires
        0 <= cut <= s.len(),
    ensures
        record_layout(s.take(cut), at) is Some ==> record_layout(s, at) == record_layout(
            s.take(cut),
            at,
        ),
{
    let front = s.take(cut);
    if record_layout(front, at) is Some {
        util::lemma_parse_varint_prefix(s, cut, at + 1);
        let body = at + 1 + (parse_varint(front, at + 1)->0).1;
        util::lemma_parse_varint_prefix(s, cut, body);
        let (key_at, key_len) = sized_at(front, body)->0;
        util::lemma_parse_varint_prefix(s, cut, key_at + key_len);
        assert(front[at] == s[at]);
    }
}

/// A record is read from the bytes that it takes.
pub proof fn lemma_record_layout_within(s: Seq<u8>, cut: int, at: int)
    requires
        0 <= cut <= s.len(),
    ensures
        record_layout(s, at) matches Some(layout) ==> layout.end <= cut ==> {
            &&& record_layout(s.take(cut), at) == Some(layout)
            &&& record_in(s.take(cut), layout) == record_in(s, layout)
        },
{
    let front = s.take(cut);
    if let Some(layout) = record_layout(s, at) {
        if layout.end <= cut {
            lemma_record_layout_bounds(s, at);
            let body = at + 1 + (parse_varint(s, at + 1)->0).1;
            let (key_at, key_len) = sized_at(s, body)->0;
            util::lemma_parse_varint_bounds(s, at + 1);
            util::lemma_parse_varint_bounds(s, body);
            util::lemma_parse_varint_bounds(s, key_at + key_len);
            util::lemma_parse_varint_within(s, cut, at + 1);
            util::lemma_parse_varint_within(s, cut, body);
            util::lemma_parse_varint_within(s, cut, key_at + key_len);
            assert(front[at] == s[at]);
            assert(record_in(front, layout).key =~= record_in(s, layout).key);
            if let Some((value_at, value_len)) = layout.value {
                assert(front.subrange(value_at, value_at + value_len) =~= s.subrange(
                    value_at,
                    value_at + value_len,
                ));
            }
        }
    }
}

proof fn lemma_sized_at_of_sized(s: Seq<u8>, at: int, bytes: Seq<u8>)
    requires
        0 <= at,
        at + sized(bytes).len() <= s.len(),
        s.subrange(at, at + sized(bytes).len()) == sized(bytes),
        bytes.len() <= u64::MAX,
    ensures
        sized_at(s, at) == Some((at + varint(bytes.len()).len(), bytes.len())),
        s.subrange(
            at + varint(bytes.len()).len(),
            at + varint(bytes.len()).len() + bytes.len(),
        ) == bytes,
{
    let v = varint(bytes.len());
    let whole = s.subrange(at, at + sized(bytes).len());
    assert(s.subrange(at, at + v.len()) =~= whole.subrange(0, v.len() as int));
    assert(whole.subrange(0, v.len() as int) =~= v);
    util::lemma_parse_varint_of_varint(s, at, bytes.len());
    util::lemma_varint_len(bytes.len());
    assert(s.subrange(at + v.len(), at + v.len() + bytes.len()) =~= whole.subrange(
        v.len() as int,
        whole.len() as int,
    ));
    assert(whole.subrange(v.len() as int, whole.len() as int) =~= bytes);
}

/// The encoding of what a record says is no longer than the bytes that it was read
/// from.
pub proof fn lemma_encoding_fits(s: Seq<u8>, at: int)
    ensures
        record_layout(s, at) matches Some(layout) ==> {
            let record = record_in(s, layout);
            record_bytes(record.key, record.value).len() <= layout.end - at
        },
{
    if let Some(layout) = record_layout(s, at) {
        lemma_record_layout_bounds(s, at);
        let (log_size, walked) = parse_varint(s, at + 1)->0;
        let body = at + 1 + walked;
        let record = record_in(s, layout);
        util::lemma_parse_varint_minimal(s, at + 1);
        util::lemma_parse_varint_minimal(s, body);
        util::lemma_parse_varint_bounds(s, body);
        assert(record.key.len() == layout.key_len);
        let key_end = layout.key_at + layout.key_len;
        if record.value is Some {
            util::lemma_parse_varint_minimal(s, key_end);
            util::lemma_parse_varint_bounds(s, key_end);
            assert(record.value->0.len() == (layout.value->0).1);
        }
        assert(record_body(record.key, record.value).len() <= log_size);
        util::lemma_varint_len_monotonic(record_body(record.key, record.value).len(), log_size);
    }
}

/// Decoding undoes encoding: where the encoding of a record stands, a record is
/// laid out that takes exactly those bytes and says the same.
pub proof fn lemma_decode_undoes_encode(
    s: Seq<u8>,
    at: int,
    key: Seq<u8>,
    value: Option<Seq<u8>>,
)
    requires
        0 <= at,
        at + record_bytes(key, value).len() <= s.len(),
        s.subrange(at, at + record_bytes(key, value).len()) == record_bytes(key, value),
        record_bytes(key, value).len() <= u64::MAX,
    ensures
        record_layout(s, at) matches Some(layout) && {
            &&& record_in(s, layout) == (RecordView { key, value })
            &&& layout.end == at + record_bytes(key, value).len()
            &&& layout.key_len == key.len()
            &&& layout.key_at == at + 1 + varint(record_body(key, value).len()).len() + varint(
                key.len(),
            ).len()
            &&& layout.value == match value {
                Some(v) => Some(
                    (layout.key_at + key.len() + varint(v.len()).len(), v.len()),
                ),
                None => None,
            }
        },
{
    let body = record_body(key, value);
    let whole = record_bytes(key, value);
    let there = s.subrange(at, at + whole.len());
    assert(s[at] == there[0]);
    assert(s.subrange(at + 1, at + 1 + sized(body).len()) =~= there.subrange(
        1,
        there.len() as int,
    ));
    assert(whole.subrange(1, whole.len() as int) =~= sized(body));
    lemma_sized_at_of_sized(s, at + 1, body);
    let body_at = at + 1 + varint(body.len()).len();
    let inside = s.subrange(body_at, body_at + body.len());
    let k = sized(key);
    assert(s.subrange(body_at, body_at + k.len()) =~= inside.subrange(0, k.len() as int));
    assert(body.subrange(0, k.len() as int) =~= k);
    lemma_sized_at_of_sized(s, body_at, key);
    if value is Some {
        let v = sized(value->0);
        let value_at = body_at + k.len();
        assert(s.subrange(value_at, value_at + v.len()) =~= inside.subrange(
            k.len() as int,
            inside.len() as int,
        ));
        assert(body.subrange(k.len() as int, body.len() as int) =~= v);
        lemma_sized_at_of_sized(s, value_at, value->0);
    }
}

/// Decodes the record at `offset` and moves `offset` behind it. Where the byte at
/// `offset` is the header of no record, there is none, and `offset` moves behind
/// that byte.
pub fn decode_disk_record(buffer: &[u8], offset: &mut usize) -> (record: Option<Record>)
    requires
        *old(offset) < buffer.len(),
        known_header(buffer@[*old(offset) as int]) ==> record_layout(
            buffer@,
            *old(offset) as int,
        ) is Some,
    ensures
        record is Some <==> known_header(buffer@[*old(offset) as int]),
        record is None ==> *final(offset) == *old(offset) + 1,
        record matches Some(r) ==> decoded_from(
            r,
            buffer@,
            *old(offset) as int,
            *final(offset) as int,
        ),
{
    let header = buffer[*offset];
    if header == constants::DATA_LOG_HEADER {
        *offset = *offset + 1;
        Some(decode_insert_record(buffer, offset))
    } else if header == constants::TOMBSTONE_LOG_HEADER {
        *offset = *offset + 1;
        Some(decode_tombstone_record(buffer, offset))
    } else {
        *offset = *offset + 1;
        None
    }
}

/// `record` is the one at position `at` of `s`, and `end` is the position behind
/// it: its blob holds the bytes in between, and its offsets are those of key and
/// value in the blob.
pub open spec fn decoded_from(record: Record, s: Seq<u8>, at: int, end: int) -> bool {
    &&& record_layout(s, at) matches Some(layout)
    &&& end == layout.end
    &&& record.blob@ == s.subrange(at, layout.end)
    &&& record.key.0 == layout.key_at - at
    &&& record.key.1 == layout.key_len
    &&& match layout.value {
        Some((value_at, value_len)) => record.value matches Some((offset, len)) && offset
            == value_at - at && len == value_len,
        None => record.value is None,
    }
    &&& record.readable()
    &&& record@ == record_in(s, layout)
}

/// Decodes a data record whose header stands before `offset`.
fn decode_insert_record(buffer: &[u8], offset: &mut usize) -> (record: Record)
    requires
        1 <= *old(offset) <= buffer.len(),
        buffer@[*old(offset) - 1] == constants::DATA_LOG_HEADER,
        record_layout(buffer@, *old(offset) - 1) is Some,
    ensures
        decoded_from(record, buffer@, *old(offset) - 1, *final(offset) as int),
{
    let start_offset: usize = *offset - 1;
    let ghost layout = record_layout(buffer@, start_offset as int)->0;
    proof {
        lemma_record_layout_bounds(buffer@, start_offset as int);
    }
    let (_log_size, walked) = util::decode_varint(buffer, *offset).unwrap();
    *offset = *offset + walked;

    let (key_length, walked) = util::decode_varint(buffer, *offset).unwrap();
    *offset = *offset + walked;
    let key: (usize, usize) = (*offset - start_offset, key_length as usize);
    *offset = *offset + key_length as usize;

    let (data_len, walked) = util::decode_varint(buffer, *offset).unwrap();
    *offset = *offset + walked;
    let value: (usize, usize) = (*offset - start_offset, data_len as usize);
    *offset = *offset + data_len as usize;

    let blob = vstd::slice::slice_to_vec(
        vstd::slice::slice_subrange(buffer, start_offset, *offset),
    );
    let record = Record { blob, key, value: Some(value) };
    proof {
        assert(record@.key =~= record_in(buffer@, layout).key);
        assert(record@.value->0 =~= record_in(buffer@, layout).value->0);
    }
    record
}

/// Decodes a tombstone whose header stands before `offset`.
fn decode_tombstone_record(buffer: &[u8], offset: &mut usize) -> (record: Record)
    requires
        1 <= *old(offset) <= buffer.len(),
        buffer@[*old(offset) - 1] == constants::TOMBSTONE_LOG_HEADER,
        record_layout(buffer@, *old(offset) - 1) is Some,
    ensures
        decoded_from(record, buffer@, *old(offset) - 1, *final(offset) as int),
{
    let start_offset: usize = *offset - 1;
    let ghost layout = record_layout(buffer@, start_offset as int)->0;
    proof {
        lemma_record_layout_bounds(buffer@, start_offset as int);
    }
    let (_log_size, walked) = util::decode_varint(buffer, *offset).unwrap();
    *offset = *offset + walked;

    let (key_length, walked) = util::decode_varint(buffer, *offset).unwrap();
    *offset = *offset + walked;
    let key: (usize, usize) = (*offset - start_offset, key_length as usize);
    *offset = *offset + key_length as usize;

    let blob = vstd::slice::slice_to_vec(
        vstd::slice::slice_subrange(buffer, start_offset, *offset),
    );
    let record = Record { blob, key, value: None };
    proof {
        assert(record@.key =~= record_in(buffer@, layout).key);
    }
    record
}

/// Whether a whole record stands at `offset`.
pub fn has_record(buffer: &[u8], offset: usize) -> (found: bool)
    ensures
        found == (record_layout(buffer@, offset as int) is Some),
{
    if offset >= buffer.len() {
        return false;
    }
    let header = buffer[offset];
    if header != constants::DATA_LOG_HEADER && header != constants::TOMBSTONE_LOG_HEADER {
        return false;
    }
    let (log_size, body): (u64, usize) = match util::decode_varint(buffer, offset + 1) {
        Some((log_size, walked)) => (log_size, offset + 1 + walked),
        None => return false,
    };
    let end: usize = match skip_sized(buffer, body) {
        None => return false,
        Some(key_end) => {
            if header == constants::TOMBSTONE_LOG_HEADER {
                key_end
            } else {
                match skip_sized(buffer, key_end) {
                    None => return false,
                    Some(value_end) => value_end,
                }
            }
        },
    };
    log_size == (end - body) as u64
}

/// The position behind the byte string that stands, behind its length, at
/// `offset`; `None` where there is no whole one.
fn skip_sized(buffer: &[u8], offset: usize) -> (end: Option<usize>)
    ensures
        end is Some <==> sized_at(buffer@, offset as int) is Some,
        end matches Some(position) ==> {
            let (at, len) = sized_at(buffer@, offset as int)->0;
            offset <= position <= buffer.len() && position == at + len
        },
{
    match util::decode_varint(buffer, offset) {
        Some((len, walked)) => {
            let at: usize = offset + walked;
            if len <= (buffer.len() - at) as u64 {
                Some(at + len as usize)
            } else {
                None
            }
        },
        None => None,
    }
}

/// The bytes of a record: the header, `0x00` for data and `0x01` for a tombstone; the
/// length of all that follows; the key behind its length; and for data the value behind
/// its length. Nothing stands behind these.
pub proof fn lemma_record_format(key: Seq<u8>, value: Option<Seq<u8>>)
    requires
        record_bytes(key, value).len() <= u64::MAX,
    ensures
        ({
            let s = record_bytes(key, value);
            &&& s[0] == if value is Some {
                0x00u8
            } else {
                0x01u8
            }
            &&& parse_varint(s, 1) matches Some((log_size, w))
            &&& log_size == s.len() - 1 - w
            &&& parse_varint(s, 1int + w) matches Some((key_len, x))
            &&& key_len == key.len()
            &&& s.subrange(1int + w + x, 1int + w + x + key.len()) == key
            &&& match value {
                Some(v) => {
                    let at = 1int + w + x + key.len();
                    &&& parse_varint(s, at) matches Some((value_len, y))
                    &&& value_len == v.len()
                    &&& s.subrange(at + y, at + y + v.len()) == v
                    &&& s.len() == at + y + v.len()
                },
                None => s.len() == 1int + w + x + key.len(),
            }
        }),
{
    let s = record_bytes(key, value);
    assert(s.subrange(0, s.len() as int) =~= s);
    lemma_decode_undoes_encode(s, 0, key, value);
    lemma_record_layout_format(s, 0);
}

/// What a record is read from, whatever bytes it stands in: a header of `0x00` or
/// `0x01`, the length of all that follows, the key behind its length, and where the
/// header is `0x00` the value behind its length.
pub proof fn lemma_record_layout_format(s: Seq<u8>, at: int)
    ensures
        record_layout(s, at) matches Some(layout) ==> {
            let record = record_in(s, layout);
            &&& 0 <= at < s.len()
            &&& s[at] == 0x00 || s[at] == 0x01
            &&& record.value is Some <==> s[at] == 0x00
            &&& parse_varint(s, at + 1) matches Some((log_size, w))
            &&& log_size == layout.end - (at + 1 + w)
            &&& parse_varint(s, at + 1 + w) matches Some((key_len, x))
            &&& layout.key_at == at + 1 + w + x
            &&& layout.key_len == key_len
            &&& record.key == s.subrange(at + 1 + w + x, at + 1 + w + x + key_len)
            &&& match record.value {
                Some(v) => {
                    let value_at = at + 1 + w + x + key_len;
                    &&& parse_varint(s, value_at) matches Some((value_len, y))
                    &&& v == s.subrange(value_at + y, value_at + y + value_len)
                    &&& layout.end == value_at + y + value_len
                },
                None => layout.end == at + 1 + w + x + key_len,
            }
            &&& layout.end <= s.len()
        },
{
    lemma_record_layout_bounds(s, at);
}

} // verus!
