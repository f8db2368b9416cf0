//! A key and its value, or its tombstone, in the binary format of the disk.
use crate::constants;
use crate::disk::encode;
use crate::memtable::Blob;
use crate::util;
use crate::util::varint;
use std::cmp::Ordering;
use vstd::prelude::*;

verus! {

/// Whether a record holds a value or marks a deletion.
#[derive(Clone, Copy, Debug, PartialEq, Eq, Structural)]
pub enum RecordType {
    Data,
    Tombstone,
}

/// What a record says: a key, and its value; a tombstone has no value.
#[verifier::ext_equal]
pub struct RecordView {
    pub key: Seq<u8>,
    pub value: Option<Seq<u8>>,
}

/// An encoded record, with the places of its key and value in the encoding.
///
/// `blob` is the record in the format of the write-ahead log and of the data
/// blocks. `key` and `value` are pairs of offset and length in `blob`; a record
/// without `value` is a tombstone.
#[derive(PartialEq, Eq, Debug)]
pub struct Record {
    pub blob: Blob,
    pub key: (usize, usize),
    pub value: Option<(usize, usize)>,
}

/// The first byte of a record.
pub open spec fn record_header(value: Option<Seq<u8>>) -> u8 {
    if value is Some {
        constants::DATA_LOG_HEADER
    } else {
        constants::TOMBSTONE_LOG_HEADER
    }
}

/// A byte string behind its length.
pub open spec fn sized(bytes: Seq<u8>) -> Seq<u8> {
    varint(bytes.len()) + bytes
}

/// The fields of a record that its log size counts.
pub open spec fn record_body(key: Seq<u8>, value: Option<Seq<u8>>) -> Seq<u8> {
    match value {
        Some(v) => sized(key) + sized(v),
        None => sized(key),
    }
}

/// The encoding of a record: header byte, log size, then key and value, each
/// behind its length.
pub open spec fn record_bytes(key: Seq<u8>, value: Option<Seq<u8>>) -> Seq<u8> {
    seq![record_header(value)] + sized(record_body(key, value))
}

/// Bytes that a record takes besides its key and its value, at most: the header and
/// three lengths.
pub const RECORD_OVERHEAD: usize = 31;

/// The encoding of a record can be held in memory. Where key and value leave room for
/// all that stands around them, it can.
pub open spec fn record_fits(key: Seq<u8>, value: Option<Seq<u8>>) -> bool {
    let value_len = match value {
        Some(v) => v.len(),
        None => 0,
    };
    ||| key.len() + value_len + RECORD_OVERHEAD <= usize::MAX
    ||| record_bytes(key, value).len() <= usize::MAX
}

/// What [`record_fits`] says is the same as that the encoding has an addressable length.
pub proof fn lemma_record_fits(key: Seq<u8>, value: Option<Seq<u8>>)
    ensures
        record_fits(key, value) <==> record_bytes(key, value).len() <= usize::MAX,
{
    let value_len = match value {
        Some(v) => v.len(),
        None => 0,
    };
    if key.len() + value_len + RECORD_OVERHEAD <= usize::MAX {
        util::lemma_varint_len(key.len());
        util::lemma_varint_len(value_len);
        util::lemma_varint_len(record_body(key, value).len());
    }
}

/// No record for a key is shorter than its tombstone.
pub proof fn lemma_tombstone_is_shortest(key: Seq<u8>, value: Option<Seq<u8>>)
    ensures
        record_bytes(key, None).len() <= record_bytes(key, value).len(),
{
    util::lemma_varint_len_monotonic(
        record_body(key, None).len(),
        record_body(key, value).len(),
    );
}

/// The key, behind its length, follows the log size.
proof fn lemma_key_in_record_bytes(key: Seq<u8>, value: Option<Seq<u8>>)
    ensures
        ({
            let at = 1 + varint(record_body(key, value).len()).len();
            &&& at + sized(key).len() <= record_bytes(key, value).len()
            &&& record_bytes(key, value).subrange(at as int, (at + sized(key).len()) as int)
                == sized(key)
        }),
{
    let at = 1 + varint(record_body(key, value).len()).len();
    assert(record_bytes(key, value).subrange(at as int, (at + sized(key).len()) as int) =~= sized(
        key,
    ));
}

/// A buffer behind its first byte, once `log`, `len` and `key` are written there.
proof fn lemma_write_head(buffer: Seq<u8>, log: Seq<u8>, len: Seq<u8>, key: Seq<u8>)
    requires
        1 + log.len() + len.len() + key.len() <= buffer.len(),
    ensures
        util::overwritten(
            util::overwritten(util::overwritten(buffer, 1, log), 1int + log.len(), len),
            1int + log.len() + len.len(),
            key,
        ).subrange(1, 1int + log.len() + len.len() + key.len()) == log + (len + key),
        util::overwritten(
            util::overwritten(util::overwritten(buffer, 1, log), 1int + log.len(), len),
            1int + log.len() + len.len(),
            key,
        )[0] == buffer[0],
{
    reveal(util::overwritten);
    let first = util::overwritten(buffer, 1, log);
    let second = util::overwritten(first, 1int + log.len(), len);
    let third = util::overwritten(second, 1int + log.len() + len.len(), key);
    assert(first.subrange(1, 1int + log.len()) =~= log);
    assert(second.subrange(1, 1int + log.len() + len.len()) =~= log + len);
    assert(third.subrange(1, 1int + log.len() + len.len() + key.len()) =~= log + (len + key));
}

/// A buffer that holds a record up to its key, once a log size of the same length is
/// written there.
proof fn lemma_write_log_size(
    record: Seq<u8>,
    buffer: Seq<u8>,
    log: Seq<u8>,
    key: Seq<u8>,
    value: Option<Seq<u8>>,
)
    requires
        record == record_bytes(key, value),
        varint(record_body(key, value).len()).len() == log.len(),
        1 + log.len() + sized(key).len() <= buffer.len(),
        forall|i: int| 0 <= i < 1 + log.len() + sized(key).len() ==> buffer[i] == record[i],
    ensures
        util::overwritten(buffer, 1, log).subrange(1, 1int + log.len() + sized(key).len()) == log
            + sized(key),
{
    let key_at = 1int + log.len();
    let key_end = key_at + sized(key).len();
    let after = util::overwritten(buffer, 1, log);
    lemma_key_in_record_bytes(key, value);
    assert(buffer.subrange(key_at, key_end) =~= record.subrange(key_at, key_end));
    reveal(util::overwritten);
    assert(after.subrange(1, key_end) =~= log + buffer.subrange(key_at, key_end));
}

/// A buffer that holds `log` and `key` behind its first byte, once the header of a
/// data record and `value` are written round them.
proof fn lemma_assemble(buffer: Seq<u8>, key: Seq<u8>, value: Seq<u8>)
    requires
        ({
            let log = varint(record_body(key, Some(value)).len());
            &&& buffer.len() == record_bytes(key, Some(value)).len()
            &&& buffer.subrange(1, 1int + log.len() + sized(key).len()) == log + sized(key)
        }),
    ensures
        ({
            let len_at = 1int + varint(record_body(key, Some(value)).len()).len() + sized(key).len();
            let value_at = len_at + varint(value.len()).len();
            let key_at = len_at - key.len();
            let blob = util::overwritten(
                util::overwritten(buffer, len_at, varint(value.len())),
                value_at,
                value,
            ).update(0, constants::DATA_LOG_HEADER);
            &&& blob == record_bytes(key, Some(value))
            &&& blob.subrange(key_at, key_at + key.len()) == key
            &&& blob.subrange(value_at, value_at + value.len()) == value
        }),
{
    let head = varint(record_body(key, Some(value)).len()) + sized(key);
    let len = varint(value.len());
    reveal(util::overwritten);
    let first = util::overwritten(buffer, 1int + head.len(), len);
    let second = util::overwritten(first, 1int + head.len() + len.len(), value);
    assert(first =~= buffer.subrange(0, 1) + head + len + buffer.subrange(
        1int + head.len() + len.len(),
        buffer.len() as int,
    ));
    assert(second =~= buffer.subrange(0, 1) + head + len + value);
    let blob = second.update(0, constants::DATA_LOG_HEADER);
    assert(blob =~= seq![constants::DATA_LOG_HEADER] + head + len + value);
    assert(blob =~= record_bytes(key, Some(value)));
    let len_at = 1int + head.len();
    assert(blob.subrange(len_at - key.len(), len_at) =~= key);
    assert(blob.subrange(len_at + len.len(), len_at + len.len() + value.len()) =~= value);
}

impl View for Record {
    type V = RecordView;

    open spec fn view(&self) -> RecordView {
        RecordView {
            key: self.blob@.subrange(self.key.0 as int, self.key.0 + self.key.1),
            value: match self.value {
                Some((offset, len)) => Some(self.blob@.subrange(offset as int, offset + len)),
                None => None,
            },
        }
    }
}

impl Record {
    /// Key and value lie inside the blob.
    pub open spec fn readable(&self) -> bool {
        &&& self.key.0 + self.key.1 <= self.blob.len()
        &&& self.value matches Some((offset, len)) ==> offset + len <= self.blob.len()
    }

    /// The blob is the encoding of the record's key and value, and the offsets
    /// point at these in it.
    pub open spec fn wf(&self) -> bool {
        &&& self.readable()
        &&& self.blob@ == record_bytes(self@.key, self@.value)
        &&& self.key.0 == 1 + varint(record_body(self@.key, self@.value).len()).len() + varint(
            self.key.1 as nat,
        ).len()
        &&& self.value matches Some((offset, len)) ==> offset == self.key.0 + self.key.1 + varint(
            len as nat,
        ).len()
    }

    /// The record is what encoding `key` and `value` gives, in all its parts: blob, and
    /// places of key and value.
    pub open spec fn encodes(&self, key: Seq<u8>, value: Option<Seq<u8>>) -> bool {
        let key_at = 1 + varint(record_body(key, value).len()).len() + varint(key.len()).len();
        &&& self.blob@ == record_bytes(key, value)
        &&& self.key.0 == key_at
        &&& self.key.1 == key.len()
        &&& match value {
            Some(v) => self.value matches Some((offset, len)) && offset == key_at + key.len()
                + varint(v.len()).len() && len == v.len(),
            None => self.value is None,
        }
    }

    /// A data record for `key` and `value`.
    pub fn new_data_record(key: Blob, value: Blob) -> (record: Record)
        requires
            record_fits(key@, Some(value@)),
        ensures
            record.wf(),
            record@ == (RecordView { key: key@, value: Some(value@) }),
            record.encodes(key@, Some(value@)),
    {
        encode::encode_data_record(key, value)
    }

    /// A tombstone for `key`.
    pub fn new_tombstone_record(key: Blob) -> (record: Record)
        requires
            record_fits(key@, None),
        ensures
            record.wf(),
            record@ == (RecordView { key: key@, value: None }),
            record.encodes(key@, None),
    {
        encode::encode_tombstone_record(key)
    }

    /// Whether this is a data record or a tombstone.
    pub fn record_type(&self) -> (record_type: RecordType)
        ensures
            record_type == if self@.value is Some {
                RecordType::Data
            } else {
                RecordType::Tombstone
            },
    {
        match self.value {
            Some(_) => RecordType::Data,
            None => RecordType::Tombstone,
        }
    }

    /// The key.
    pub fn key(&self) -> (key: &[u8])
        requires
            self.readable(),
        ensures
            key@ == self@.key,
    {
        let (offset, len) = self.key;
        vstd::slice::slice_subrange(self.blob.as_slice(), offset, offset + len)
    }

    /// The value; `None` for a tombstone.
    pub fn value(&self) -> (value: Option<&[u8]>)
        requires
            self.readable(),
        ensures
            value is Some <==> self@.value is Some,
            value matches Some(bytes) ==> self@.value == Some(bytes@),
    {
        match self.value {
            Some((offset, len)) => Some(
                vstd::slice::slice_subrange(self.blob.as_slice(), offset, offset + len),
            ),
            None => None,
        }
    }

    /// The encoded record, taken out.
    pub fn take_blob(self) -> (blob: Blob)
        ensures
            blob == self.blob,
    {
        let Record { blob, key: _, value: _ } = self;
        blob
    }

    /// A copy of the value; `None` for a tombstone.
    pub fn copy_value(&self) -> (value: Option<Blob>)
        requires
            self.readable(),
        ensures
            value is Some <==> self@.value is Some,
            value matches Some(bytes) ==> self@.value == Some(bytes@),
    {
        match self.value() {
            Some(bytes) => Some(vstd::slice::slice_to_vec(bytes)),
            None => None,
        }
    }

    /// A copy of the key.
    pub fn copy_key(&self) -> (key: Blob)
        requires
            self.readable(),
        ensures
            key@ == self@.key,
    {
        vstd::slice::slice_to_vec(self.key())
    }

    /// A copy of the encoded record.
    pub fn copy_record(&self) -> (blob: Blob)
        ensures
            blob@ == self.blob@,
    {
        vstd::slice::slice_to_vec(self.blob.as_slice())
    }

    /// Bytes in the encoded record.
    pub fn size(&self) -> (size: usize)
        ensures
            size == self.blob@.len(),
    {
        self.blob.len()
    }

    /// How this record's key stands to that of `other`.
    pub fn cmp_key(&self, other: &Record) -> (order: Ordering)
        requires
            self.readable(),
            other.readable(),
        ensures
            order is Equal <==> self@.key == other@.key,
            order is Less <==> util::bytes_lt(self@.key, other@.key),
            order is Greater <==> util::bytes_lt(other@.key, self@.key),
    {
        proof {
            util::lemma_bytes_lt_total(self@.key, other@.key);
        }
        match util::key_order(self.key(), other.key()) {
            util::KeyOrder::Less => Ordering::Less,
            util::KeyOrder::Equal => Ordering::Equal,
            util::KeyOrder::Greater => Ordering::Greater,
        }
    }

    /// Takes over what `record` says of the key: its value, or its tombstone.
    pub fn update_from_record(&mut self, record: &Record)
        requires
            old(self).wf(),
            record.readable(),
            record@.value is Some ==> record_fits(old(self)@.key, record@.value),
        ensures
            final(self).wf(),
            final(self)@ == (RecordView { key: old(self)@.key, value: record@.value }),
            final(self).encodes(old(self)@.key, record@.value),
    {
        match record.value() {
            Some(value) => self.overwrite_data(value),
            None => self.update_data_to_tombstone(),
        }
    }

    /// Makes this a data record with `new_value`, in the same blob.
    pub fn overwrite_data(&mut self, new_value: &[u8])
        requires
            old(self).wf(),
            record_fits(old(self)@.key, Some(new_value@)),
        ensures
            final(self).wf(),
            final(self)@ == (RecordView { key: old(self)@.key, value: Some(new_value@) }),
            final(self).encodes(old(self)@.key, Some(new_value@)),
    {
        proof {
            lemma_record_fits(self@.key, Some(new_value@));
        }
        let ghost key = self@.key;
        let ghost body = record_body(key, Some(new_value@));
        let key_len: usize = self.key.1;
        let key_varint_len: usize = util::varint_size_from_len(key_len);
        let value_varint = util::encode_varint(new_value.len());
        assert(body.len() == key_varint_len + key_len + value_varint@.len() + new_value@.len());
        let log_size: usize = value_varint.len() + key_varint_len + key_len + new_value.len();
        let log_size_varint = util::encode_varint(log_size);
        let buffer_size: usize = log_size_varint.len() + log_size + 1;

        let current_log_size_varint_len: usize = self.key.0 - key_varint_len - 1;
        let value_varint_offset: usize = if current_log_size_varint_len != log_size_varint.len() {
            // The key moves: it is set aside before the blob changes its size.
            let temp_key_buffer = self.copy_key();
            let key_varint = util::encode_varint(key_len);
            self.blob.resize(buffer_size, 0u8);
            let ghost resized = self.blob@;

            let mut offset: usize = 1;
            util::write_at(&mut self.blob, offset, log_size_varint.as_slice());
            offset = offset + log_size_varint.len();
            util::write_at(&mut self.blob, offset, key_varint.as_slice());
            offset = offset + key_varint_len;
            util::write_at(&mut self.blob, offset, temp_key_buffer.as_slice());
            self.key = (offset, key_len);
            proof {
                lemma_write_head(resized, log_size_varint@, key_varint@, key);
            }
            offset + key_len
        } else {
            let ghost before = self.blob@;
            self.blob.resize(buffer_size, 0u8);
            let ghost resized = self.blob@;
            util::write_at(&mut self.blob, 1, log_size_varint.as_slice());
            proof {
                lemma_key_in_record_bytes(key, old(self)@.value);
                lemma_write_log_size(before, resized, log_size_varint@, key, old(self)@.value);
            }
            self.key.0 + key_len
        };
        let ghost head = log_size_varint@ + sized(key);
        let ghost ready = self.blob@;
        assert(ready.subrange(1, value_varint_offset as int) == head);
        util::write_at(&mut self.blob, value_varint_offset, value_varint.as_slice());
        let value_offset: usize = value_varint_offset + value_varint.len();
        util::write_at(&mut self.blob, value_offset, new_value);
        self.blob[0] = constants::DATA_LOG_HEADER;
        self.value = Some((value_offset, new_value.len()));
        proof {
            lemma_assemble(ready, key, new_value@);
        }
    }

    /// Makes this a tombstone, in the same blob.
    pub fn update_data_to_tombstone(&mut self)
        requires
            old(self).wf(),
        ensures
            final(self).wf(),
            final(self)@ == (RecordView { key: old(self)@.key, value: None }),
            final(self).encodes(old(self)@.key, None),
            final(self).blob@.len() <= old(self).blob@.len(),
    {
        proof {
            lemma_tombstone_is_shortest(self@.key, self@.value);
            assert(self.blob.len() == record_bytes(self@.key, self@.value).len());
        }
        let key = self.copy_key();
        let key_varint = util::encode_varint(key.len());
        assert(record_body(key@, None).len() == key_varint@.len() + key@.len());
        let log_size: usize = key_varint.len() + key.len();
        let log_size_varint = util::encode_varint(log_size);
        let total_size: usize = log_size + log_size_varint.len() + 1;
        self.blob.resize(total_size, 0u8);

        self.blob[0] = constants::TOMBSTONE_LOG_HEADER;
        let ghost resized = self.blob@;
        let mut offset: usize = 1;
        util::write_at(&mut self.blob, offset, log_size_varint.as_slice());
        offset = offset + log_size_varint.len();
        util::write_at(&mut self.blob, offset, key_varint.as_slice());
        offset = offset + key_varint.len();
        self.key = (offset, key.len());
        util::write_at(&mut self.blob, offset, key.as_slice());
        self.value = None;
        proof {
            lemma_write_head(resized, log_size_varint@, key_varint@, key@);
            let body = self.blob@.subrange(1, total_size as int);
            assert(self.blob@ =~= seq![self.blob@[0]] + body);
            assert(self@.key =~= key@);
        }
    }
}

/// A record that encodes a key and a value says these.
pub proof fn lemma_encodes(record: Record, key: Seq<u8>, value: Option<Seq<u8>>)
    ensures
        record.encodes(key, value) <==> record.wf() && record@ == (RecordView { key, value }),
{
    if record.encodes(key, value) {
        let blob = record_bytes(key, value);
        let key_at = record.key.0 as int;
        lemma_key_in_record_bytes(key, value);
        let key_part = blob.subrange(key_at - varint(key.len()).len(), key_at + key.len());
        assert(record@.key =~= key_part.subrange(
            varint(key.len()).len() as int,
            key_part.len() as int,
        ));
        assert(sized(key).subrange(varint(key.len()).len() as int, sized(key).len() as int)
            =~= key);
        if let Some(v) = value {
            assert(record@.value->0 =~= v);
        }
    }
}

/// Two records that encode the same key and value are alike in blob, key and value: an
/// update in place leaves what encoding anew gives, and nothing of what was there.
pub proof fn lemma_encoding_is_unique(a: Record, b: Record, key: Seq<u8>, value: Option<Seq<u8>>)
    requires
        a.encodes(key, value),
        b.encodes(key, value),
    ensures
        a.blob@ == b.blob@,
        a.key == b.key,
        a.value == b.value,
{
}

/// Updating a record a second time from the same record changes nothing, and no update
/// changes the key, whatever key the other record has.
pub proof fn lemma_update_twice(
    before: Record,
    once: Record,
    twice: Record,
    record: RecordView,
)
    requires
        once.encodes(before@.key, record.value),
        twice.encodes(once@.key, record.value),
    ensures
        once@.key == before@.key,
        twice.blob@ == once.blob@,
        twice.key == once.key,
        twice.value == once.value,
{
    lemma_encodes(once, before@.key, record.value);
    lemma_encoding_is_unique(once, twice, before@.key, record.value);
}

impl From<Record> for Blob {
    fn from(record: Record) -> (blob: Blob) {
        let Record { blob, key: _, value: _ } = record;
        blob
    }
}

impl vstd::std_specs::convert::FromSpecImpl<Record> for Blob {
    open spec fn obeys_from_spec() -> bool {
        true
    }

    open spec fn from_spec(record: Record) -> Blob {
        record.blob
    }
}

} // verus!
