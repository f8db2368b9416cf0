//! Buffering what goes to a write-ahead log.
use crate::memtable::Blob;
use vstd::prelude::*;

verus! {

/// Buffered bytes that make a write to the log due.
pub const WAL_FLUSH_BYTES: usize = 65536;

/// Milliseconds since the last write to the log that make the next one due.
pub const WAL_FLUSH_MILLIS: u64 = 400;

/// Bytes that a buffer has room for from the start.
pub const WAL_BUFFER_CAPACITY: usize = 102400;

/// Records that are not yet in the log file.
#[derive(Debug)]
pub struct WalBuffer {
    pub bytes: Blob,
}

impl WalBuffer {
    pub fn new() -> (buffer: WalBuffer)
        ensures
            buffer.bytes@ == Seq::<u8>::empty(),
    {
        WalBuffer { bytes: Vec::with_capacity(WAL_BUFFER_CAPACITY) }
    }

    /// Appends an encoded record.
    pub fn append(&mut self, log: Blob)
        ensures
            final(self).bytes@ == old(self).bytes@ + log@,
    {
        let mut log = log;
        self.bytes.append(&mut log);
    }

    /// Whether the buffer has to be written, `elapsed_millis` after it last was.
    pub fn is_due(&self, elapsed_millis: u64) -> (due: bool)
        ensures
            due == (self.bytes@.len() >= WAL_FLUSH_BYTES || elapsed_millis >= WAL_FLUSH_MILLIS),
            due <==> 64 * 1024 <= self.bytes@.len() || 400 <= elapsed_millis,
    {
        self.bytes.len() >= WAL_FLUSH_BYTES || elapsed_millis >= WAL_FLUSH_MILLIS
    }

    /// Takes the bytes to write out of the buffer.
    pub fn take(&mut self) -> (bytes: Blob)
        ensures
            bytes@ == old(self).bytes@,
            final(self).bytes@ == Seq::<u8>::empty(),
    {
        let mut bytes: Blob = Vec::with_capacity(WAL_BUFFER_CAPACITY);
        std::mem::swap(&mut self.bytes, &mut bytes);
        bytes
    }
}

} // verus!
