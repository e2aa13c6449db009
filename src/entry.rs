//! Log entries and their self-delimiting binary record form:
//! `index`, `term` and the command length as little-endian `u64`s, then the
//! command bytes.
use vstd::prelude::*;

use crate::codec::{
    bytes_as_slice, bytes_contents, bytes_from_vec, le_bytes, le_u64_bytes, le_value,
    lemma_le_round_trip, read_le_u64, FIELD_LEN,
};

verus! {

/// Length of the fixed part of a record: index, term and command length.
pub const HEADER_LEN: usize = 24;

/// One unit of the replicated log.
#[derive(Clone, Debug)]
pub struct LogEntry {
    pub index: u64,
    pub term: u64,
    pub command: bytes::Bytes,
}

/// The value of a log entry: its two numbers and its command bytes.
pub ghost struct EntryModel {
    pub index: u64,
    pub term: u64,
    pub command: Seq<u8>,
}

impl View for LogEntry {
    type V = EntryModel;

    open spec fn view(&self) -> EntryModel {
        EntryModel { index: self.index, term: self.term, command: bytes_contents(self.command) }
    }
}

/// Why a record could not be read.
#[derive(Clone, Copy, Debug, PartialEq, Eq, Structural)]
pub enum LogError {
    /// Fewer bytes than a record header remain: the clean end of the log.
    UnexpectedEof,
    /// A header is present but its command bytes are not all there.
    Corrupt,
    /// A record's index does not follow the previous one.
    NotSequential,
}

/// An entry that can be written: its command length fits the 64-bit length field.
pub open spec fn valid_entry(e: EntryModel) -> bool {
    e.command.len() <= u64::MAX
}

/// The record that stores `e`.
pub open spec fn encode_entry(e: EntryModel) -> Seq<u8> {
    le_bytes(e.index) + le_bytes(e.term) + le_bytes(e.command.len() as u64) + e.command
}

/// The command length declared by the header at the front of `d`.
pub open spec fn declared_len(d: Seq<u8>) -> int {
    le_value(d.subrange(16, 24)) as int
}

/// Whole length of the record at the front of `d`, header included.
pub open spec fn record_len(d: Seq<u8>) -> int {
    HEADER_LEN + declared_len(d)
}

/// `d` starts with a header and all the command bytes that it declares.
pub open spec fn has_record(d: Seq<u8>) -> bool {
    d.len() >= HEADER_LEN && d.len() >= record_len(d)
}

/// The entry held by the complete record at the front of `d`.
pub open spec fn front_entry(d: Seq<u8>) -> EntryModel {
    EntryModel {
        index: le_value(d.subrange(0, 8)),
        term: le_value(d.subrange(8, 16)),
        command: d.subrange(HEADER_LEN as int, record_len(d)),
    }
}

/// A record is self-delimiting: whatever follows it, the bytes of `e`'s
/// record are read back as `e`, and the reading stops where they end.
pub proof fn lemma_decode_encoded(e: EntryModel, rest: Seq<u8>)
    requires
        valid_entry(e),
    ensures
        has_record(encode_entry(e) + rest),
        front_entry(encode_entry(e) + rest) == e,
        record_len(encode_entry(e) + rest) == encode_entry(e).len(),
{
    let d = encode_entry(e) + rest;
    lemma_le_round_trip(e.index);
    lemma_le_round_trip(e.term);
    lemma_le_round_trip(e.command.len() as u64);
    assert(d.subrange(0, 8) =~= le_bytes(e.index));
    assert(d.subrange(8, 16) =~= le_bytes(e.term));
    assert(d.subrange(16, 24) =~= le_bytes(e.command.len() as u64));
    assert(d.subrange(HEADER_LEN as int, record_len(d)) =~= e.command);
}

/// Appends the eight little-endian bytes of `n` to `buf`.
fn push_le_u64(buf: &mut Vec<u8>, n: u64)
    ensures
        final(buf)@ == old(buf)@ + le_bytes(n),
{
    let b = le_u64_bytes(n);
    let ghost start = buf@;
    let mut i: usize = 0;
    while i < FIELD_LEN
        invariant
            0 <= i <= 8,
            b@ == le_bytes(n),
            buf@ == start + b@.subrange(0, i as int),
        decreases 8 - i,
    {
        buf.push(b[i]);
        i = i + 1;
        assert(b@.subrange(0, i as int) =~= b@.subrange(0, i - 1) + seq![b@[i - 1]]);
    }
    assert(b@.subrange(0, 8) =~= b@);
}

impl LogEntry {
    /// The record that stores this entry.
    pub fn encode(&self) -> (r: bytes::Bytes)
        ensures
            bytes_contents(r) == encode_entry(self@),
            valid_entry(self@),
    {
        let command = bytes_as_slice(&self.command);
        let mut buf: Vec<u8> = Vec::new();
        push_le_u64(&mut buf, self.index);
        push_le_u64(&mut buf, self.term);
        push_le_u64(&mut buf, command.len() as u64);
        let ghost before = buf@;
        buf.extend_from_slice(command);
        assert(buf@ =~= before + command@);
        bytes_from_vec(buf)
    }

    /// Reads the record at the front of `data`: the entry and the number of
    /// bytes that its record takes. Fewer bytes than a header is the clean
    /// end of the log; a header whose command bytes are cut short is
    /// corruption.
    pub fn decode(data: &[u8]) -> (r: Result<(LogEntry, usize), LogError>)
        ensures
            match r {
                Ok((e, n)) => has_record(data@) && e@ == front_entry(data@) && n == record_len(
                    data@,
                ),
                Err(LogError::UnexpectedEof) => data@.len() < HEADER_LEN,
                Err(LogError::Corrupt) => data@.len() >= HEADER_LEN && !has_record(data@),
                Err(LogError::NotSequential) => false,
            },
    {
        if data.len() < HEADER_LEN {
            return Err(LogError::UnexpectedEof);
        }
        let index = read_le_u64(vstd::slice::slice_subrange(data, 0, 8));
        let term = read_le_u64(vstd::slice::slice_subrange(data, 8, 16));
        let command_len = read_le_u64(vstd::slice::slice_subrange(data, 16, 24));
        if ((data.len() - HEADER_LEN) as u64) < command_len {
            return Err(LogError::Corrupt);
        }
        let end = HEADER_LEN + command_len as usize;
        let command = vstd::slice::slice_to_vec(vstd::slice::slice_subrange(data, HEADER_LEN, end));
        let entry = LogEntry { index, term, command: bytes_from_vec(command) };
        Ok((entry, end))
    }
}

} // verus!
