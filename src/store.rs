//! The log store's logic over the contents of its file: the recovery scan
//! that finds the last index, full replay, and the cursor that appends move.
use vstd::prelude::*;

use crate::entry::{
    encode_entry, front_entry, has_record, lemma_decode_encoded, record_len, valid_entry,
    EntryModel, LogEntry, LogError, HEADER_LEN,
};

verus! {

/// The bytes of `d` after the complete record at its front.
pub open spec fn after_record(d: Seq<u8>) -> Seq<u8> {
    d.subrange(record_len(d), d.len() as int)
}

/// The entries of a log file read front to back, up to the clean end: fewer
/// bytes than a header. A record whose command bytes are cut short is corruption.
pub open spec fn replay_log(d: Seq<u8>) -> Result<Seq<EntryModel>, LogError>
    decreases d.len(),
{
    if d.len() < HEADER_LEN {
        Ok(Seq::empty())
    } else if !has_record(d) {
        Err(LogError::Corrupt)
    } else {
        match replay_log(after_record(d)) {
            Ok(rest) => Ok(seq![front_entry(d)] + rest),
            Err(e) => Err(e),
        }
    }
}

/// The recovery scan of `d` after an entry of index `last`: the index of the
/// last entry, where each entry's index is one more than the one before it;
/// the first fault met in reading order otherwise.
pub open spec fn scan_log(d: Seq<u8>, last: u64) -> Result<u64, LogError>
    decreases d.len(),
{
    if d.len() < HEADER_LEN {
        Ok(last)
    } else if !has_record(d) {
        Err(LogError::Corrupt)
    } else if front_entry(d).index != last + 1 {
        Err(LogError::NotSequential)
    } else {
        scan_log(after_record(d), front_entry(d).index)
    }
}

/// `pre` followed by what `r` holds, or `r`'s error.
pub open spec fn prepend(pre: Seq<EntryModel>, r: Result<Seq<EntryModel>, LogError>) -> Result<
    Seq<EntryModel>,
    LogError,
> {
    match r {
        Ok(s) => Ok(pre + s),
        Err(e) => Err(e),
    }
}

/// The values of a sequence of entries.
pub open spec fn entries_view(v: Seq<LogEntry>) -> Seq<EntryModel> {
    v.map_values(|e: LogEntry| e@)
}

/// The bytes of a log file holding the records of `es`, in order.
pub open spec fn encode_log(es: Seq<EntryModel>) -> Seq<u8>
    decreases es.len(),
{
    if es.len() == 0 {
        Seq::empty()
    } else {
        encode_entry(es[0]) + encode_log(es.drop_first())
    }
}

/// Every entry of `es` can be written.
pub open spec fn all_valid(es: Seq<EntryModel>) -> bool {
    forall|i: int| 0 <= i < es.len() ==> valid_entry(#[trigger] es[i])
}

/// The indices of `es` run `k + 1, k + 2, ...` without gaps.
pub open spec fn follows(es: Seq<EntryModel>, k: int) -> bool {
    forall|i: int| 0 <= i < es.len() ==> #[trigger] es[i].index == k + i + 1
}

proof fn lemma_front_of_encoded(es: Seq<EntryModel>)
    requires
        es.len() > 0,
        all_valid(es),
    ensures
        encode_log(es).len() >= HEADER_LEN,
        has_record(encode_log(es)),
        front_entry(encode_log(es)) == es[0],
        after_record(encode_log(es)) == encode_log(es.drop_first()),
{
    let d = encode_log(es);
    let first = encode_entry(es[0]);
    let rest = encode_log(es.drop_first());
    lemma_decode_encoded(es[0], rest);
    assert(d == first + rest);
    assert(after_record(d) =~= rest);
}

/// A file made of the records of `es` replays as exactly `es`.
pub proof fn lemma_replay_encoded(es: Seq<EntryModel>)
    requires
        all_valid(es),
    ensures
        replay_log(encode_log(es)) == Ok::<Seq<EntryModel>, LogError>(es),
    decreases es.len(),
{
    if es.len() > 0 {
        lemma_front_of_encoded(es);
        let rest = es.drop_first();
        assert(all_valid(rest)) by {
            assert forall|i: int| 0 <= i < rest.len() implies valid_entry(#[trigger] rest[i]) by {
                assert(rest[i] == es[i + 1]);
            }
        }
        lemma_replay_encoded(rest);
        let d = encode_log(es);
        assert(replay_log(after_record(d)) == Ok::<Seq<EntryModel>, LogError>(rest));
        assert(replay_log(d) == Ok::<Seq<EntryModel>, LogError>(seq![front_entry(d)] + rest));
        assert(seq![es[0]] + rest =~= es);
    } else {
        assert(encode_log(es) =~= Seq::empty());
        assert(es =~= Seq::empty());
    }
}

/// The recovery scan of a file made of the records of `es`, after index `k`,
/// finds `k + es.len()` when the indices follow on without gaps, and reports
/// a sequencing fault otherwise.
pub proof fn lemma_scan_encoded(es: Seq<EntryModel>, k: u64)
    requires
        all_valid(es),
    ensures
        follows(es, k as int) ==> scan_log(encode_log(es), k) == Ok::<u64, LogError>(
            (k + es.len()) as u64,
        ),
        !follows(es, k as int) ==> scan_log(encode_log(es), k) == Err::<u64, LogError>(
            LogError::NotSequential,
        ),
    decreases es.len(),
{
    if es.len() > 0 {
        lemma_front_of_encoded(es);
        let rest = es.drop_first();
        assert(all_valid(rest)) by {
            assert forall|i: int| 0 <= i < rest.len() implies valid_entry(#[trigger] rest[i]) by {
                assert(rest[i] == es[i + 1]);
            }
        }
        if es[0].index == k + 1 {
            lemma_scan_encoded(rest, es[0].index);
            if follows(es, k as int) {
                assert forall|i: int| 0 <= i < rest.len() implies #[trigger] rest[i].index == (k
                    + 1) + i + 1 by {
                    assert(rest[i] == es[i + 1]);
                }
            } else {
                let j = choose|j: int| 0 <= j < es.len() && es[j].index != k + j + 1;
                assert(rest[j - 1] == es[j]);
            }
        } else {
            assert(!follows(es, k as int)) by {
                assert(es[0].index != k + 0 + 1);
            }
        }
    } else {
        assert(encode_log(es) =~= Seq::empty());
    }
}

/// Appending a record to a file of records gives the file of the longer log.
pub proof fn lemma_encode_push(es: Seq<EntryModel>, e: EntryModel)
    ensures
        encode_log(es.push(e)) == encode_log(es) + encode_entry(e),
    decreases es.len(),
{
    if es.len() == 0 {
        assert(es.push(e).drop_first() =~= Seq::empty());
        assert(encode_log(Seq::<EntryModel>::empty()) =~= Seq::empty());
        assert(encode_log(es.push(e)) =~= encode_log(es) + encode_entry(e));
    } else {
        assert(es.push(e).drop_first() =~= es.drop_first().push(e));
        lemma_encode_push(es.drop_first(), e);
        assert(encode_log(es.push(e)) =~= encode_log(es) + encode_entry(e));
    }
}

/// An empty log file recovers with last index 0 and replays as no entries.
pub proof fn lemma_empty_log()
    ensures
        scan_log(Seq::empty(), 0) == Ok::<u64, LogError>(0),
        replay_log(Seq::empty()) == Ok::<Seq<EntryModel>, LogError>(Seq::empty()),
{
}

/// A file holding the records of entries indexed 1 to N, in order, recovers
/// with last index N and replays as exactly those entries, fields unchanged;
/// so does every later reading of the same file.
pub proof fn lemma_sequential_log_recovers(es: Seq<EntryModel>)
    requires
        all_valid(es),
        follows(es, 0),
    ensures
        scan_log(encode_log(es), 0) == Ok::<u64, LogError>(es.len() as u64),
        replay_log(encode_log(es)) == Ok::<Seq<EntryModel>, LogError>(es),
{
    lemma_scan_encoded(es, 0);
    lemma_replay_encoded(es);
}

/// Appending the record of the entry that follows on to a file of sequential
/// records gives a file that recovers with that entry's index as the last
/// one, and replays as the longer log.
pub proof fn lemma_append_extends_log(es: Seq<EntryModel>, e: EntryModel)
    requires
        all_valid(es),
        valid_entry(e),
        follows(es, 0),
        e.index == es.len() + 1,
    ensures
        scan_log(encode_log(es) + encode_entry(e), 0) == Ok::<u64, LogError>(e.index),
        replay_log(encode_log(es) + encode_entry(e)) == Ok::<Seq<EntryModel>, LogError>(
            es.push(e),
        ),
{
    let longer = es.push(e);
    lemma_encode_push(es, e);
    assert(all_valid(longer)) by {
        assert forall|i: int| 0 <= i < longer.len() implies valid_entry(#[trigger] longer[i]) by {
            if i < es.len() {
                assert(longer[i] == es[i]);
            }
        }
    }
    assert(follows(longer, 0)) by {
        assert forall|i: int| 0 <= i < longer.len() implies #[trigger] longer[i].index == 0 + i
            + 1 by {
            if i < es.len() {
                assert(longer[i] == es[i]);
            }
        }
    }
    lemma_sequential_log_recovers(longer);
}

/// Replay depends on the file's contents alone: reading an unchanged file
/// again gives the same entries, or the same fault.
pub proof fn lemma_replay_repeatable(first: Seq<u8>, second: Seq<u8>)
    requires
        first == second,
    ensures
        replay_log(first) == replay_log(second),
{
}

/// The log store's in-memory state: the index of the last entry accepted,
/// 0 for an empty log.
#[derive(Debug)]
pub struct Wal {
    last_index: u64,
}

impl View for Wal {
    type V = u64;

    closed spec fn view(&self) -> u64 {
        self.last_index
    }
}

impl Wal {
    /// Recovers the store from the contents of its log file: the cursor is
    /// the index of the last entry, when the scan finds no fault.
    pub fn new(contents: &[u8]) -> (r: Result<Wal, LogError>)
        ensures
            match r {
                Ok(w) => scan_log(contents@, 0) == Ok::<u64, LogError>(w@),
                Err(e) => scan_log(contents@, 0) == Err::<u64, LogError>(e),
            },
    {
        match Self::scan_last_index(contents) {
            Ok(last_index) => Ok(Wal { last_index }),
            Err(e) => Err(e),
        }
    }

    /// The recovery scan: reads the records of `contents` front to back up
    /// to the clean end, checking that the indices run 1, 2, 3, ...
    pub fn scan_last_index(contents: &[u8]) -> (r: Result<u64, LogError>)
        ensures
            r == scan_log(contents@, 0),
    {
        let mut last_index: u64 = 0;
        let mut pos: usize = 0;
        assert(contents@.subrange(0, contents@.len() as int) =~= contents@);
        loop
            invariant
                pos <= contents@.len(),
                scan_log(contents@, 0) == scan_log(
                    contents@.subrange(pos as int, contents@.len() as int),
                    last_index,
                ),
            decreases contents@.len() - pos,
        {
            let rest = vstd::slice::slice_subrange(contents, pos, contents.len());
            match LogEntry::decode(rest) {
                Ok((entry, n)) => {
                    if last_index == u64::MAX || entry.index != last_index + 1 {
                        return Err(LogError::NotSequential);
                    }
                    assert(after_record(rest@) =~= contents@.subrange(
                        pos + n,
                        contents@.len() as int,
                    ));
                    last_index = entry.index;
                    pos = pos + n;
                },
                Err(LogError::UnexpectedEof) => {
                    return Ok(last_index);
                },
                Err(e) => {
                    return Err(e);
                },
            }
        }
    }

    /// The index of the last entry accepted.
    pub fn last_index(&self) -> (r: u64)
        ensures
            r == self@,
    {
        self.last_index
    }

    /// Records that `entry` has been durably written: the cursor moves to its
    /// index. The store does not check that the index follows the last one.
    pub fn append(&mut self, entry: &LogEntry)
        ensures
            final(self)@ == entry.index,
    {
        self.last_index = entry.index;
    }

    /// Every entry of the log file `contents`, front to back, up to the clean end.
    pub fn replay(contents: &[u8]) -> (r: Result<Vec<LogEntry>, LogError>)
        ensures
            match r {
                Ok(v) => replay_log(contents@) == Ok::<Seq<EntryModel>, LogError>(
                    entries_view(v@),
                ),
                Err(e) => replay_log(contents@) == Err::<Seq<EntryModel>, LogError>(e),
            },
    {
        let mut entries: Vec<LogEntry> = Vec::new();
        let mut pos: usize = 0;
        assert(contents@.subrange(0, contents@.len() as int) =~= contents@);
        assert(entries_view(entries@) =~= Seq::empty());
        proof {
            if let Ok(all) = replay_log(contents@) {
                assert(Seq::<EntryModel>::empty() + all =~= all);
            }
        }
        loop
            invariant
                pos <= contents@.len(),
                replay_log(contents@) == prepend(
                    entries_view(entries@),
                    replay_log(contents@.subrange(pos as int, contents@.len() as int)),
                ),
            decreases contents@.len() - pos,
        {
            let rest = vstd::slice::slice_subrange(contents, pos, contents.len());
            match LogEntry::decode(rest) {
                Ok((entry, n)) => {
                    assert(after_record(rest@) =~= contents@.subrange(
                        pos + n,
                        contents@.len() as int,
                    ));
                    let ghost before = entries_view(entries@);
                    entries.push(entry);
                    assert(entries_view(entries@) =~= before + seq![front_entry(rest@)]);
                    proof {
                        match replay_log(after_record(rest@)) {
                            Ok(tail) => {
                                assert(before + seq![front_entry(rest@)] + tail =~= before + (
                                seq![front_entry(rest@)] + tail));
                            },
                            Err(_) => {},
                        }
                    }
                    pos = pos + n;
                },
                Err(LogError::UnexpectedEof) => {
                    assert(entries_view(entries@) + Seq::empty() =~= entries_view(entries@));
                    return Ok(entries);
                },
                Err(e) => {
                    return Err(e);
                },
            }
        }
    }
}

} // verus!
