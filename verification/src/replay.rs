//! Recovery: rebuilding the keydir from the segments of a data directory.
//!
//! A segment is read line by line. Every line before the first empty one is
//! a record; a write sets the key's entry unless the index already holds a
//! record of the key that is as late or later, and a tombstone drops the key.

use vstd::prelude::*;
use vstd::slice::slice_subrange;
use vstd::utf8::encode_utf8;
use crate::json::NEWLINE;
use crate::keydir::Keydir;
use crate::keydir::KeydirVal;
use crate::keydir::KeydirValView;
use crate::record::decoded;
use crate::record::json_fields;
use crate::record::DecodeError;
use crate::record::Pair;
use crate::record::PairView;

verus! {

/// A segment file as it was read: its name in the data directory and its
/// whole content.
#[derive(Debug)]
pub struct Segment {
    pub name: String,
    pub content: String,
}

/// A segment as mathematical values: its name and its bytes.
pub struct SegmentView {
    pub name: Seq<char>,
    pub bytes: Seq<u8>,
}

impl View for Segment {
    type V = SegmentView;

    open spec fn view(&self) -> SegmentView {
        SegmentView { name: self.name@, bytes: encode_utf8(self.content@) }
    }
}

/// The views of a list of segments.
pub open spec fn segment_views(segments: Seq<Segment>) -> Seq<SegmentView> {
    Seq::new(segments.len(), |i: int| segments[i]@)
}

/// A record of the log together with the place where it lies.
pub struct LogRecord {
    pub pair: PairView,
    pub place: KeydirValView,
}

/// The record `pair` lying at `len` bytes from offset `pos` of the segment
/// `name`.
pub open spec fn record_at(pair: PairView, name: Seq<char>, pos: int, len: int) -> LogRecord {
    LogRecord {
        pair,
        place: KeydirValView {
            entry_size: len as usize,
            entry_pos: pos as u64,
            file_id: name,
            timestamp: pair.timestamp,
        },
    }
}

/// The index after one more record is replayed: a tombstone drops the key,
/// whatever the index holds for it; a write sets the key's entry if the index
/// holds none, or one with a strictly earlier timestamp.
pub open spec fn replayed(
    index: Map<Seq<char>, KeydirValView>,
    record: LogRecord,
) -> Map<Seq<char>, KeydirValView> {
    let key = record.pair.key;
    if record.pair.is_tombstone() {
        index.remove(key)
    } else if !index.contains_key(key) || record.pair.timestamp.later_than(index[key].timestamp) {
        index.insert(key, record.place)
    } else {
        index
    }
}

/// The index after the records are replayed in their order.
pub open spec fn replay(
    index: Map<Seq<char>, KeydirValView>,
    records: Seq<LogRecord>,
) -> Map<Seq<char>, KeydirValView>
    decreases records.len(),
{
    if records.len() == 0 {
        index
    } else {
        replay(replayed(index, records[0]), records.drop_first())
    }
}

/// The offset of the first newline at or after `from`, or the length of the
/// bytes if there is none.
pub open spec fn line_end(bytes: Seq<u8>, from: int) -> int
    decreases bytes.len() - from,
{
    if from >= bytes.len() {
        bytes.len() as int
    } else if bytes[from] == NEWLINE {
        from
    } else {
        line_end(bytes, from + 1)
    }
}

/// The records of a segment from offset `pos` on, up to the end or the first
/// empty line, each with its place; or the offset of the first line that is
/// no record.
pub open spec fn segment_records(name: Seq<char>, bytes: Seq<u8>, pos: int) -> Result<
    Seq<LogRecord>,
    int,
>
    decreases bytes.len() - pos,
{
    let end = line_end(bytes, pos);
    if pos < 0 || pos >= bytes.len() || end <= pos {
        Ok(Seq::empty())
    } else {
        match decoded(bytes.subrange(pos, end)) {
            None => Err(pos),
            Some(pair) => {
                let after = if end < bytes.len() {
                    segment_records(name, bytes, end + 1)
                } else {
                    Ok(Seq::empty())
                };
                match after {
                    Ok(rest) => Ok(seq![record_at(pair, name, pos, end - pos)] + rest),
                    Err(offset) => Err(offset),
                }
            },
        }
    }
}

/// The records of the segments from the one at `from` on, in the order of
/// the list; or the place of the first line that is no record, as the number
/// of its segment and its offset there.
pub open spec fn all_records(segments: Seq<SegmentView>, from: int) -> Result<
    Seq<LogRecord>,
    (int, int),
>
    decreases segments.len() - from,
{
    if from < 0 || from >= segments.len() {
        Ok(Seq::empty())
    } else {
        match segment_records(segments[from].name, segments[from].bytes, 0) {
            Err(offset) => Err((from, offset)),
            Ok(records) => match all_records(segments, from + 1) {
                Ok(rest) => Ok(records + rest),
                Err(place) => Err(place),
            },
        }
    }
}

/// Why a line is no record.
pub open spec fn decode_failure(line: Seq<u8>) -> DecodeError {
    if json_fields(line) is None {
        DecodeError::Malformed
    } else {
        DecodeError::OutOfRange
    }
}

/// A segment holds a line that is no record.
#[derive(Clone, Copy, Debug, PartialEq, Eq, Structural)]
pub struct OpenError {
    /// The place of the segment in the list that was given.
    pub segment: usize,
    /// The offset of the line in the segment.
    pub offset: u64,
    /// What is wrong with the line.
    pub cause: DecodeError,
}

/// Replaying one record after others is one more step.
pub proof fn lemma_replay_push(
    index: Map<Seq<char>, KeydirValView>,
    records: Seq<LogRecord>,
    last: LogRecord,
)
    ensures
        replay(index, records.push(last)) == replayed(replay(index, records), last),
    decreases records.len(),
{
    let longer = records.push(last);
    if records.len() == 0 {
        assert(longer[0] == last);
        assert(longer.drop_first() == Seq::<LogRecord>::empty());
        assert(replay(replayed(index, last), longer.drop_first()) == replayed(index, last));
    } else {
        assert(longer[0] == records[0]);
        assert(longer.drop_first() == records.drop_first().push(last));
        lemma_replay_push(replayed(index, records[0]), records.drop_first(), last);
    }
}

/// Replaying two runs of records one after the other is replaying them
/// joined.
pub proof fn lemma_replay_concat(
    index: Map<Seq<char>, KeydirValView>,
    first: Seq<LogRecord>,
    second: Seq<LogRecord>,
)
    ensures
        replay(index, first + second) == replay(replay(index, first), second),
    decreases first.len(),
{
    if first.len() == 0 {
        assert(first + second == second);
    } else {
        assert((first + second).drop_first() == first.drop_first() + second);
        lemma_replay_concat(replayed(index, first[0]), first.drop_first(), second);
    }
}

/// A line ends at or after its start, and within the bytes.
pub proof fn lemma_line_end_bounds(bytes: Seq<u8>, from: int)
    requires
        0 <= from <= bytes.len(),
    ensures
        from <= line_end(bytes, from) <= bytes.len(),
        line_end(bytes, from) < bytes.len() ==> bytes[line_end(bytes, from)] == NEWLINE,
        forall|k: int| from <= k < line_end(bytes, from) ==> bytes[k] != NEWLINE,
    decreases bytes.len() - from,
{
    if from < bytes.len() && bytes[from] != NEWLINE {
        lemma_line_end_bounds(bytes, from + 1);
    }
}

/// The offset at which the line that starts at `from` ends.
fn find_line_end(bytes: &[u8], from: usize) -> (end: usize)
    requires
        from <= bytes@.len(),
    ensures
        end == line_end(bytes@, from as int),
        from <= end <= bytes@.len(),
{
    let mut end: usize = from;
    while end < bytes.len() && bytes[end] != NEWLINE
        invariant
            from <= end <= bytes@.len(),
            line_end(bytes@, from as int) == line_end(bytes@, end as int),
        decreases bytes@.len() - end,
    {
        end += 1;
    }
    end
}

/// Replays one record into the index.
pub fn replay_record(keydir: &mut Keydir, pair: &Pair, name: &str, pos: u64, len: usize)
    requires
        old(keydir).wf(),
    ensures
        final(keydir).wf(),
        final(keydir)@ == replayed(old(keydir)@, record_at(pair@, name@, pos as int, len as int)),
{
    if pair.is_tombstone() {
        keydir.remove(pair.key.as_str());
        return ;
    }
    let newer: bool = match keydir.lookup(pair.key.as_str()) {
        None => true,
        Some(held) => pair.timestamp.is_after(&held.timestamp),
    };
    if newer {
        keydir.insert(
            pair.key.as_str(),
            KeydirVal {
                entry_size: len,
                entry_pos: pos,
                file_id: name.to_owned(),
                timestamp: pair.timestamp,
            },
        );
    }
}

/// Replays the records of one segment into the index. On a line that is no
/// record it stops and reports the line's offset and what is wrong with it.
fn replay_segment(keydir: &mut Keydir, segment: &Segment) -> (res: Result<
    (),
    (u64, DecodeError),
>)
    requires
        old(keydir).wf(),
    ensures
        final(keydir).wf(),
        match res {
            Ok(_) => {
                &&& segment_records(segment@.name, segment@.bytes, 0) is Ok
                &&& final(keydir)@ == replay(
                    old(keydir)@,
                    segment_records(segment@.name, segment@.bytes, 0)->Ok_0,
                )
            },
            Err((offset, cause)) => {
                &&& segment_records(segment@.name, segment@.bytes, 0) == Err::<
                    Seq<LogRecord>,
                    int,
                >(offset as int)
                &&& cause == decode_failure(
                    segment@.bytes.subrange(
                        offset as int,
                        line_end(segment@.bytes, offset as int),
                    ),
                )
            },
        },
{
    let bytes = segment.content.as_str().as_bytes();
    let name = segment.name.as_str();
    let ghost whole = segment_records(name@, bytes@, 0);
    let ghost done: Seq<LogRecord> = Seq::empty();
    let mut pos: usize = 0;
    assert(done + Seq::<LogRecord>::empty() == Seq::<LogRecord>::empty());
    loop
        invariant
            pos <= bytes@.len(),
            bytes@ == segment@.bytes,
            name@ == segment@.name,
            whole == segment_records(name@, bytes@, 0),
            keydir.wf(),
            keydir@ == replay(old(keydir)@, done),
            match segment_records(name@, bytes@, pos as int) {
                Ok(rest) => whole == Ok::<Seq<LogRecord>, int>(done + rest),
                Err(offset) => whole == Err::<Seq<LogRecord>, int>(offset),
            },
        decreases bytes@.len() - pos,
    {
        if pos >= bytes.len() {
            assert(done + Seq::<LogRecord>::empty() == done);
            return Ok(());
        }
        let end = find_line_end(bytes, pos);
        if end == pos {
            assert(done + Seq::<LogRecord>::empty() == done);
            return Ok(());
        }
        let line = slice_subrange(bytes, pos, end);
        let pair = match Pair::decode(line) {
            Ok(pair) => pair,
            Err(cause) => {
                return Err((pos as u64, cause));
            },
        };
        replay_record(keydir, &pair, name, pos as u64, end - pos);
        proof {
            let record = record_at(pair@, name@, pos as int, end - pos);
            lemma_replay_push(old(keydir)@, done, record);
            lemma_line_end_bounds(bytes@, pos as int);
            if end < bytes@.len() {
                match segment_records(name@, bytes@, end + 1) {
                    Ok(rest) => {
                        assert(done.push(record) + rest == done + (seq![record] + rest));
                    },
                    Err(_) => {},
                }
            } else {
                assert(done.push(record) == done + (seq![record] + Seq::<LogRecord>::empty()));
            }
            done = done.push(record);
        }
        if end == bytes.len() {
            assert(done + Seq::<LogRecord>::empty() == done);
            return Ok(());
        }
        pos = end + 1;
    }
}

/// Rebuilds the keydir from the segments of a data directory, replayed in the
/// order of the list. Fails on the first line that is no record.
pub fn build_keydir(segments: &Vec<Segment>) -> (res: Result<Keydir, OpenError>)
    ensures
        match res {
            Ok(keydir) => {
                &&& keydir.wf()
                &&& all_records(segment_views(segments@), 0) is Ok
                &&& keydir@ == replay(Map::empty(), all_records(segment_views(segments@), 0)->Ok_0)
            },
            Err(error) => {
                &&& all_records(segment_views(segments@), 0) == Err::<Seq<LogRecord>, (int, int)>(
                    (error.segment as int, error.offset as int),
                )
                &&& error.segment < segments@.len()
                &&& error.cause == decode_failure(
                    segments@[error.segment as int]@.bytes.subrange(
                        error.offset as int,
                        line_end(segments@[error.segment as int]@.bytes, error.offset as int),
                    ),
                )
            },
        },
{
    let ghost views = segment_views(segments@);
    let ghost whole = all_records(views, 0);
    let ghost seen: Seq<LogRecord> = Seq::empty();
    let mut keydir = Keydir::new();
    let mut i: usize = 0;
    assert(seen + Seq::<LogRecord>::empty() == Seq::<LogRecord>::empty());
    while i < segments.len()
        invariant
            i <= segments@.len(),
            views == segment_views(segments@),
            whole == all_records(views, 0),
            keydir.wf(),
            keydir@ == replay(Map::empty(), seen),
            match all_records(views, i as int) {
                Ok(rest) => whole == Ok::<Seq<LogRecord>, (int, int)>(seen + rest),
                Err(place) => whole == Err::<Seq<LogRecord>, (int, int)>(place),
            },
        decreases segments@.len() - i,
    {
        let ghost before = keydir@;
        assert(views[i as int] == segments@[i as int]@);
        match replay_segment(&mut keydir, &segments[i]) {
            Ok(_) => {
                proof {
                    let records = segment_records(views[i as int].name, views[i as int].bytes, 0)->Ok_0;
                    lemma_replay_concat(Map::empty(), seen, records);
                    match all_records(views, i + 1) {
                        Ok(rest) => {
                            assert((seen + records) + rest == seen + (records + rest));
                        },
                        Err(_) => {},
                    }
                    seen = seen + records;
                }
            },
            Err((offset, cause)) => {
                return Err(OpenError { segment: i, offset, cause });
            },
        }
        i += 1;
    }
    assert(seen + Seq::<LogRecord>::empty() == seen);
    Ok(keydir)
}

} // verus!
