//! The engine: what `put`, `remove`, `get` and `list_keys` decide.
//!
//! The engine owns the keydir and the write offset of the active segment. It
//! performs no I/O. `put` and `remove` return an [`Append`] that says what to
//! write, and whether to rotate first; once the bytes are in the segment the
//! caller hands the `Append` to [`Bitcask::commit`], which updates the keydir.
//! `get` returns the place to read, and [`Bitcask::value_of`] reads the value
//! out of the bytes found there.

use vstd::prelude::*;
use vstd::string::StringExecFns;
use crate::keydir::moved_entries;
use crate::keydir::Keydir;
use crate::keydir::KeydirVal;
use crate::keydir::KeydirValView;
use crate::record::decoded;
use crate::record::reads_back;
use crate::record::record_bytes;
use crate::record::DecodeError;
use crate::record::Pair;
use crate::record::PairView;
use crate::record::TOMBSTONE_VALUE;
use crate::replay::all_records;
use crate::replay::build_keydir;
use crate::replay::decode_failure;
use crate::replay::line_end;
use crate::replay::replay;
use crate::replay::segment_views;
use crate::replay::LogRecord;
use crate::replay::OpenError;
use crate::replay::Segment;
use crate::replay::SegmentView;
use crate::text::same_text;
use crate::text::texts;
use crate::timestamp::Timestamp;

verus! {

/// The size that the active segment may not reach: a write that would take
/// it there goes to a fresh segment.
pub const MAX_BYTE_SIZE: u64 = 5_242_880;

/// The name of the active segment in the data directory.
pub const ACTIVE_SEGMENT: &'static str = "activelog.btk";

/// The ending of the name of an archived segment.
pub const SEGMENT_SUFFIX: &'static str = ".btk";

/// The length of the identifier in the name of an archived segment.
pub const SEGMENT_ID_LEN: usize = 26;

/// One append to the log, to be performed by the caller: if `archive` holds
/// a name, first copy the active segment to a segment of that name and empty
/// the active segment; then append `line` and a newline to the active
/// segment.
#[derive(Debug)]
pub struct Append {
    /// The key that the record is about.
    pub key: String,
    /// The record, without the newline that ends it.
    pub line: Vec<u8>,
    /// The name of the segment to archive the active segment under.
    pub archive: Option<String>,
    /// Where the record lies once it is written.
    pub entry: KeydirVal,
    /// Whether the record deletes the key.
    pub deletes: bool,
}

/// An append as mathematical values.
pub struct AppendView {
    pub key: Seq<char>,
    pub line: Seq<u8>,
    pub archive: Option<Seq<char>>,
    pub entry: KeydirValView,
    pub deletes: bool,
}

impl View for Append {
    type V = AppendView;

    open spec fn view(&self) -> AppendView {
        AppendView {
            key: self.key@,
            line: self.line@,
            archive: match self.archive {
                Some(name) => Some(name@),
                None => None,
            },
            entry: self.entry@,
            deletes: self.deletes,
        }
    }
}

/// The state of an engine: the write offset of the active segment and the
/// keydir.
pub struct BitcaskView {
    pub offset: u64,
    pub index: Map<Seq<char>, KeydirValView>,
}

/// The offset at which the next record is written: the later of the stream
/// position of the active segment and the engine's own offset.
pub open spec fn write_position(offset: u64, cursor: u64) -> u64 {
    if cursor >= offset {
        cursor
    } else {
        offset
    }
}

/// A record of `len` bytes written at `pos` would take the active segment to
/// its size limit.
pub open spec fn rotates(pos: u64, len: nat) -> bool {
    pos + len >= MAX_BYTE_SIZE
}

/// The name of the archived segment with the identifier `id`.
pub open spec fn archive_name(id: Seq<char>) -> Seq<char> {
    id + SEGMENT_SUFFIX@
}

/// The append that writes `line` for `key`: at the write position, or at the
/// start of a fresh active segment when the line would take the segment to
/// its limit, the old one being archived under the identifier `id`.
pub open spec fn planned(
    state: BitcaskView,
    key: Seq<char>,
    line: Seq<u8>,
    timestamp: Timestamp,
    deletes: bool,
    cursor: u64,
    id: Seq<char>,
) -> AppendView {
    let pos = write_position(state.offset, cursor);
    let rotate = rotates(pos, line.len());
    AppendView {
        key,
        line,
        archive: if rotate {
            Some(archive_name(id))
        } else {
            None
        },
        entry: KeydirValView {
            entry_size: line.len() as usize,
            entry_pos: if rotate {
                0
            } else {
                pos
            },
            file_id: ACTIVE_SEGMENT@,
            timestamp,
        },
        deletes,
    }
}

/// The append is the one planned for the record `pair`, with some
/// identifier at hand for the archive.
pub open spec fn planned_write(
    state: BitcaskView,
    pair: PairView,
    deletes: bool,
    cursor: u64,
    append: AppendView,
) -> bool {
    exists|id: Seq<char>|
        id.len() == SEGMENT_ID_LEN && append == #[trigger] planned(
            state,
            pair.key,
            record_bytes(pair),
            pair.timestamp,
            deletes,
            cursor,
            id,
        )
}

/// The append is one that `put` gives for `key` and `value`: planned for
/// their record at some time, the line of which decodes to the record again.
pub open spec fn put_planned(
    state: BitcaskView,
    key: Seq<char>,
    value: Seq<char>,
    cursor: u64,
    append: AppendView,
) -> bool {
    exists|timestamp: Timestamp|
        timestamp.wf() && reads_back(PairView::of(key, value, timestamp)) && #[trigger] planned_write(
            state,
            PairView::of(key, value, timestamp),
            false,
            cursor,
            append,
        )
}

/// The append is one that `remove` gives for `key`: planned for its
/// tombstone at some time, the line of which decodes to the tombstone again.
pub open spec fn remove_planned(
    state: BitcaskView,
    key: Seq<char>,
    cursor: u64,
    append: AppendView,
) -> bool {
    exists|timestamp: Timestamp|
        timestamp.wf() && reads_back(PairView::of(key, TOMBSTONE_VALUE@, timestamp))
            && #[trigger] planned_write(
            state,
            PairView::of(key, TOMBSTONE_VALUE@, timestamp),
            true,
            cursor,
            append,
        )
}

/// The offset just after a record and its newline, held at the largest
/// offset there is.
pub open spec fn offset_after(entry: KeydirValView) -> u64 {
    if entry.entry_pos + entry.entry_size + 1 <= u64::MAX {
        (entry.entry_pos + entry.entry_size + 1) as u64
    } else {
        u64::MAX
    }
}

/// The state after an append has been performed: on a rotation every entry
/// of the active segment moves to the archived segment; then the key's entry
/// is set, or dropped for a deletion; and the write offset stands after the
/// record.
pub open spec fn committed(state: BitcaskView, append: AppendView) -> BitcaskView {
    let index = match append.archive {
        Some(name) => moved_entries(state.index, ACTIVE_SEGMENT@, name),
        None => state.index,
    };
    BitcaskView {
        offset: offset_after(append.entry),
        index: if append.deletes {
            index.remove(append.key)
        } else {
            index.insert(append.key, append.entry)
        },
    }
}

/// The length of the first segment of the list that is the active one, or
/// zero if there is none.
pub open spec fn active_length(segments: Seq<SegmentView>, from: int) -> nat
    decreases segments.len() - from,
{
    if from < 0 || from >= segments.len() {
        0
    } else if segments[from].name == ACTIVE_SEGMENT@ {
        segments[from].bytes.len()
    } else {
        active_length(segments, from + 1)
    }
}

/// Why a `put` gave no append.
#[derive(Clone, Copy, Debug, PartialEq, Eq, Structural)]
pub enum WriteError {
    /// The system clock stands before the Unix epoch.
    Clock,
    /// The line of the record does not decode to the record again.
    Encode,
}

/// Why a `remove` gave no append.
#[derive(Clone, Copy, Debug, PartialEq, Eq, Structural)]
pub enum RemoveError {
    /// The key is not in the keydir.
    NotFound,
    /// The tombstone could not be written.
    Write(WriteError),
}

/// The bytes that the keydir points to are no record.
#[derive(Clone, Copy, Debug, PartialEq, Eq, Structural)]
pub struct ReadError {
    /// What is wrong with the bytes.
    pub cause: DecodeError,
}

/// `Ulid::new` followed by `Ulid::to_string`: a new identifier from the
/// clock and the random generator, as text. Whatever it is, the text has 26
/// characters.
#[verifier::external_body]
pub(crate) fn new_segment_id() -> (id: String)
    ensures
        id@.len() == SEGMENT_ID_LEN,
{
    ulid::Ulid::new().to_string()
}

/// The length of the active segment among `segments`, or zero if it is not
/// among them.
pub fn active_offset(segments: &Vec<Segment>) -> (offset: u64)
    ensures
        offset == active_length(segment_views(segments@), 0),
{
    let mut i: usize = 0;
    while i < segments.len()
        invariant
            i <= segments@.len(),
            active_length(segment_views(segments@), 0) == active_length(
                segment_views(segments@),
                i as int,
            ),
        decreases segments@.len() - i,
    {
        assert(segment_views(segments@)[i as int] == segments@[i as int]@);
        if same_text(segments[i].name.as_str(), ACTIVE_SEGMENT) {
            return segments[i].content.as_str().as_bytes().len() as u64;
        }
        i += 1;
    }
    0
}

/// The names among `names` that are not the active segment's, in their
/// order: the segments that a merge would coalesce.
pub open spec fn archived(names: Seq<Seq<char>>) -> Seq<Seq<char>>
    decreases names.len(),
{
    if names.len() == 0 {
        Seq::empty()
    } else if names.last() == ACTIVE_SEGMENT@ {
        archived(names.drop_last())
    } else {
        archived(names.drop_last()).push(names.last())
    }
}

/// The segments of a data directory that a merge would coalesce: all but
/// the active one.
pub fn mergeable(names: &Vec<String>) -> (res: Vec<String>)
    ensures
        texts(res@) == archived(texts(names@)),
{
    let ghost all = texts(names@);
    let mut res: Vec<String> = Vec::new();
    let mut i: usize = 0;
    assert(all.subrange(0, 0) == Seq::<Seq<char>>::empty());
    assert(texts(res@) == Seq::<Seq<char>>::empty());
    while i < names.len()
        invariant
            i <= names@.len(),
            all == texts(names@),
            texts(res@) == archived(all.subrange(0, i as int)),
        decreases names@.len() - i,
    {
        let ghost before = texts(res@);
        assert(all.subrange(0, i + 1).drop_last() == all.subrange(0, i as int));
        assert(all.subrange(0, i + 1).last() == names@[i as int]@);
        if !same_text(names[i].as_str(), ACTIVE_SEGMENT) {
            res.push(names[i].clone());
            assert(texts(res@) == before.push(names@[i as int]@));
        }
        i += 1;
    }
    assert(all.subrange(0, i as int) == all);
    res
}

/// The engine.
pub struct Bitcask {
    offset: u64,
    keydir: Keydir,
}

impl View for Bitcask {
    type V = BitcaskView;

    closed spec fn view(&self) -> BitcaskView {
        BitcaskView { offset: self.offset, index: self.keydir@ }
    }
}

impl Bitcask {
    /// The keydir is well formed.
    pub closed spec fn wf(&self) -> bool {
        self.keydir.wf()
    }

    /// Opens the engine on the segments of a data directory, the active one
    /// among them: the keydir is rebuilt by replaying the segments in the
    /// order of the list, and the write offset is the length of the active
    /// segment. Fails on the first line that is no record.
    pub fn open(segments: &Vec<Segment>) -> (res: Result<Bitcask, OpenError>)
        ensures
            match res {
                Ok(store) => {
                    &&& store.wf()
                    &&& all_records(segment_views(segments@), 0) is Ok
                    &&& store@.index == replay(
                        Map::empty(),
                        all_records(segment_views(segments@), 0)->Ok_0,
                    )
                    &&& store@.offset == active_length(segment_views(segments@), 0)
                },
                Err(error) => {
                    &&& all_records(segment_views(segments@), 0) == Err::<
                        Seq<LogRecord>,
                        (int, int),
                    >((error.segment as int, error.offset as int))
                    &&& error.segment < segments@.len()
                    &&& error.cause == decode_failure(
                        segments@[error.segment as int]@.bytes.subrange(
                            error.offset as int,
                            line_end(
                                segments@[error.segment as int]@.bytes,
                                error.offset as int,
                            ),
                        ),
                    )
                },
            },
    {
        let offset = active_offset(segments);
        let keydir = build_keydir(segments)?;
        Ok(Bitcask { offset, keydir })
    }

    /// Whether a record of `len` bytes goes to a fresh segment, given the
    /// stream position of the active segment.
    pub fn needs_rotation(&self, len: usize, cursor: u64) -> (res: bool)
        ensures
            res == rotates(write_position(self@.offset, cursor), len as nat),
    {
        let pos: u64 = if cursor >= self.offset {
            cursor
        } else {
            self.offset
        };
        len as u64 >= MAX_BYTE_SIZE || pos >= MAX_BYTE_SIZE - len as u64
    }

    /// The append that writes `line` for `key`. `cursor` is the stream
    /// position of the active segment; `id` names the archived segment if the
    /// append rotates.
    pub fn plan(
        &self,
        key: &str,
        line: Vec<u8>,
        timestamp: Timestamp,
        deletes: bool,
        cursor: u64,
        id: &str,
    ) -> (append: Append)
        ensures
            append@ == planned(self@, key@, line@, timestamp, deletes, cursor, id@),
    {
        let rotate = self.needs_rotation(line.len(), cursor);
        let pos: u64 = if rotate {
            0
        } else if cursor >= self.offset {
            cursor
        } else {
            self.offset
        };
        let archive: Option<String> = if rotate {
            Some(id.to_owned().concat(SEGMENT_SUFFIX))
        } else {
            None
        };
        Append {
            key: key.to_owned(),
            entry: KeydirVal {
                entry_size: line.len(),
                entry_pos: pos,
                file_id: ACTIVE_SEGMENT.to_owned(),
                timestamp,
            },
            line,
            archive,
            deletes,
        }
    }

    /// The append for the record `pair`, with a new identifier for the
    /// archived segment if the append rotates. A record whose line does not
    /// decode to the record again is refused.
    fn append_of(&self, pair: &Pair, deletes: bool, cursor: u64) -> (res: Result<
        Append,
        WriteError,
    >)
        ensures
            match res {
                Ok(append) => reads_back(pair@) && planned_write(
                    self@,
                    pair@,
                    deletes,
                    cursor,
                    append@,
                ),
                Err(error) => error == WriteError::Encode && !reads_back(pair@),
            },
    {
        let line = match pair.encode_checked() {
            Some(line) => line,
            None => {
                return Err(WriteError::Encode);
            },
        };
        let id = if self.needs_rotation(line.len(), cursor) {
            new_segment_id()
        } else {
            String::new()
        };
        let append = self.plan(pair.key.as_str(), line, pair.timestamp, deletes, cursor, id.as_str());
        proof {
            if id@.len() != SEGMENT_ID_LEN {
                let other = Seq::new(SEGMENT_ID_LEN as nat, |i: int| '0');
                assert(append@ == planned(
                    self@,
                    pair@.key,
                    record_bytes(pair@),
                    pair@.timestamp,
                    deletes,
                    cursor,
                    other,
                ));
            }
        }
        Ok(append)
    }

    /// The append for a write of `value` under `key` at the current time.
    /// `cursor` is the stream position of the active segment. The write is
    /// planned unless the clock gives no time, or the line of the record
    /// would not decode to the record again.
    pub fn put(&self, key: &str, value: &str, cursor: u64) -> (res: Result<Append, WriteError>)
        ensures
            match res {
                Ok(append) => put_planned(self@, key@, value@, cursor, append@),
                Err(WriteError::Clock) => true,
                Err(WriteError::Encode) => exists|timestamp: Timestamp|
                    timestamp.wf() && !reads_back(#[trigger] PairView::of(key@, value@, timestamp)),
            },
    {
        let timestamp = match Timestamp::now() {
            Some(timestamp) => timestamp,
            None => {
                return Err(WriteError::Clock);
            },
        };
        let res = self.append_of(&Pair::new(key, value, timestamp), false, cursor);
        proof {
            let pair = PairView::of(key@, value@, timestamp);
            if res is Ok {
                assert(timestamp.wf() && reads_back(pair) && planned_write(
                    self@,
                    pair,
                    false,
                    cursor,
                    res->Ok_0@,
                ));
            } else {
                assert(timestamp.wf() && !reads_back(pair));
            }
        }
        res
    }

    /// The append for the deletion of `key` at the current time: a tombstone.
    /// A key that the keydir does not hold is refused; otherwise the
    /// deletion is planned unless the clock gives no time, or the line of the
    /// tombstone would not decode to the tombstone again.
    pub fn remove(&self, key: &str, cursor: u64) -> (res: Result<Append, RemoveError>)
        requires
            self.wf(),
        ensures
            !self@.index.contains_key(key@) <==> res == Err::<Append, RemoveError>(
                RemoveError::NotFound,
            ),
            match res {
                Ok(append) => remove_planned(self@, key@, cursor, append@),
                Err(RemoveError::NotFound) => true,
                Err(RemoveError::Write(WriteError::Clock)) => true,
                Err(RemoveError::Write(WriteError::Encode)) => exists|timestamp: Timestamp|
                    timestamp.wf() && !reads_back(
                        #[trigger] PairView::of(key@, TOMBSTONE_VALUE@, timestamp),
                    ),
            },
    {
        if !self.keydir.contains_key(key) {
            return Err(RemoveError::NotFound);
        }
        let timestamp = match Timestamp::now() {
            Some(timestamp) => timestamp,
            None => {
                return Err(RemoveError::Write(WriteError::Clock));
            },
        };
        let res = self.append_of(&Pair::tombstone(key, timestamp), true, cursor);
        proof {
            let pair = PairView::of(key@, TOMBSTONE_VALUE@, timestamp);
            if res is Ok {
                assert(timestamp.wf() && reads_back(pair) && planned_write(
                    self@,
                    pair,
                    true,
                    cursor,
                    res->Ok_0@,
                ));
            } else {
                assert(timestamp.wf() && !reads_back(pair));
            }
        }
        match res {
            Ok(append) => Ok(append),
            Err(error) => Err(RemoveError::Write(error)),
        }
    }

    /// Records that `append` has been performed.
    pub fn commit(&mut self, append: &Append)
        requires
            old(self).wf(),
        ensures
            final(self).wf(),
            final(self)@ == committed(old(self)@, append@),
    {
        match &append.archive {
            Some(name) => {
                self.keydir.repoint(ACTIVE_SEGMENT, name.as_str());
            },
            None => {},
        }
        if append.deletes {
            self.keydir.remove(append.key.as_str());
        } else {
            self.keydir.insert(append.key.as_str(), append.entry.clone());
        }
        let size: u64 = append.entry.entry_size as u64;
        let pos: u64 = append.entry.entry_pos;
        self.offset = if size < u64::MAX - pos {
            pos + size + 1
        } else {
            u64::MAX
        };
    }

    /// Where the latest record of `key` lies, if the key is live.
    pub fn get(&self, key: &str) -> (res: Option<KeydirVal>)
        requires
            self.wf(),
        ensures
            match res {
                Some(entry) => self@.index.contains_key(key@) && entry@ == self@.index[key@],
                None => !self@.index.contains_key(key@),
            },
    {
        self.keydir.lookup(key)
    }

    /// The value of the record in `bytes`, which were read at the place that
    /// `get` gave.
    pub fn value_of(bytes: &[u8]) -> (res: Result<String, ReadError>)
        ensures
            match res {
                Ok(value) => decoded(bytes@) is Some && value@ == decoded(bytes@)->0.value,
                Err(error) => decoded(bytes@) is None && error.cause == decode_failure(bytes@),
            },
    {
        match Pair::decode(bytes) {
            Ok(pair) => Ok(pair.value),
            Err(cause) => Err(ReadError { cause }),
        }
    }

    /// The live keys, each once, in no particular order.
    pub fn list_keys(&self) -> (res: Vec<String>)
        requires
            self.wf(),
        ensures
            res@.len() == self@.index.len(),
            forall|i: int, j: int|
                0 <= i < j < res@.len() ==> (#[trigger] res@[i])@ != (#[trigger] res@[j])@,
            forall|i: int|
                0 <= i < res@.len() ==> self@.index.contains_key((#[trigger] res@[i])@),
            forall|k: Seq<char>| #[trigger]
                self@.index.contains_key(k) ==> exists|i: int|
                    0 <= i < res@.len() && (#[trigger] res@[i])@ == k,
    {
        self.keydir.keys()
    }

    /// The write offset of the active segment.
    pub fn offset(&self) -> (res: u64)
        ensures
            res == self@.offset,
    {
        self.offset
    }
}

} // verus!
