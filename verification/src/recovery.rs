//! What replay guarantees: a key whose last record is a tombstone is not
//! live, and a directory written through the engine replays to the keydir
//! that the engine holds.

use vstd::prelude::*;
use crate::directory::consistent;
use crate::directory::fits;
use crate::directory::lemma_put_witness;
use crate::directory::lemma_remove_witness;
use crate::directory::grounded;
use crate::directory::performable;
use crate::directory::performed;
use crate::directory::stored;
use crate::directory::lemma_archive_is_not_active;
use crate::directory::Directory;
use crate::engine::active_length;
use crate::engine::committed;
use crate::engine::planned;
use crate::engine::put_planned;
use crate::engine::remove_planned;
use crate::engine::AppendView;
use crate::engine::BitcaskView;
use crate::engine::ACTIVE_SEGMENT;
use crate::json::on_one_line;
use crate::json::NEWLINE;
use crate::keydir::moved_entries;
use crate::order::goes_before;
use crate::order::in_replay_order;
use crate::order::lemma_replay_order_unique;
use crate::keydir::KeydirValView;
use crate::record::decoded;
use crate::record::lemma_record_is_one_line;
use crate::record::record_bytes;
use crate::record::PairView;
use crate::record::TOMBSTONE_VALUE;
use crate::replay::all_records;
use crate::replay::lemma_line_end_bounds;
use crate::replay::lemma_replay_concat;
use crate::replay::lemma_replay_push;
use crate::replay::line_end;
use crate::replay::record_at;
use crate::replay::replay;
use crate::replay::replayed;
use crate::replay::segment_records;
use crate::replay::LogRecord;
use crate::replay::SegmentView;

verus! {

/// Records of other keys leave the entry of a key as it is.
pub proof fn lemma_replay_other_keys(
    index: Map<Seq<char>, KeydirValView>,
    records: Seq<LogRecord>,
    key: Seq<char>,
)
    requires
        forall|i: int| 0 <= i < records.len() ==> (#[trigger] records[i]).pair.key != key,
    ensures
        replay(index, records).contains_key(key) == index.contains_key(key),
        index.contains_key(key) ==> replay(index, records)[key] == index[key],
    decreases records.len(),
{
    if records.len() > 0 {
        assert(records[0].pair.key != key);
        assert forall|i: int| 0 <= i < records.drop_first().len() implies (
        #[trigger] records.drop_first()[i]).pair.key != key by {
            assert(records.drop_first()[i] == records[i + 1]);
        }
        lemma_replay_other_keys(replayed(index, records[0]), records.drop_first(), key);
    }
}

/// Tombstone exclusion. If the last record of a key among the records
/// replayed is a tombstone, the rebuilt keydir does not hold the key,
/// whatever the index held before and whatever the earlier records say.
pub proof fn lemma_tombstone_excludes(
    index: Map<Seq<char>, KeydirValView>,
    records: Seq<LogRecord>,
    last: int,
)
    requires
        0 <= last < records.len(),
        records[last].pair.is_tombstone(),
        forall|j: int|
            last < j < records.len() ==> (#[trigger] records[j]).pair.key
                != records[last].pair.key,
    ensures
        !replay(index, records).contains_key(records[last].pair.key),
{
    let key = records[last].pair.key;
    let before = records.subrange(0, last);
    let after = records.subrange(last + 1, records.len() as int);
    assert(records == before.push(records[last]) + after);
    lemma_replay_concat(index, before.push(records[last]), after);
    lemma_replay_push(index, before, records[last]);
    assert forall|i: int| 0 <= i < after.len() implies (#[trigger] after[i]).pair.key != key by {
        assert(after[i] == records[last + 1 + i]);
    }
    lemma_replay_other_keys(replay(index, before.push(records[last])), after, key);
}

/// From `pos` on, the bytes are whole lines: each holds at least one byte
/// and ends in a newline.
pub open spec fn framed(bytes: Seq<u8>, pos: int) -> bool
    decreases bytes.len() - pos,
{
    if pos < 0 {
        false
    } else if pos >= bytes.len() {
        pos == bytes.len()
    } else {
        let end = line_end(bytes, pos);
        pos < end < bytes.len() && framed(bytes, end + 1)
    }
}

/// A line that ends within the bytes ends at the same place when more bytes
/// follow them.
pub proof fn lemma_line_end_prefix(bytes: Seq<u8>, more: Seq<u8>, from: int)
    requires
        0 <= from <= bytes.len(),
        line_end(bytes, from) < bytes.len(),
    ensures
        line_end(bytes + more, from) == line_end(bytes, from),
    decreases bytes.len() - from,
{
    if from < bytes.len() {
        assert((bytes + more)[from] == bytes[from]);
        if bytes[from] != NEWLINE {
            lemma_line_end_prefix(bytes, more, from + 1);
        }
    }
}

/// A line without a newline, followed by one, ends where the newline
/// stands.
pub proof fn lemma_line_end_of_line(bytes: Seq<u8>, line: Seq<u8>, from: int)
    requires
        on_one_line(line),
        bytes.len() <= from <= bytes.len() + line.len(),
    ensures
        line_end(bytes + line + seq![NEWLINE], from) == bytes.len() + line.len(),
    decreases bytes.len() + line.len() - from,
{
    let all = bytes + line + seq![NEWLINE];
    if from < bytes.len() + line.len() {
        assert(all[from] == line[from - bytes.len()]);
        lemma_line_end_of_line(bytes, line, from + 1);
    } else {
        assert(all[from] == NEWLINE);
    }
}

/// One more line at the end of a segment of whole lines is one more record
/// at the end of its records, and the segment still consists of whole lines.
pub proof fn lemma_records_appended(
    name: Seq<char>,
    bytes: Seq<u8>,
    pos: int,
    line: Seq<u8>,
    pair: PairView,
)
    requires
        0 <= pos <= bytes.len(),
        framed(bytes, pos),
        segment_records(name, bytes, pos) is Ok,
        line.len() > 0,
        on_one_line(line),
        decoded(line) == Some(pair),
    ensures
        segment_records(name, bytes + line + seq![NEWLINE], pos) == Ok::<Seq<LogRecord>, int>(
            segment_records(name, bytes, pos)->Ok_0.push(
                record_at(pair, name, bytes.len() as int, line.len() as int),
            ),
        ),
        framed(bytes + line + seq![NEWLINE], pos),
    decreases bytes.len() - pos,
{
    let all = bytes + line + seq![NEWLINE];
    let record = record_at(pair, name, bytes.len() as int, line.len() as int);
    if pos == bytes.len() {
        lemma_line_end_of_line(bytes, line, pos);
        let end = pos + line.len();
        assert(all.subrange(pos, end) == line);
        assert(end + 1 == all.len());
        assert(segment_records(name, all, end + 1) == Ok::<Seq<LogRecord>, int>(Seq::empty()));
        assert(segment_records(name, bytes, pos) == Ok::<Seq<LogRecord>, int>(Seq::empty()));
        assert(seq![record] + Seq::<LogRecord>::empty() == Seq::<LogRecord>::empty().push(
            record,
        ));
        assert(framed(all, end + 1));
        assert(segment_records(name, all, pos) == Ok::<Seq<LogRecord>, int>(
            seq![record] + Seq::<LogRecord>::empty(),
        ));
    } else {
        let end = line_end(bytes, pos);
        lemma_line_end_prefix(bytes, line + seq![NEWLINE], pos);
        assert(bytes + (line + seq![NEWLINE]) == all);
        assert(all.subrange(pos, end) == bytes.subrange(pos, end));
        lemma_records_appended(name, bytes, end + 1, line, pair);
        let first = record_at(decoded(bytes.subrange(pos, end))->0, name, pos, end - pos);
        let rest = segment_records(name, bytes, end + 1)->Ok_0;
        assert(seq![first] + rest.push(record) == (seq![first] + rest).push(record));
        assert(segment_records(name, bytes, pos) == Ok::<Seq<LogRecord>, int>(seq![first] + rest));
        assert(line_end(all, pos) == end);
        assert(segment_records(name, all, end + 1) == Ok::<Seq<LogRecord>, int>(
            rest.push(record),
        ));
        assert(segment_records(name, all, pos) == Ok::<Seq<LogRecord>, int>(
            seq![first] + rest.push(record),
        ));
    }
}

/// The records with their places in the segment `to`.
pub open spec fn renamed(records: Seq<LogRecord>, to: Seq<char>) -> Seq<LogRecord> {
    Seq::new(
        records.len(),
        |i: int|
            LogRecord {
                pair: records[i].pair,
                place: KeydirValView { file_id: to, ..records[i].place },
            },
    )
}

/// No entry of the index lies in the segment `name`.
pub open spec fn avoids(index: Map<Seq<char>, KeydirValView>, name: Seq<char>) -> bool {
    forall|k: Seq<char>| #[trigger] index.contains_key(k) ==> index[k].file_id != name
}

/// The same bytes under another name hold the same records, at the same
/// offsets of the other segment.
pub proof fn lemma_records_renamed(from: Seq<char>, to: Seq<char>, bytes: Seq<u8>, pos: int)
    ensures
        segment_records(to, bytes, pos) == match segment_records(from, bytes, pos) {
            Ok(records) => Ok::<Seq<LogRecord>, int>(renamed(records, to)),
            Err(offset) => Err::<Seq<LogRecord>, int>(offset),
        },
        segment_records(from, bytes, pos) matches Ok(records) ==> forall|i: int|
            0 <= i < records.len() ==> (#[trigger] records[i]).place.file_id == from,
    decreases bytes.len() - pos,
{
    let end = line_end(bytes, pos);
    if pos < 0 || pos >= bytes.len() || end <= pos {
        assert(renamed(Seq::<LogRecord>::empty(), to) == Seq::<LogRecord>::empty());
    } else {
        match decoded(bytes.subrange(pos, end)) {
            None => {},
            Some(pair) => {
                if end < bytes.len() {
                    lemma_records_renamed(from, to, bytes, end + 1);
                }
                let after = if end < bytes.len() {
                    segment_records(from, bytes, end + 1)
                } else {
                    Ok(Seq::empty())
                };
                match after {
                    Ok(rest) => {
                        let here = record_at(pair, from, pos, end - pos);
                        let there = record_at(pair, to, pos, end - pos);
                        assert(renamed(seq![here] + rest, to) == seq![there] + renamed(rest, to));
                    },
                    Err(_) => {},
                }
            },
        }
    }
}

/// Replaying records under another name gives the same index with the
/// entries of the one segment moved to the other.
pub proof fn lemma_replay_renamed(
    index: Map<Seq<char>, KeydirValView>,
    records: Seq<LogRecord>,
    from: Seq<char>,
    to: Seq<char>,
)
    requires
        forall|i: int| 0 <= i < records.len() ==> (#[trigger] records[i]).place.file_id == from,
    ensures
        replay(moved_entries(index, from, to), renamed(records, to)) == moved_entries(
            replay(index, records),
            from,
            to,
        ),
    decreases records.len(),
{
    if records.len() > 0 {
        let first = records[0];
        assert(first.place.file_id == from);
        assert(renamed(records, to)[0].pair == first.pair);
        assert(renamed(records, to)[0].place == first.place.moved(from, to));
        assert(renamed(records, to).drop_first() == renamed(records.drop_first(), to));
        assert(replayed(moved_entries(index, from, to), renamed(records, to)[0])
            =~= moved_entries(replayed(index, first), from, to));
        assert forall|i: int| 0 <= i < records.drop_first().len() implies (
        #[trigger] records.drop_first()[i]).place.file_id == from by {
            assert(records.drop_first()[i] == records[i + 1]);
        }
        lemma_replay_renamed(replayed(index, first), records.drop_first(), from, to);
    }
}

/// An index without entries in a segment has none after a replay of records
/// that lie elsewhere.
pub proof fn lemma_replay_avoids(
    index: Map<Seq<char>, KeydirValView>,
    records: Seq<LogRecord>,
    name: Seq<char>,
)
    requires
        avoids(index, name),
        forall|i: int| 0 <= i < records.len() ==> (#[trigger] records[i]).place.file_id != name,
    ensures
        avoids(replay(index, records), name),
    decreases records.len(),
{
    if records.len() > 0 {
        assert(records[0].place.file_id != name);
        assert forall|i: int| 0 <= i < records.drop_first().len() implies (
        #[trigger] records.drop_first()[i]).place.file_id != name by {
            assert(records.drop_first()[i] == records[i + 1]);
        }
        lemma_replay_avoids(replayed(index, records[0]), records.drop_first(), name);
    }
}

/// The records of segments with other names lie in other segments.
pub proof fn lemma_all_records_avoid(segments: Seq<SegmentView>, from: int, name: Seq<char>)
    requires
        0 <= from,
        forall|i: int| from <= i < segments.len() ==> (#[trigger] segments[i]).name != name,
    ensures
        all_records(segments, from) matches Ok(records) ==> forall|i: int|
            0 <= i < records.len() ==> (#[trigger] records[i]).place.file_id != name,
    decreases segments.len() - from,
{
    if from < segments.len() {
        assert(segments[from].name != name);
        lemma_records_renamed(segments[from].name, name, segments[from].bytes, 0);
        lemma_all_records_avoid(segments, from + 1, name);
    }
}

/// The records of a list of segments with one more segment at its end.
pub proof fn lemma_all_records_push(segments: Seq<SegmentView>, last: SegmentView, from: int)
    requires
        0 <= from <= segments.len(),
    ensures
        all_records(segments.push(last), from) == match all_records(segments, from) {
            Err(place) => Err::<Seq<LogRecord>, (int, int)>(place),
            Ok(records) => match segment_records(last.name, last.bytes, 0) {
                Ok(more) => Ok::<Seq<LogRecord>, (int, int)>(records + more),
                Err(offset) => Err::<Seq<LogRecord>, (int, int)>(
                    (segments.len() as int, offset),
                ),
            },
        },
    decreases segments.len() - from,
{
    let longer = segments.push(last);
    if from == segments.len() {
        assert(longer[from] == last);
        assert(all_records(longer, from + 1) == Ok::<Seq<LogRecord>, (int, int)>(Seq::empty()));
        match segment_records(last.name, last.bytes, 0) {
            Ok(more) => {
                assert(more + Seq::<LogRecord>::empty() == Seq::<LogRecord>::empty() + more);
            },
            Err(_) => {},
        }
    } else {
        assert(longer[from] == segments[from]);
        lemma_all_records_push(segments, last, from + 1);
        match segment_records(segments[from].name, segments[from].bytes, 0) {
            Ok(first) => match all_records(segments, from + 1) {
                Ok(rest) => match segment_records(last.name, last.bytes, 0) {
                    Ok(more) => {
                        assert(first + (rest + more) == (first + rest) + more);
                    },
                    Err(_) => {},
                },
                Err(_) => {},
            },
            Err(_) => {},
        }
    }
}

/// The segments of a directory in the order of the names.
pub open spec fn listing(disk: Directory, names: Seq<Seq<char>>) -> Seq<SegmentView> {
    Seq::new(names.len(), |i: int| SegmentView { name: names[i], bytes: disk[names[i]] })
}

/// The names of the segments after an append: a rotation puts the archive
/// just before the active segment.
pub open spec fn listed_after(names: Seq<Seq<char>>, append: AppendView) -> Seq<Seq<char>> {
    match append.archive {
        Some(name) => names.drop_last().push(name).push(ACTIVE_SEGMENT@),
        None => names,
    }
}

/// The engine would be recovered from the directory: `names` lists segments
/// of the directory, each once and the active one last; the active segment
/// consists of whole lines and is as long as the write offset says; and the
/// segments, replayed in the order of the names, give the keydir that the
/// engine holds.
pub open spec fn recoverable(state: BitcaskView, disk: Directory, names: Seq<Seq<char>>) -> bool {
    &&& names.len() > 0
    &&& names.last() == ACTIVE_SEGMENT@
    &&& names.no_duplicates()
    &&& forall|i: int| 0 <= i < names.len() ==> disk.contains_key(#[trigger] names[i])
    &&& state.offset == disk[ACTIVE_SEGMENT@].len()
    &&& framed(disk[ACTIVE_SEGMENT@], 0)
    &&& all_records(listing(disk, names), 0) is Ok
    &&& replay(Map::empty(), all_records(listing(disk, names), 0)->Ok_0) == state.index
}

/// An append whose record the parser reads back as it was written keeps the
/// engine recoverable, if a write is later than the record of the key that
/// the keydir points to, and if the record is a tombstone exactly when the
/// append deletes.
proof fn lemma_append_recoverable(
    state: BitcaskView,
    disk: Directory,
    names: Seq<Seq<char>>,
    pair: PairView,
    deletes: bool,
    cursor: u64,
    id: Seq<char>,
)
    requires
        recoverable(state, disk, names),
        performable(state, disk, record_bytes(pair), cursor, id),
        decoded(record_bytes(pair)) == Some(pair),
        deletes == pair.is_tombstone(),
        !deletes && state.index.contains_key(pair.key) ==> pair.timestamp.later_than(
            state.index[pair.key].timestamp,
        ),
    ensures
        ({
            let append = planned(
                state,
                pair.key,
                record_bytes(pair),
                pair.timestamp,
                deletes,
                cursor,
                id,
            );
            recoverable(
                committed(state, append),
                performed(disk, append),
                listed_after(names, append),
            )
        }),
{
    let active = ACTIVE_SEGMENT@;
    let line = record_bytes(pair);
    let append = planned(state, pair.key, line, pair.timestamp, deletes, cursor, id);
    let after = committed(state, append);
    let disk_after = performed(disk, append);
    let names_after = listed_after(names, append);
    let old = disk[active];
    let nothing = Map::<Seq<char>, KeydirValView>::empty();
    lemma_record_is_one_line(pair);
    lemma_archive_is_not_active(id);

    // The listing before: the archives, then the active segment.
    let archives = listing(disk, names.drop_last());
    let last = SegmentView { name: active, bytes: old };
    assert(listing(disk, names) == archives.push(last));
    lemma_all_records_push(archives, last, 0);
    let earlier = all_records(archives, 0)->Ok_0;
    let held = segment_records(active, old, 0)->Ok_0;
    let base = replay(nothing, earlier);
    lemma_replay_concat(nothing, earlier, held);
    assert(state.index == replay(base, held));
    assert forall|i: int| 0 <= i < archives.len() implies (#[trigger] archives[i]).name
        != active by {
        assert(names[i] != names[names.len() - 1]);
    }

    match append.archive {
        None => {
            let record = record_at(pair, active, old.len() as int, line.len() as int);
            lemma_records_appended(active, old, 0, line, pair);
            let grown = SegmentView { name: active, bytes: old + line + seq![NEWLINE] };
            assert(listing(disk_after, names_after) == archives.push(grown)) by {
                assert forall|i: int| 0 <= i < names.len() - 1 implies disk_after[names[i]]
                    == disk[names[i]] by {
                    assert(names[i] != names[names.len() - 1]);
                }
            }
            lemma_all_records_push(archives, grown, 0);
            lemma_replay_concat(nothing, earlier, held.push(record));
            lemma_replay_push(base, held, record);
            assert(record.place == append.entry);
            assert(replayed(state.index, record) =~= after.index);
        },
        Some(name) => {
            let record = record_at(pair, active, 0, line.len() as int);
            let archived = SegmentView { name, bytes: old };
            let fresh = SegmentView { name: active, bytes: Seq::empty() + line + seq![NEWLINE] };
            assert(names_after.no_duplicates()) by {
                assert forall|i: int, j: int|
                    0 <= i < names_after.len() && 0 <= j < names_after.len() && i
                        != j implies names_after[i] != names_after[j] by {
                    if i < names.len() - 1 {
                        assert(names_after[i] == names[i]);
                        assert(disk.contains_key(names[i]));
                        assert(names[i] != names[names.len() - 1]);
                    }
                    if j < names.len() - 1 {
                        assert(names_after[j] == names[j]);
                        assert(disk.contains_key(names[j]));
                        assert(names[j] != names[names.len() - 1]);
                    }
                }
            }
            assert(listing(disk_after, names_after) == archives.push(archived).push(fresh)) by {
                assert forall|i: int| 0 <= i < names.len() - 1 implies disk_after[names[i]]
                    == disk[names[i]] by {
                    assert(disk.contains_key(names[i]));
                    assert(names[i] != names[names.len() - 1]);
                }
            }
            lemma_records_appended(active, Seq::empty(), 0, line, pair);
            lemma_records_renamed(active, name, old, 0);
            lemma_all_records_push(archives, archived, 0);
            lemma_all_records_push(archives.push(archived), fresh, 0);
            let moved = renamed(held, name);
            assert(Seq::<LogRecord>::empty().push(record) == seq![record]);
            assert(all_records(listing(disk_after, names_after), 0) == Ok::<
                Seq<LogRecord>,
                (int, int),
            >((earlier + moved) + seq![record]));
            lemma_all_records_avoid(archives, 0, active);
            assert(avoids(nothing, active));
            lemma_replay_avoids(nothing, earlier, active);
            assert(moved_entries(base, active, name) =~= base);
            lemma_replay_renamed(base, held, active, name);
            lemma_replay_concat(nothing, earlier, moved);
            lemma_replay_concat(nothing, earlier + moved, seq![record]);
            lemma_replay_push(replay(nothing, earlier + moved), Seq::empty(), record);
            assert(replay(nothing, earlier + moved) == moved_entries(state.index, active, name));
            assert(record.place == append.entry);
            assert(replayed(moved_entries(state.index, active, name), record) =~= after.index);
            assert forall|i: int| 0 <= i < names_after.len() implies disk_after.contains_key(
                #[trigger] names_after[i],
            ) by {
                if i < names.len() - 1 {
                    assert(names_after[i] == names[i]);
                    assert(disk.contains_key(names[i]));
                }
            }
        },
    }
}

/// A directory that holds only an empty active segment is recoverable to
/// the engine with an empty keydir.
pub proof fn lemma_fresh_directory_recoverable()
    ensures
        recoverable(
            BitcaskView { offset: 0, index: Map::empty() },
            Map::<Seq<char>, Seq<u8>>::empty().insert(ACTIVE_SEGMENT@, Seq::empty()),
            seq![ACTIVE_SEGMENT@],
        ),
{
    let disk = Map::<Seq<char>, Seq<u8>>::empty().insert(ACTIVE_SEGMENT@, Seq::empty());
    let names = seq![ACTIVE_SEGMENT@];
    let only = SegmentView { name: ACTIVE_SEGMENT@, bytes: Seq::empty() };
    assert(listing(disk, names) == Seq::<SegmentView>::empty().push(only));
    lemma_all_records_push(Seq::empty(), only, 0);
    assert(Seq::<LogRecord>::empty() + Seq::<LogRecord>::empty() == Seq::<LogRecord>::empty());
}

/// Recovery idempotence, one write at a time. After a `put` that succeeded,
/// its append performed on a recoverable directory and committed, the
/// directory is recoverable to the engine's new state.
///
/// The law is stated for values other than the tombstone, and for a write
/// that is later than the record that the keydir holds for the key.
pub proof fn lemma_put_recoverable(
    state: BitcaskView,
    disk: Directory,
    names: Seq<Seq<char>>,
    key: Seq<char>,
    value: Seq<char>,
    cursor: u64,
    append: AppendView,
)
    requires
        recoverable(state, disk, names),
        put_planned(state, key, value, cursor, append),
        fits(state, disk, append, cursor),
        value != TOMBSTONE_VALUE@,
        state.index.contains_key(key) ==> append.entry.timestamp.later_than(
            state.index[key].timestamp,
        ),
    ensures
        recoverable(committed(state, append), performed(disk, append), listed_after(names, append)),
{
    let with = lemma_put_witness(state, key, value, cursor, append);
    lemma_append_recoverable(
        state,
        disk,
        names,
        PairView::of(key, value, with.0),
        false,
        cursor,
        with.1,
    );
}

/// Recovery idempotence, one deletion at a time. After a `remove` that
/// succeeded, its append performed on a recoverable directory and committed,
/// the directory is recoverable to the engine's new state.
pub proof fn lemma_remove_recoverable(
    state: BitcaskView,
    disk: Directory,
    names: Seq<Seq<char>>,
    key: Seq<char>,
    cursor: u64,
    append: AppendView,
)
    requires
        recoverable(state, disk, names),
        remove_planned(state, key, cursor, append),
        fits(state, disk, append, cursor),
    ensures
        recoverable(committed(state, append), performed(disk, append), listed_after(names, append)),
{
    let with = lemma_remove_witness(state, key, cursor, append);
    lemma_append_recoverable(
        state,
        disk,
        names,
        PairView::of(key, TOMBSTONE_VALUE@, with.0),
        true,
        cursor,
        with.1,
    );
}

/// The length of the active segment of a listing in which it stands last.
proof fn lemma_active_length(disk: Directory, names: Seq<Seq<char>>, from: int)
    requires
        names.len() > 0,
        names.last() == ACTIVE_SEGMENT@,
        names.no_duplicates(),
        0 <= from < names.len(),
    ensures
        active_length(listing(disk, names), from) == disk[ACTIVE_SEGMENT@].len(),
    decreases names.len() - from,
{
    if from < names.len() - 1 {
        assert(names[from] != names[names.len() - 1]);
        lemma_active_length(disk, names, from + 1);
    }
}

/// Recovery idempotence. Opening an engine on the segments of a recoverable
/// directory, in the order of the names, succeeds and gives the state that
/// the engine held: the same keydir, entry for entry, and the same write
/// offset.
pub proof fn lemma_recovery_restores(state: BitcaskView, disk: Directory, names: Seq<Seq<char>>)
    requires
        recoverable(state, disk, names),
    ensures
        all_records(listing(disk, names), 0) is Ok,
        replay(Map::empty(), all_records(listing(disk, names), 0)->Ok_0) == state.index,
        active_length(listing(disk, names), 0) == state.offset,
{
    lemma_active_length(disk, names, 0);
}

/// The records of a segment lie where their places say.
pub proof fn lemma_segment_grounded(disk: Directory, name: Seq<char>, pos: int)
    requires
        disk.contains_key(name),
        disk[name].len() <= usize::MAX,
        0 <= pos,
    ensures
        segment_records(name, disk[name], pos) matches Ok(records) ==> forall|i: int|
            0 <= i < records.len() ==> stored(disk, (#[trigger] records[i]).place) == Some(
                records[i].pair,
            ),
    decreases disk[name].len() - pos,
{
    let bytes = disk[name];
    let end = line_end(bytes, pos);
    if pos < bytes.len() && end > pos {
        lemma_line_end_bounds(bytes, pos);
        match decoded(bytes.subrange(pos, end)) {
            None => {},
            Some(pair) => {
                let first = record_at(pair, name, pos, end - pos);
                assert(stored(disk, first.place) == Some(first.pair));
                if end < bytes.len() {
                    lemma_segment_grounded(disk, name, end + 1);
                }
                let after = if end < bytes.len() {
                    segment_records(name, bytes, end + 1)
                } else {
                    Ok(Seq::empty())
                };
                match after {
                    Ok(rest) => {
                        let records = seq![first] + rest;
                        assert forall|i: int| 0 <= i < records.len() implies stored(
                            disk,
                            (#[trigger] records[i]).place,
                        ) == Some(records[i].pair) by {
                            if i > 0 {
                                assert(records[i] == rest[i - 1]);
                            }
                        }
                    },
                    Err(_) => {},
                }
            },
        }
    }
}

/// The records of the listed segments lie where their places say.
pub proof fn lemma_listing_grounded(disk: Directory, names: Seq<Seq<char>>, from: int)
    requires
        0 <= from,
        forall|i: int|
            0 <= i < names.len() ==> disk.contains_key(#[trigger] names[i]) && disk[names[i]].len()
                <= usize::MAX,
    ensures
        all_records(listing(disk, names), from) matches Ok(records) ==> forall|i: int|
            0 <= i < records.len() ==> stored(disk, (#[trigger] records[i]).place) == Some(
                records[i].pair,
            ),
    decreases names.len() - from,
{
    let segments = listing(disk, names);
    if from < names.len() {
        assert(disk.contains_key(names[from]));
        lemma_segment_grounded(disk, names[from], 0);
        lemma_listing_grounded(disk, names, from + 1);
        match segment_records(segments[from].name, segments[from].bytes, 0) {
            Ok(first) => match all_records(segments, from + 1) {
                Ok(rest) => {
                    let records = first + rest;
                    assert forall|i: int| 0 <= i < records.len() implies stored(
                        disk,
                        (#[trigger] records[i]).place,
                    ) == Some(records[i].pair) by {
                        if i < first.len() {
                            assert(records[i] == first[i]);
                        } else {
                            assert(records[i] == rest[i - first.len()]);
                        }
                    }
                },
                Err(_) => {},
            },
            Err(_) => {},
        }
    }
}

/// Replaying records that lie where their places say keeps every entry of
/// the index pointing to a record of its key.
pub proof fn lemma_replay_grounded(
    index: Map<Seq<char>, KeydirValView>,
    disk: Directory,
    records: Seq<LogRecord>,
)
    requires
        grounded(index, disk),
        forall|i: int|
            0 <= i < records.len() ==> stored(disk, (#[trigger] records[i]).place) == Some(
                records[i].pair,
            ),
    ensures
        grounded(replay(index, records), disk),
    decreases records.len(),
{
    if records.len() > 0 {
        let first = records[0];
        assert(stored(disk, first.place) == Some(first.pair));
        assert forall|i: int| 0 <= i < records.drop_first().len() implies stored(
            disk,
            (#[trigger] records.drop_first()[i]).place,
        ) == Some(records.drop_first()[i].pair) by {
            assert(records.drop_first()[i] == records[i + 1]);
        }
        lemma_replay_grounded(replayed(index, first), disk, records.drop_first());
    }
}

/// The keydir invariant after recovery. The keydir rebuilt from a directory
/// points, for every key, to bytes of the directory that are a record of
/// that key; with the write offset at the end of the active segment, the
/// engine and the directory agree.
pub proof fn lemma_recovered_consistent(disk: Directory, names: Seq<Seq<char>>)
    requires
        disk.contains_key(ACTIVE_SEGMENT@),
        disk[ACTIVE_SEGMENT@].len() <= usize::MAX,
        forall|i: int|
            0 <= i < names.len() ==> disk.contains_key(#[trigger] names[i]) && disk[names[i]].len()
                <= usize::MAX,
        all_records(listing(disk, names), 0) is Ok,
    ensures
        consistent(
            BitcaskView {
                offset: disk[ACTIVE_SEGMENT@].len() as u64,
                index: replay(Map::empty(), all_records(listing(disk, names), 0)->Ok_0),
            },
            disk,
        ),
{
    lemma_listing_grounded(disk, names, 0);
    lemma_replay_grounded(Map::empty(), disk, all_records(listing(disk, names), 0)->Ok_0);
}

/// An engine, the directory it writes to, and the names of the segments in
/// the order in which a recovery would replay them.
pub struct World {
    pub state: BitcaskView,
    pub disk: Directory,
    pub names: Seq<Seq<char>>,
}

/// One step of a session: a `put` of `key` and the value, or a `remove` of
/// `key` where there is no value; the stream position at which it was called
/// and the append that it gave.
pub struct Step {
    pub key: Seq<char>,
    pub value: Option<Seq<char>>,
    pub cursor: u64,
    pub append: AppendView,
}

/// The world after the append of a step is performed and committed.
pub open spec fn advanced(world: World, step: Step) -> World {
    World {
        state: committed(world.state, step.append),
        disk: performed(world.disk, step.append),
        names: listed_after(world.names, step.append),
    }
}

/// The world after the steps of a session, one after the other.
pub open spec fn run(world: World, steps: Seq<Step>) -> World
    decreases steps.len(),
{
    if steps.len() == 0 {
        world
    } else {
        run(advanced(world, steps[0]), steps.drop_first())
    }
}

/// A step that recovery can follow: its append is one that `put` or `remove`
/// gave in this world and fits the directory; a value written is not the
/// tombstone, and the write is later than the record that the keydir holds
/// for the key.
pub open spec fn followable(world: World, step: Step) -> bool {
    &&& fits(world.state, world.disk, step.append, step.cursor)
    &&& match step.value {
        Some(value) => {
            &&& put_planned(world.state, step.key, value, step.cursor, step.append)
            &&& value != TOMBSTONE_VALUE@
            &&& world.state.index.contains_key(step.key)
                ==> step.append.entry.timestamp.later_than(
                world.state.index[step.key].timestamp,
            )
        },
        None => remove_planned(world.state, step.key, step.cursor, step.append),
    }
}

/// Every step of the session can be followed in the world that the steps
/// before it leave.
pub open spec fn session(world: World, steps: Seq<Step>) -> bool
    decreases steps.len(),
{
    steps.len() == 0 || (followable(world, steps[0]) && session(
        advanced(world, steps[0]),
        steps.drop_first(),
    ))
}

/// Recovery idempotence, for a whole session. After any sequence of writes
/// and deletions that recovery can follow, the directory is recoverable to
/// the state that the engine holds: reopening it gives the same keydir, so
/// the same live keys and the same place for each.
pub proof fn lemma_session_recoverable(world: World, steps: Seq<Step>)
    requires
        recoverable(world.state, world.disk, world.names),
        session(world, steps),
    ensures
        recoverable(
            run(world, steps).state,
            run(world, steps).disk,
            run(world, steps).names,
        ),
    decreases steps.len(),
{
    if steps.len() > 0 {
        let step = steps[0];
        match step.value {
            Some(value) => {
                lemma_put_recoverable(
                    world.state,
                    world.disk,
                    world.names,
                    step.key,
                    value,
                    step.cursor,
                    step.append,
                );
            },
            None => {
                lemma_remove_recoverable(
                    world.state,
                    world.disk,
                    world.names,
                    step.key,
                    step.cursor,
                    step.append,
                );
            },
        }
        lemma_session_recoverable(advanced(world, step), steps.drop_first());
    }
}

/// The names stay in the order of replay over an append, if the archive of
/// a rotation may be replayed after every archive there is.
pub proof fn lemma_listed_after_in_order(names: Seq<Seq<char>>, append: AppendView)
    requires
        names.len() > 0,
        names.last() == ACTIVE_SEGMENT@,
        in_replay_order(names),
        append.archive matches Some(name) ==> name != ACTIVE_SEGMENT@ && forall|i: int|
            0 <= i < names.len() - 1 ==> goes_before(#[trigger] names[i], name),
    ensures
        in_replay_order(listed_after(names, append)),
{
    match append.archive {
        Some(name) => {
            let after = listed_after(names, append);
            assert forall|i: int, j: int| 0 <= i < j < after.len() implies goes_before(
                after[i],
                after[j],
            ) by {
                if j < names.len() - 1 {
                    assert(goes_before(names[i], names[j]));
                } else if j == names.len() - 1 {
                    assert(goes_before(names[i], name));
                }
            }
        },
        None => {},
    }
}

/// Recovery idempotence, from the files as they are listed. Let the
/// directory be recoverable with its names in the order of replay, which is
/// so as long as each archive is named later than the archives before it.
/// Then whatever the order in which the directory lists its segments, the
/// names put into the order of replay are the names as recovery needs them:
/// opening the engine on the segments in that order gives the state that
/// the engine held.
pub proof fn lemma_reopen_restores(
    state: BitcaskView,
    disk: Directory,
    names: Seq<Seq<char>>,
    ordered: Seq<Seq<char>>,
)
    requires
        recoverable(state, disk, names),
        in_replay_order(names),
        in_replay_order(ordered),
        ordered.to_multiset() == names.to_multiset(),
    ensures
        ordered == names,
        all_records(listing(disk, ordered), 0) is Ok,
        replay(Map::empty(), all_records(listing(disk, ordered), 0)->Ok_0) == state.index,
        active_length(listing(disk, ordered), 0) == state.offset,
{
    lemma_replay_order_unique(names, ordered);
    lemma_recovery_restores(state, disk, names);
}

} // verus!
