//! The data directory as a mathematical value, and what the engine's
//! operations guarantee of it.
//!
//! The engine never sees the disk: the caller performs each append. The laws
//! of this module say what holds when the caller does so faithfully, that is
//! when the directory after an append is [`performed`] of the directory
//! before.

use vstd::prelude::*;
use crate::engine::archive_name;
use crate::engine::committed;
use crate::engine::planned;
use crate::engine::planned_write;
use crate::engine::put_planned;
use crate::engine::remove_planned;
use crate::engine::rotates;
use crate::engine::write_position;
use crate::engine::AppendView;
use crate::engine::BitcaskView;
use crate::engine::ACTIVE_SEGMENT;
use crate::engine::SEGMENT_ID_LEN;
use crate::json::on_one_line;
use crate::json::NEWLINE;
use crate::keydir::KeydirValView;
use crate::record::decoded;
use crate::record::lemma_record_is_one_line;
use crate::record::reads_back;
use crate::record::record_bytes;
use crate::record::PairView;
use crate::record::TOMBSTONE_VALUE;
use crate::timestamp::Timestamp;

verus! {

/// A data directory: the bytes of each segment, by name.
pub type Directory = Map<Seq<char>, Seq<u8>>;

/// The directory after an append is performed: on a rotation the active
/// segment is copied to the archive and emptied; then the line and a newline
/// are added to the active segment.
pub open spec fn performed(disk: Directory, append: AppendView) -> Directory {
    let rotated = match append.archive {
        Some(name) => disk.insert(name, disk[ACTIVE_SEGMENT@]).insert(
            ACTIVE_SEGMENT@,
            Seq::empty(),
        ),
        None => disk,
    };
    rotated.insert(ACTIVE_SEGMENT@, rotated[ACTIVE_SEGMENT@] + append.line + seq![NEWLINE])
}

/// The bytes that an entry of the keydir points to, if they are there.
pub open spec fn bytes_at(disk: Directory, entry: KeydirValView) -> Option<Seq<u8>> {
    if disk.contains_key(entry.file_id) && entry.entry_pos + entry.entry_size
        <= disk[entry.file_id].len() {
        Some(
            disk[entry.file_id].subrange(
                entry.entry_pos as int,
                entry.entry_pos + entry.entry_size,
            ),
        )
    } else {
        None
    }
}

/// The record that an entry of the keydir points to, if its bytes are there
/// and are a record.
pub open spec fn stored(disk: Directory, entry: KeydirValView) -> Option<PairView> {
    match bytes_at(disk, entry) {
        Some(bytes) => decoded(bytes),
        None => None,
    }
}

/// Every entry of the index points to a record of its key.
pub open spec fn grounded(index: Map<Seq<char>, KeydirValView>, disk: Directory) -> bool {
    forall|k: Seq<char>| #[trigger]
        index.contains_key(k) ==> stored(disk, index[k]) is Some && stored(disk, index[k])->0.key
            == k
}

/// The engine and the directory agree: the write offset is the length of the
/// active segment, and every entry of the keydir points to a record of its
/// key.
pub open spec fn consistent(state: BitcaskView, disk: Directory) -> bool {
    &&& disk.contains_key(ACTIVE_SEGMENT@)
    &&& state.offset == disk[ACTIVE_SEGMENT@].len()
    &&& grounded(state.index, disk)
}

/// An append can be performed on the directory as the engine expects: the
/// stream position does not lie beyond the write offset, the line leaves
/// room for its newline, and a rotation would write a segment that does not
/// exist yet.
pub open spec fn performable(
    state: BitcaskView,
    disk: Directory,
    line: Seq<u8>,
    cursor: u64,
    id: Seq<char>,
) -> bool {
    &&& cursor <= state.offset
    &&& line.len() < usize::MAX
    &&& id.len() == SEGMENT_ID_LEN
    &&& rotates(write_position(state.offset, cursor), line.len()) ==> !disk.contains_key(
        archive_name(id),
    )
}

/// What an append keeps of the active segment: nothing when it rotates, all
/// of it otherwise.
pub open spec fn kept(disk: Directory, append: AppendView) -> Seq<u8> {
    if append.archive is Some {
        Seq::empty()
    } else {
        disk[ACTIVE_SEGMENT@]
    }
}

/// An append fits the directory: the stream position at which it was planned
/// does not lie beyond the write offset, the line leaves room for its
/// newline, and a rotation would write a segment that does not exist yet.
pub open spec fn fits(state: BitcaskView, disk: Directory, append: AppendView, cursor: u64) -> bool {
    &&& cursor <= state.offset
    &&& append.line.len() < usize::MAX
    &&& append.archive matches Some(name) ==> !disk.contains_key(name)
}

/// Where an entry lies after an append: in the archive, if the append
/// rotates and the entry lay in the active segment; where it lay, otherwise.
pub open spec fn place_after(entry: KeydirValView, append: AppendView) -> KeydirValView {
    match append.archive {
        Some(name) => entry.moved(ACTIVE_SEGMENT@, name),
        None => entry,
    }
}

/// The name of an archive is never the name of the active segment.
pub proof fn lemma_archive_is_not_active(id: Seq<char>)
    requires
        id.len() == SEGMENT_ID_LEN,
    ensures
        archive_name(id) != ACTIVE_SEGMENT@,
        archive_name(id).len() == SEGMENT_ID_LEN + 4,
{
    reveal_strlit("activelog.btk");
    reveal_strlit(".btk");
}

/// An append that is performed puts its line where its entry says, leaves
/// the bytes of every other entry where the keydir then looks for them, and
/// leaves the write offset at the end of the active segment.
pub proof fn lemma_append_performed(
    state: BitcaskView,
    disk: Directory,
    key: Seq<char>,
    line: Seq<u8>,
    timestamp: Timestamp,
    deletes: bool,
    cursor: u64,
    id: Seq<char>,
)
    requires
        consistent(state, disk),
        performable(state, disk, line, cursor, id),
    ensures
        ({
            let append = planned(state, key, line, timestamp, deletes, cursor, id);
            let after = committed(state, append);
            let disk_after = performed(disk, append);
            &&& disk_after.contains_key(ACTIVE_SEGMENT@)
            &&& after.offset == disk_after[ACTIVE_SEGMENT@].len()
            &&& bytes_at(disk_after, append.entry) == Some(line)
            &&& disk_after[ACTIVE_SEGMENT@] == kept(disk, append) + line + seq![NEWLINE]
            &&& append.entry.entry_pos == kept(disk, append).len()
            &&& forall|name: Seq<char>|
                disk.contains_key(name) && name != ACTIVE_SEGMENT@ ==> #[trigger] disk_after[name]
                    == disk[name]
            &&& forall|name: Seq<char>| #[trigger]
                disk_after.contains_key(name) <==> disk.contains_key(name) || append.archive
                    == Some(name)
            &&& forall|k: Seq<char>| #[trigger]
                state.index.contains_key(k) ==> bytes_at(
                    disk_after,
                    place_after(state.index[k], append),
                ) == bytes_at(disk, state.index[k])
            &&& forall|k: Seq<char>| #[trigger]
                state.index.contains_key(k) && k != key ==> after.index.contains_key(k)
                    && after.index[k] == place_after(state.index[k], append)
            &&& forall|k: Seq<char>| #[trigger]
                after.index.contains_key(k) ==> k == key || state.index.contains_key(k)
        }),
{
    let append = planned(state, key, line, timestamp, deletes, cursor, id);
    let after = committed(state, append);
    let disk_after = performed(disk, append);
    let active = ACTIVE_SEGMENT@;
    lemma_archive_is_not_active(id);
    let old_active = disk[active];
    match append.archive {
        Some(name) => {
            assert(disk_after[active] == Seq::<u8>::empty() + line + seq![NEWLINE]);
            assert(disk_after[active].subrange(0, line.len() as int) == line);
            assert forall|k: Seq<char>| #[trigger] state.index.contains_key(k) implies bytes_at(
                disk_after,
                place_after(state.index[k], append),
            ) == bytes_at(disk, state.index[k]) by {
                let entry = state.index[k];
                assert(stored(disk, entry) is Some);
                assert(disk.contains_key(entry.file_id));
            }
        },
        None => {
            assert(disk_after[active] == old_active + line + seq![NEWLINE]);
            assert(disk_after[active].subrange(
                old_active.len() as int,
                (old_active.len() + line.len()) as int,
            ) == line);
            assert forall|k: Seq<char>| #[trigger] state.index.contains_key(k) implies bytes_at(
                disk_after,
                place_after(state.index[k], append),
            ) == bytes_at(disk, state.index[k]) by {
                let entry = state.index[k];
                assert(stored(disk, entry) is Some);
                if entry.file_id == active {
                    assert(disk_after[active].subrange(
                        entry.entry_pos as int,
                        entry.entry_pos + entry.entry_size,
                    ) == old_active.subrange(
                        entry.entry_pos as int,
                        entry.entry_pos + entry.entry_size,
                    ));
                }
            }
        },
    }
}

/// After an append the engine and the directory agree again, given that the
/// line written is a record of the key.
pub proof fn lemma_append_keeps_consistent(
    state: BitcaskView,
    disk: Directory,
    key: Seq<char>,
    line: Seq<u8>,
    timestamp: Timestamp,
    deletes: bool,
    cursor: u64,
    id: Seq<char>,
)
    requires
        consistent(state, disk),
        performable(state, disk, line, cursor, id),
        decoded(line) is Some,
        decoded(line)->0.key == key,
    ensures
        consistent(
            committed(state, planned(state, key, line, timestamp, deletes, cursor, id)),
            performed(disk, planned(state, key, line, timestamp, deletes, cursor, id)),
        ),
{
    let append = planned(state, key, line, timestamp, deletes, cursor, id);
    let after = committed(state, append);
    let disk_after = performed(disk, append);
    lemma_append_performed(state, disk, key, line, timestamp, deletes, cursor, id);
    assert forall|k: Seq<char>| #[trigger] after.index.contains_key(k) implies stored(
        disk_after,
        after.index[k],
    ) is Some && stored(disk_after, after.index[k])->0.key == k by {
        if k == key {
            assert(after.index[k] == append.entry);
        } else {
            assert(state.index.contains_key(k));
            assert(after.index[k] == place_after(state.index[k], append));
        }
    }
}

/// The round trip for a write at a given time with a given identifier, the
/// line of which decodes to the record again.
proof fn lemma_put_then_get_at(
    state: BitcaskView,
    disk: Directory,
    key: Seq<char>,
    value: Seq<char>,
    timestamp: Timestamp,
    cursor: u64,
    id: Seq<char>,
)
    requires
        consistent(state, disk),
        performable(state, disk, record_bytes(PairView::of(key, value, timestamp)), cursor, id),
        decoded(record_bytes(PairView::of(key, value, timestamp))) == Some(
            PairView::of(key, value, timestamp),
        ),
    ensures
        ({
            let pair = PairView::of(key, value, timestamp);
            let append = planned(state, key, record_bytes(pair), timestamp, false, cursor, id);
            let after = committed(state, append);
            let disk_after = performed(disk, append);
            &&& consistent(after, disk_after)
            &&& after.index.contains_key(key)
            &&& bytes_at(disk_after, after.index[key]) == Some(record_bytes(pair))
            &&& stored(disk_after, after.index[key]) == Some(pair)
            &&& stored(disk_after, after.index[key])->0.key == key
            &&& stored(disk_after, after.index[key])->0.value == value
        }),
{
    let pair = PairView::of(key, value, timestamp);
    let line = record_bytes(pair);
    lemma_append_performed(state, disk, key, line, timestamp, false, cursor, id);
    lemma_append_keeps_consistent(state, disk, key, line, timestamp, false, cursor, id);
}

/// Two writes of one key at given times with given identifiers, the lines
/// of which decode to their records again: the second wins, the first stays
/// on disk.
proof fn lemma_last_write_wins_at(
    state: BitcaskView,
    disk: Directory,
    key: Seq<char>,
    first: Seq<char>,
    first_time: Timestamp,
    first_cursor: u64,
    first_id: Seq<char>,
    second: Seq<char>,
    second_time: Timestamp,
    second_cursor: u64,
    second_id: Seq<char>,
)
    requires
        consistent(state, disk),
        performable(
            state,
            disk,
            record_bytes(PairView::of(key, first, first_time)),
            first_cursor,
            first_id,
        ),
        decoded(record_bytes(PairView::of(key, first, first_time))) == Some(
            PairView::of(key, first, first_time),
        ),
        decoded(record_bytes(PairView::of(key, second, second_time))) == Some(
            PairView::of(key, second, second_time),
        ),
        ({
            let one = planned(
                state,
                key,
                record_bytes(PairView::of(key, first, first_time)),
                first_time,
                false,
                first_cursor,
                first_id,
            );
            performable(
                committed(state, one),
                performed(disk, one),
                record_bytes(PairView::of(key, second, second_time)),
                second_cursor,
                second_id,
            )
        }),
    ensures
        ({
            let first_line = record_bytes(PairView::of(key, first, first_time));
            let second_line = record_bytes(PairView::of(key, second, second_time));
            let one = planned(state, key, first_line, first_time, false, first_cursor, first_id);
            let middle = committed(state, one);
            let disk_middle = performed(disk, one);
            let two = planned(
                middle,
                key,
                second_line,
                second_time,
                false,
                second_cursor,
                second_id,
            );
            let after = committed(middle, two);
            let disk_after = performed(disk_middle, two);
            &&& consistent(after, disk_after)
            &&& after.index.contains_key(key)
            &&& stored(disk_after, after.index[key]) == Some(PairView::of(key, second, second_time))
            &&& bytes_at(disk_after, place_after(middle.index[key], two)) == Some(first_line)
            &&& after.index[key] != place_after(middle.index[key], two)
        }),
{
    let first_line = record_bytes(PairView::of(key, first, first_time));
    let second_line = record_bytes(PairView::of(key, second, second_time));
    let one = planned(state, key, first_line, first_time, false, first_cursor, first_id);
    let middle = committed(state, one);
    let disk_middle = performed(disk, one);
    lemma_put_then_get_at(state, disk, key, first, first_time, first_cursor, first_id);
    lemma_put_then_get_at(middle, disk_middle, key, second, second_time, second_cursor, second_id);
    lemma_append_performed(
        middle,
        disk_middle,
        key,
        second_line,
        second_time,
        false,
        second_cursor,
        second_id,
    );
    lemma_archive_is_not_active(second_id);
    crate::record::lemma_record_is_one_line(PairView::of(key, first, first_time));
}

/// A write and a deletion of one key at given times with given identifiers,
/// the lines of which decode to their records again: the key is gone.
proof fn lemma_remove_hides_at(
    state: BitcaskView,
    disk: Directory,
    key: Seq<char>,
    value: Seq<char>,
    put_time: Timestamp,
    put_cursor: u64,
    put_id: Seq<char>,
    remove_time: Timestamp,
    remove_cursor: u64,
    remove_id: Seq<char>,
)
    requires
        consistent(state, disk),
        performable(
            state,
            disk,
            record_bytes(PairView::of(key, value, put_time)),
            put_cursor,
            put_id,
        ),
        decoded(record_bytes(PairView::of(key, value, put_time))) == Some(
            PairView::of(key, value, put_time),
        ),
        decoded(record_bytes(PairView::of(key, TOMBSTONE_VALUE@, remove_time))) == Some(
            PairView::of(key, TOMBSTONE_VALUE@, remove_time),
        ),
        ({
            let one = planned(
                state,
                key,
                record_bytes(PairView::of(key, value, put_time)),
                put_time,
                false,
                put_cursor,
                put_id,
            );
            performable(
                committed(state, one),
                performed(disk, one),
                record_bytes(PairView::of(key, TOMBSTONE_VALUE@, remove_time)),
                remove_cursor,
                remove_id,
            )
        }),
    ensures
        ({
            let one = planned(
                state,
                key,
                record_bytes(PairView::of(key, value, put_time)),
                put_time,
                false,
                put_cursor,
                put_id,
            );
            let middle = committed(state, one);
            let two = planned(
                middle,
                key,
                record_bytes(PairView::of(key, TOMBSTONE_VALUE@, remove_time)),
                remove_time,
                true,
                remove_cursor,
                remove_id,
            );
            &&& middle.index.contains_key(key)
            &&& !committed(middle, two).index.contains_key(key)
            &&& consistent(committed(middle, two), performed(performed(disk, one), two))
        }),
{
    let one = planned(
        state,
        key,
        record_bytes(PairView::of(key, value, put_time)),
        put_time,
        false,
        put_cursor,
        put_id,
    );
    lemma_put_then_get_at(state, disk, key, value, put_time, put_cursor, put_id);
    lemma_append_keeps_consistent(
        committed(state, one),
        performed(disk, one),
        key,
        record_bytes(PairView::of(key, TOMBSTONE_VALUE@, remove_time)),
        remove_time,
        true,
        remove_cursor,
        remove_id,
    );
}

/// Rotation preserves data. When an append rotates, every other key that was
/// live stays live and points to the same record as before; what lay in the
/// active segment is now read from the archive, at the same offset.
pub proof fn lemma_rotation_preserves(
    state: BitcaskView,
    disk: Directory,
    key: Seq<char>,
    line: Seq<u8>,
    timestamp: Timestamp,
    deletes: bool,
    cursor: u64,
    id: Seq<char>,
)
    requires
        consistent(state, disk),
        performable(state, disk, line, cursor, id),
        rotates(write_position(state.offset, cursor), line.len()),
    ensures
        ({
            let append = planned(state, key, line, timestamp, deletes, cursor, id);
            let after = committed(state, append);
            let disk_after = performed(disk, append);
            &&& append.archive == Some(archive_name(id))
            &&& archive_name(id) != ACTIVE_SEGMENT@
            &&& forall|name: Seq<char>| #[trigger]
                disk_after.contains_key(name) <==> disk.contains_key(name) || name
                    == archive_name(id)
            &&& disk_after[archive_name(id)] == disk[ACTIVE_SEGMENT@]
            &&& disk_after[ACTIVE_SEGMENT@] == line + seq![NEWLINE]
            &&& forall|name: Seq<char>|
                disk.contains_key(name) && name != ACTIVE_SEGMENT@ ==> #[trigger] disk_after[name]
                    == disk[name]
            &&& append.entry.entry_pos == 0
            &&& append.entry.file_id == ACTIVE_SEGMENT@
            &&& bytes_at(disk_after, append.entry) == Some(line)
            &&& forall|k: Seq<char>| #[trigger]
                state.index.contains_key(k) && k != key ==> {
                    &&& after.index.contains_key(k)
                    &&& bytes_at(disk_after, after.index[k]) is Some
                    &&& stored(disk_after, after.index[k]) == stored(disk, state.index[k])
                    &&& after.index[k].file_id != ACTIVE_SEGMENT@
                    &&& state.index[k].file_id == ACTIVE_SEGMENT@ ==> after.index[k]
                        == (KeydirValView { file_id: archive_name(id), ..state.index[k] })
                    &&& state.index[k].file_id != ACTIVE_SEGMENT@ ==> after.index[k]
                        == state.index[k]
                }
        }),
{
    lemma_append_performed(state, disk, key, line, timestamp, deletes, cursor, id);
    lemma_archive_is_not_active(id);
    let append = planned(state, key, line, timestamp, deletes, cursor, id);
    assert(Seq::<u8>::empty() + line + seq![NEWLINE] == line + seq![NEWLINE]);
    assert forall|k: Seq<char>| #[trigger] state.index.contains_key(k) && k != key implies bytes_at(
        performed(disk, append),
        committed(state, append).index[k],
    ) is Some by {
        assert(stored(disk, state.index[k]) is Some);
    }
}

/// The time and the identifier with which an append that `put` gave was
/// planned.
pub proof fn lemma_put_witness(
    state: BitcaskView,
    key: Seq<char>,
    value: Seq<char>,
    cursor: u64,
    append: AppendView,
) -> (with: (Timestamp, Seq<char>))
    requires
        put_planned(state, key, value, cursor, append),
    ensures
        with.0.wf(),
        with.0 == append.entry.timestamp,
        with.1.len() == SEGMENT_ID_LEN,
        reads_back(PairView::of(key, value, with.0)),
        append == planned(
            state,
            key,
            record_bytes(PairView::of(key, value, with.0)),
            with.0,
            false,
            cursor,
            with.1,
        ),
{
    let timestamp = choose|timestamp: Timestamp|
        timestamp.wf() && reads_back(PairView::of(key, value, timestamp)) && #[trigger] planned_write(
            state,
            PairView::of(key, value, timestamp),
            false,
            cursor,
            append,
        );
    let pair = PairView::of(key, value, timestamp);
    let id = choose|id: Seq<char>|
        id.len() == SEGMENT_ID_LEN && append == #[trigger] planned(
            state,
            pair.key,
            record_bytes(pair),
            pair.timestamp,
            false,
            cursor,
            id,
        );
    (timestamp, id)
}

/// The time and the identifier with which an append that `remove` gave was
/// planned.
pub proof fn lemma_remove_witness(
    state: BitcaskView,
    key: Seq<char>,
    cursor: u64,
    append: AppendView,
) -> (with: (Timestamp, Seq<char>))
    requires
        remove_planned(state, key, cursor, append),
    ensures
        with.0.wf(),
        with.0 == append.entry.timestamp,
        with.1.len() == SEGMENT_ID_LEN,
        reads_back(PairView::of(key, TOMBSTONE_VALUE@, with.0)),
        append == planned(
            state,
            key,
            record_bytes(PairView::of(key, TOMBSTONE_VALUE@, with.0)),
            with.0,
            true,
            cursor,
            with.1,
        ),
{
    let timestamp = choose|timestamp: Timestamp|
        timestamp.wf() && reads_back(PairView::of(key, TOMBSTONE_VALUE@, timestamp))
            && #[trigger] planned_write(
            state,
            PairView::of(key, TOMBSTONE_VALUE@, timestamp),
            true,
            cursor,
            append,
        );
    let pair = PairView::of(key, TOMBSTONE_VALUE@, timestamp);
    let id = choose|id: Seq<char>|
        id.len() == SEGMENT_ID_LEN && append == #[trigger] planned(
            state,
            pair.key,
            record_bytes(pair),
            pair.timestamp,
            true,
            cursor,
            id,
        );
    (timestamp, id)
}

/// Round trip. After a `put(key, value)` that succeeded, its append
/// performed and committed, the keydir holds the key, and the bytes that its
/// entry points to are the line written: one line without a newline in it,
/// followed by a newline, that decodes to the record of `key` and `value`
/// with their lengths. So `get` returns the value. The engine and the
/// directory agree as before.
pub proof fn lemma_put_then_get(
    state: BitcaskView,
    disk: Directory,
    key: Seq<char>,
    value: Seq<char>,
    cursor: u64,
    append: AppendView,
)
    requires
        consistent(state, disk),
        put_planned(state, key, value, cursor, append),
        fits(state, disk, append, cursor),
    ensures
        ({
            let after = committed(state, append);
            let disk_after = performed(disk, append);
            &&& consistent(after, disk_after)
            &&& after.index.contains_key(key)
            &&& after.index[key] == append.entry
            &&& append.entry.file_id == ACTIVE_SEGMENT@
            &&& bytes_at(disk_after, after.index[key]) == Some(append.line)
            &&& on_one_line(append.line)
            &&& disk_after[ACTIVE_SEGMENT@][append.entry.entry_pos + append.entry.entry_size]
                == NEWLINE
            &&& stored(disk_after, after.index[key]) == Some(
                PairView::of(key, value, append.entry.timestamp),
            )
            &&& stored(disk_after, after.index[key])->0.key == key
            &&& stored(disk_after, after.index[key])->0.value == value
        }),
{
    let with = lemma_put_witness(state, key, value, cursor, append);
    let pair = PairView::of(key, value, with.0);
    lemma_put_then_get_at(state, disk, key, value, with.0, cursor, with.1);
    lemma_append_performed(state, disk, key, record_bytes(pair), with.0, false, cursor, with.1);
    lemma_record_is_one_line(pair);
}

/// Last write wins. After `put(key, first)` and `put(key, second)` the
/// keydir's one entry of the key is that of the second append and points to
/// the record of `second`. The record of `first` is still on disk where it
/// was written, or at the same offset of the archive if the second write
/// rotated, and the keydir no longer points to it. Without a rotation the
/// second record lies behind the first and its newline, and the active
/// segment has only grown.
pub proof fn lemma_last_write_wins(
    state: BitcaskView,
    disk: Directory,
    key: Seq<char>,
    first: Seq<char>,
    first_cursor: u64,
    one: AppendView,
    second: Seq<char>,
    second_cursor: u64,
    two: AppendView,
)
    requires
        consistent(state, disk),
        put_planned(state, key, first, first_cursor, one),
        fits(state, disk, one, first_cursor),
        put_planned(committed(state, one), key, second, second_cursor, two),
        fits(committed(state, one), performed(disk, one), two, second_cursor),
    ensures
        ({
            let middle = committed(state, one);
            let disk_middle = performed(disk, one);
            let after = committed(middle, two);
            let disk_after = performed(disk_middle, two);
            &&& consistent(after, disk_after)
            &&& after.index.contains_key(key)
            &&& after.index[key] == two.entry
            &&& stored(disk_after, after.index[key]) == Some(
                PairView::of(key, second, two.entry.timestamp),
            )
            &&& bytes_at(disk_after, place_after(one.entry, two)) == Some(one.line)
            &&& stored(disk_after, place_after(one.entry, two)) == Some(
                PairView::of(key, first, one.entry.timestamp),
            )
            &&& after.index[key] != place_after(one.entry, two)
            &&& two.archive is None ==> {
                &&& two.entry.entry_pos == one.entry.entry_pos + one.entry.entry_size + 1
                &&& disk_after[ACTIVE_SEGMENT@] == disk_middle[ACTIVE_SEGMENT@] + two.line
                    + seq![NEWLINE]
            }
        }),
{
    let middle = committed(state, one);
    let disk_middle = performed(disk, one);
    let a = lemma_put_witness(state, key, first, first_cursor, one);
    let b = lemma_put_witness(middle, key, second, second_cursor, two);
    lemma_put_then_get(state, disk, key, first, first_cursor, one);
    lemma_put_then_get(middle, disk_middle, key, second, second_cursor, two);
    lemma_last_write_wins_at(
        state,
        disk,
        key,
        first,
        a.0,
        first_cursor,
        a.1,
        second,
        b.0,
        second_cursor,
        b.1,
    );
    lemma_append_performed(
        state,
        disk,
        key,
        record_bytes(PairView::of(key, first, a.0)),
        a.0,
        false,
        first_cursor,
        a.1,
    );
    lemma_append_performed(
        middle,
        disk_middle,
        key,
        record_bytes(PairView::of(key, second, b.0)),
        b.0,
        false,
        second_cursor,
        b.1,
    );
}

/// Deletion removes visibility. After `put(key, value)` and `remove(key)`
/// the keydir does not hold the key, so `get` returns nothing and a second
/// `remove` is refused; the engine and the directory still agree.
pub proof fn lemma_remove_hides(
    state: BitcaskView,
    disk: Directory,
    key: Seq<char>,
    value: Seq<char>,
    put_cursor: u64,
    one: AppendView,
    remove_cursor: u64,
    two: AppendView,
)
    requires
        consistent(state, disk),
        put_planned(state, key, value, put_cursor, one),
        fits(state, disk, one, put_cursor),
        remove_planned(committed(state, one), key, remove_cursor, two),
        fits(committed(state, one), performed(disk, one), two, remove_cursor),
    ensures
        committed(state, one).index.contains_key(key),
        !committed(committed(state, one), two).index.contains_key(key),
        consistent(committed(committed(state, one), two), performed(performed(disk, one), two)),
{
    let a = lemma_put_witness(state, key, value, put_cursor, one);
    let b = lemma_remove_witness(committed(state, one), key, remove_cursor, two);
    lemma_remove_hides_at(state, disk, key, value, a.0, put_cursor, a.1, b.0, remove_cursor, b.1);
}

/// Two entries lie in the same segment and share a byte.
pub open spec fn overlap(a: KeydirValView, b: KeydirValView) -> bool {
    &&& a.file_id == b.file_id
    &&& a.entry_pos < b.entry_pos + b.entry_size
    &&& b.entry_pos < a.entry_pos + a.entry_size
}

/// The record of an append lies apart from every record that the keydir
/// pointed to before: in the active segment it begins where they have all
/// ended.
pub proof fn lemma_append_lies_apart(
    state: BitcaskView,
    disk: Directory,
    key: Seq<char>,
    line: Seq<u8>,
    timestamp: Timestamp,
    deletes: bool,
    cursor: u64,
    id: Seq<char>,
)
    requires
        consistent(state, disk),
        performable(state, disk, line, cursor, id),
    ensures
        forall|k: Seq<char>| #[trigger]
            state.index.contains_key(k) ==> !overlap(
                place_after(
                    state.index[k],
                    planned(state, key, line, timestamp, deletes, cursor, id),
                ),
                planned(state, key, line, timestamp, deletes, cursor, id).entry,
            ),
{
    let append = planned(state, key, line, timestamp, deletes, cursor, id);
    lemma_archive_is_not_active(id);
    assert forall|k: Seq<char>| #[trigger] state.index.contains_key(k) implies !overlap(
        place_after(state.index[k], append),
        append.entry,
    ) by {
        assert(stored(disk, state.index[k]) is Some);
        assert(bytes_at(disk, state.index[k]) is Some);
    }
}

/// Two entries that lie apart still do after an append, wherever it moves
/// them.
pub proof fn lemma_moved_apart(
    disk: Directory,
    a: KeydirValView,
    b: KeydirValView,
    append: AppendView,
)
    requires
        !overlap(a, b),
        disk.contains_key(a.file_id),
        disk.contains_key(b.file_id),
        append.archive matches Some(name) ==> !disk.contains_key(name),
    ensures
        !overlap(place_after(a, append), place_after(b, append)),
{
}

/// After two writes of one key, no entry of the keydir shares a byte with
/// the first record: nothing reaches it any more.
pub proof fn lemma_first_write_unreachable(
    state: BitcaskView,
    disk: Directory,
    key: Seq<char>,
    first: Seq<char>,
    first_cursor: u64,
    one: AppendView,
    second: Seq<char>,
    second_cursor: u64,
    two: AppendView,
)
    requires
        consistent(state, disk),
        put_planned(state, key, first, first_cursor, one),
        fits(state, disk, one, first_cursor),
        put_planned(committed(state, one), key, second, second_cursor, two),
        fits(committed(state, one), performed(disk, one), two, second_cursor),
    ensures
        forall|k: Seq<char>| #[trigger]
            committed(committed(state, one), two).index.contains_key(k) ==> !overlap(
                committed(committed(state, one), two).index[k],
                place_after(one.entry, two),
            ),
{
    let middle = committed(state, one);
    let disk_middle = performed(disk, one);
    let after = committed(middle, two);
    let a = lemma_put_witness(state, key, first, first_cursor, one);
    let b = lemma_put_witness(middle, key, second, second_cursor, two);
    let first_line = record_bytes(PairView::of(key, first, a.0));
    let second_line = record_bytes(PairView::of(key, second, b.0));
    lemma_put_then_get(state, disk, key, first, first_cursor, one);
    lemma_append_performed(state, disk, key, first_line, a.0, false, first_cursor, a.1);
    lemma_append_lies_apart(state, disk, key, first_line, a.0, false, first_cursor, a.1);
    lemma_append_performed(middle, disk_middle, key, second_line, b.0, false, second_cursor, b.1);
    lemma_append_lies_apart(middle, disk_middle, key, second_line, b.0, false, second_cursor, b.1);
    assert(middle.index[key] == one.entry);
    assert forall|k: Seq<char>| #[trigger] after.index.contains_key(k) implies !overlap(
        after.index[k],
        place_after(one.entry, two),
    ) by {
        if k == key {
            assert(after.index[k] == two.entry);
            assert(!overlap(place_after(middle.index[key], two), two.entry));
        } else {
            assert(middle.index.contains_key(k));
            assert(state.index.contains_key(k));
            assert(after.index[k] == place_after(middle.index[k], two));
            assert(middle.index[k] == place_after(state.index[k], one));
            assert(!overlap(middle.index[k], one.entry));
            assert(stored(disk_middle, middle.index[k]) is Some);
            assert(stored(disk_middle, middle.index[key]) is Some);
            lemma_moved_apart(disk_middle, middle.index[k], one.entry, two);
        }
    }
}

} // verus!
