use bitcask::engine::Append;
use bitcask::engine::Bitcask;
use bitcask::engine::RemoveError;
use bitcask::engine::ACTIVE_SEGMENT;
use bitcask::engine::MAX_BYTE_SIZE;
use bitcask::keydir::KeydirVal;
use bitcask::replay::Segment;
use bitcask::timestamp::Timestamp;

/// A data directory held in memory: segment names and contents, in listing
/// order.
struct Dir {
    files: Vec<(String, Vec<u8>)>,
}

impl Dir {
    fn new() -> Dir {
        Dir { files: vec![(ACTIVE_SEGMENT.to_string(), Vec::new())] }
    }

    fn content(&self, name: &str) -> &Vec<u8> {
        &self.files.iter().find(|f| f.0 == name).expect("segment exists").1
    }

    fn cursor(&self) -> u64 {
        self.content(ACTIVE_SEGMENT).len() as u64
    }

    fn perform(&mut self, append: &Append) {
        if let Some(name) = &append.archive {
            let at = self.files.iter().position(|f| f.0 == ACTIVE_SEGMENT).unwrap();
            let old = std::mem::take(&mut self.files[at].1);
            self.files.insert(at, (name.clone(), old));
        }
        let at = self.files.iter().position(|f| f.0 == ACTIVE_SEGMENT).unwrap();
        self.files[at].1.extend_from_slice(&append.line);
        self.files[at].1.push(b'\n');
    }

    fn read(&self, entry: &KeydirVal) -> Vec<u8> {
        let start = entry.entry_pos as usize;
        self.content(&entry.file_id)[start..start + entry.entry_size].to_vec()
    }

    fn segments(&self) -> Vec<Segment> {
        self.files
            .iter()
            .map(|f| Segment { name: f.0.clone(), content: String::from_utf8(f.1.clone()).unwrap() })
            .collect()
    }
}

fn put(store: &mut Bitcask, dir: &mut Dir, key: &str, value: &str) {
    let append = store.put(key, value, dir.cursor()).expect("put");
    dir.perform(&append);
    store.commit(&append);
}

fn remove(store: &mut Bitcask, dir: &mut Dir, key: &str) -> Result<(), RemoveError> {
    let append = store.remove(key, dir.cursor())?;
    dir.perform(&append);
    store.commit(&append);
    Ok(())
}

fn get(store: &Bitcask, dir: &Dir, key: &str) -> Option<String> {
    store.get(key).map(|entry| Bitcask::value_of(&dir.read(&entry)).expect("readable"))
}

fn sorted_keys(store: &Bitcask) -> Vec<String> {
    let mut keys = store.list_keys();
    keys.sort();
    keys
}

#[test]
fn open_on_an_empty_directory_gives_an_empty_keydir() {
    let dir = Dir::new();
    let store = Bitcask::open(&dir.segments()).expect("open");
    assert!(store.list_keys().is_empty());
    assert_eq!(store.offset(), 0);
    assert!(store.get("a").is_none());
}

#[test]
fn put_then_get_returns_the_value() {
    let mut dir = Dir::new();
    let mut store = Bitcask::open(&dir.segments()).unwrap();
    put(&mut store, &mut dir, "a", "1");
    assert_eq!(get(&store, &dir, "a"), Some("1".to_string()));
    let entry = store.get("a").unwrap();
    assert_eq!(entry.entry_pos, 0);
    assert_eq!(entry.file_id, ACTIVE_SEGMENT);
    assert_eq!(entry.entry_size as u64 + 1, dir.cursor());
    assert_eq!(store.offset(), dir.cursor());
}

#[test]
fn the_last_write_wins_and_the_first_stays_on_disk() {
    let mut dir = Dir::new();
    let mut store = Bitcask::open(&dir.segments()).unwrap();
    put(&mut store, &mut dir, "k", "v1");
    let first = store.get("k").unwrap();
    let first_bytes = dir.read(&first);
    put(&mut store, &mut dir, "k", "v2");
    assert_eq!(get(&store, &dir, "k"), Some("v2".to_string()));
    let second = store.get("k").unwrap();
    assert_eq!(second.entry_pos, first.entry_size as u64 + 1);
    assert_eq!(dir.read(&first), first_bytes);
    assert_eq!(Bitcask::value_of(&dir.read(&first)).unwrap(), "v1");
}

#[test]
fn a_removed_key_is_gone_and_cannot_be_removed_again() {
    let mut dir = Dir::new();
    let mut store = Bitcask::open(&dir.segments()).unwrap();
    put(&mut store, &mut dir, "k", "v");
    assert_eq!(remove(&mut store, &mut dir, "k"), Ok(()));
    assert_eq!(get(&store, &dir, "k"), None);
    assert_eq!(remove(&mut store, &mut dir, "k"), Err(RemoveError::NotFound));
}

#[test]
fn removing_a_key_that_was_never_written_is_refused() {
    let dir = Dir::new();
    let store = Bitcask::open(&dir.segments()).unwrap();
    assert!(matches!(store.remove("nobody", 0), Err(RemoveError::NotFound)));
}

#[test]
fn a_session_and_its_recovery() {
    let mut dir = Dir::new();
    let mut store = Bitcask::open(&dir.segments()).unwrap();
    assert!(store.list_keys().is_empty());
    put(&mut store, &mut dir, "a", "1");
    put(&mut store, &mut dir, "b", "2");
    put(&mut store, &mut dir, "a", "3");
    assert_eq!(get(&store, &dir, "a"), Some("3".to_string()));
    assert_eq!(remove(&mut store, &mut dir, "b"), Ok(()));
    assert_eq!(sorted_keys(&store), vec!["a".to_string()]);

    let reopened = Bitcask::open(&dir.segments()).unwrap();
    assert_eq!(get(&reopened, &dir, "a"), Some("3".to_string()));
    assert_eq!(get(&reopened, &dir, "b"), None);
    assert_eq!(sorted_keys(&reopened), vec!["a".to_string()]);
    assert_eq!(reopened.offset(), dir.cursor());
}

#[test]
fn recovery_gives_the_keydir_held_before() {
    let mut dir = Dir::new();
    let mut store = Bitcask::open(&dir.segments()).unwrap();
    for round in 0..3 {
        for n in 0..20 {
            put(&mut store, &mut dir, &format!("key{n}"), &format!("value{n}-{round}"));
        }
        for n in (0..20).step_by(3) {
            remove(&mut store, &mut dir, &format!("key{n}")).unwrap();
        }
    }
    let reopened = Bitcask::open(&dir.segments()).unwrap();
    assert_eq!(sorted_keys(&reopened), sorted_keys(&store));
    for key in store.list_keys() {
        assert_eq!(get(&reopened, &dir, &key), get(&store, &dir, &key));
        let held = store.get(&key).unwrap();
        let rebuilt = reopened.get(&key).unwrap();
        assert_eq!(rebuilt.entry_pos, held.entry_pos);
        assert_eq!(rebuilt.entry_size, held.entry_size);
        assert_eq!(rebuilt.file_id, held.file_id);
        assert_eq!(rebuilt.timestamp, held.timestamp);
    }
}

#[test]
fn rotation_keeps_every_key_readable() {
    let mut dir = Dir::new();
    let mut store = Bitcask::open(&dir.segments()).unwrap();
    let big = "x".repeat(1_000_000);
    for n in 0..7 {
        put(&mut store, &mut dir, &format!("k{n}"), &big);
    }
    assert_eq!(dir.files.len(), 2, "one rotation has happened");
    let archive = dir.files[0].0.clone();
    assert_eq!(archive.len(), 30);
    assert!(archive.ends_with(".btk"));
    assert_ne!(archive, ACTIVE_SEGMENT);
    for n in 0..7 {
        assert_eq!(get(&store, &dir, &format!("k{n}")), Some(big.clone()));
    }
    for n in 0..5 {
        assert_eq!(store.get(&format!("k{n}")).unwrap().file_id, archive);
    }
    assert_eq!(store.get("k5").unwrap().file_id, ACTIVE_SEGMENT);
    assert_eq!(store.get("k5").unwrap().entry_pos, 0);
    assert!((dir.content(&archive).len() as u64) < MAX_BYTE_SIZE);

    let reopened = Bitcask::open(&dir.segments()).unwrap();
    assert_eq!(sorted_keys(&reopened), sorted_keys(&store));
    for n in 0..7 {
        assert_eq!(get(&reopened, &dir, &format!("k{n}")), Some(big.clone()));
    }
}

#[test]
fn plan_rotates_exactly_at_the_limit() {
    let dir = Dir::new();
    let store = Bitcask::open(&dir.segments()).unwrap();
    let time = Timestamp::new(5, 0).unwrap();
    let line = vec![b'x'; 100];

    let below = store.plan("k", line.clone(), time, false, MAX_BYTE_SIZE - 101, "ID");
    assert_eq!(below.archive, None);
    assert_eq!(below.entry.entry_pos, MAX_BYTE_SIZE - 101);
    assert_eq!(below.entry.entry_size, 100);
    assert_eq!(below.entry.file_id, ACTIVE_SEGMENT);
    assert_eq!(below.entry.timestamp, time);
    assert_eq!(below.key, "k");
    assert_eq!(below.line, line);
    assert!(!below.deletes);
    assert!(!store.needs_rotation(100, MAX_BYTE_SIZE - 101));

    let at = store.plan("k", line.clone(), time, true, MAX_BYTE_SIZE - 100, "ID");
    assert_eq!(at.archive, Some("ID.btk".to_string()));
    assert_eq!(at.entry.entry_pos, 0);
    assert!(at.deletes);
    assert!(store.needs_rotation(100, MAX_BYTE_SIZE - 100));
    assert!(store.needs_rotation(usize::MAX, 0));
}

#[test]
fn the_write_position_is_the_later_of_cursor_and_offset() {
    let mut dir = Dir::new();
    let mut store = Bitcask::open(&dir.segments()).unwrap();
    put(&mut store, &mut dir, "a", "1");
    let offset = store.offset();
    assert!(offset > 0);
    let time = Timestamp::new(1, 0).unwrap();
    let behind = store.plan("b", vec![b'{', b'}'], time, false, 0, "");
    assert_eq!(behind.entry.entry_pos, offset);
    let ahead = store.plan("b", vec![b'{', b'}'], time, false, offset + 7, "");
    assert_eq!(ahead.entry.entry_pos, offset + 7);
}

#[test]
fn commit_moves_the_offset_past_the_record() {
    let dir = Dir::new();
    let mut store = Bitcask::open(&dir.segments()).unwrap();
    let time = Timestamp::new(1, 0).unwrap();
    let append = store.plan("k", vec![b'x'; 10], time, false, 32, "");
    store.commit(&append);
    assert_eq!(store.offset(), 43);
    assert_eq!(store.get("k").unwrap().entry_pos, 32);
    assert_eq!(store.list_keys(), vec!["k".to_string()]);
}

#[test]
fn a_stored_tombstone_value_reads_back_until_recovery() {
    let mut dir = Dir::new();
    let mut store = Bitcask::open(&dir.segments()).unwrap();
    put(&mut store, &mut dir, "k", "__TOMBSTONE__");
    assert_eq!(get(&store, &dir, "k"), Some("__TOMBSTONE__".to_string()));
    let reopened = Bitcask::open(&dir.segments()).unwrap();
    assert_eq!(get(&reopened, &dir, "k"), None);
}

#[test]
fn value_of_refuses_bytes_that_are_no_record() {
    let error = Bitcask::value_of(b"{\"key\":\"a\"").unwrap_err();
    assert_eq!(error.cause, bitcask::record::DecodeError::Malformed);
}
