use bitcask::engine::active_offset;
use bitcask::engine::mergeable;
use bitcask::engine::Bitcask;
use bitcask::keydir::Keydir;
use bitcask::keydir::KeydirVal;
use bitcask::record::DecodeError;
use bitcask::record::Pair;
use bitcask::replay::build_keydir;
use bitcask::replay::replay_record;
use bitcask::replay::OpenError;
use bitcask::replay::Segment;
use bitcask::timestamp::Timestamp;

fn at(secs: u64) -> Timestamp {
    Timestamp::new(secs, 0).unwrap()
}

fn line(key: &str, value: &str, secs: u64) -> String {
    String::from_utf8(Pair::new(key, value, at(secs)).encode().unwrap()).unwrap()
}

fn tombstone(key: &str, secs: u64) -> String {
    String::from_utf8(Pair::tombstone(key, at(secs)).encode().unwrap()).unwrap()
}

fn segment(name: &str, lines: &[String]) -> Segment {
    let mut content = String::new();
    for l in lines {
        content.push_str(l);
        content.push('\n');
    }
    Segment { name: name.to_string(), content }
}

fn sorted_keys(keydir: &Keydir) -> Vec<String> {
    let mut keys = keydir.keys();
    keys.sort();
    keys
}

#[test]
fn no_segments_give_an_empty_keydir() {
    let keydir = build_keydir(&Vec::new()).unwrap();
    assert_eq!(keydir.len(), 0);
    assert!(keydir.keys().is_empty());
}

#[test]
fn offsets_run_along_each_segment_from_zero() {
    let a1 = line("a", "1", 1);
    let b1 = line("b", "22", 2);
    let c1 = line("c", "333", 3);
    let segments = vec![
        segment("01.btk", &[a1.clone(), b1.clone()]),
        segment("activelog.btk", &[c1.clone()]),
    ];
    let keydir = build_keydir(&segments).unwrap();
    assert_eq!(sorted_keys(&keydir), vec!["a", "b", "c"]);
    let a = keydir.lookup("a").unwrap();
    assert_eq!((a.entry_pos, a.entry_size, a.file_id.as_str()), (0, a1.len(), "01.btk"));
    assert_eq!(a.timestamp, at(1));
    let b = keydir.lookup("b").unwrap();
    assert_eq!((b.entry_pos, b.entry_size, b.file_id.as_str()), (a1.len() as u64 + 1, b1.len(), "01.btk"));
    let c = keydir.lookup("c").unwrap();
    assert_eq!((c.entry_pos, c.entry_size, c.file_id.as_str()), (0, c1.len(), "activelog.btk"));
}

#[test]
fn the_offset_runs_on_past_a_tombstone() {
    let gone = tombstone("a", 2);
    let b1 = line("b", "2", 3);
    let keydir = build_keydir(&vec![segment("activelog.btk", &[line("a", "1", 1), gone.clone(), b1.clone()])]).unwrap();
    assert_eq!(sorted_keys(&keydir), vec!["b"]);
    let b = keydir.lookup("b").unwrap();
    assert_eq!(b.entry_pos, (line("a", "1", 1).len() + 1 + gone.len() + 1) as u64);
    assert_eq!(b.entry_size, b1.len());
}

#[test]
fn a_later_timestamp_wins_whatever_the_order_of_the_segments() {
    let old = segment("old.btk", &[line("k", "old", 10)]);
    let new = segment("new.btk", &[line("k", "new", 20)]);
    let first = build_keydir(&vec![
        Segment { name: old.name.clone(), content: old.content.clone() },
        Segment { name: new.name.clone(), content: new.content.clone() },
    ])
    .unwrap();
    assert_eq!(first.lookup("k").unwrap().file_id, "new.btk");
    let second = build_keydir(&vec![new, old]).unwrap();
    assert_eq!(second.lookup("k").unwrap().file_id, "new.btk");
    assert_eq!(second.lookup("k").unwrap().timestamp, at(20));
}

#[test]
fn an_equal_timestamp_does_not_replace_the_entry() {
    let first = line("k", "first", 10);
    let keydir = build_keydir(&vec![segment("activelog.btk", &[first.clone(), line("k", "second", 10)])]).unwrap();
    let entry = keydir.lookup("k").unwrap();
    assert_eq!(entry.entry_pos, 0);
    assert_eq!(entry.entry_size, first.len());
}

#[test]
fn a_tombstone_drops_the_key_whatever_its_timestamp() {
    let keydir = build_keydir(&vec![segment("activelog.btk", &[line("k", "v", 10), tombstone("k", 1)])]).unwrap();
    assert!(keydir.lookup("k").is_none());
    assert!(!keydir.contains_key("k"));
    let again = build_keydir(&vec![segment(
        "activelog.btk",
        &[line("k", "v", 10), tombstone("k", 11), line("k", "w", 12), tombstone("other", 13)],
    )])
    .unwrap();
    assert_eq!(sorted_keys(&again), vec!["k"]);
}

#[test]
fn a_tombstone_only_drops_what_was_replayed_before_it() {
    let live = segment("a.btk", &[line("k", "v", 10)]);
    let dead = segment("b.btk", &[tombstone("k", 20)]);
    let keydir = build_keydir(&vec![dead, live]).unwrap();
    assert!(keydir.contains_key("k"));
}

#[test]
fn replay_stops_at_the_first_empty_line() {
    let a1 = line("a", "1", 1);
    let content = format!("{}\n\n{}\nnot a record\n", a1, line("b", "2", 2));
    let keydir = build_keydir(&vec![Segment { name: "activelog.btk".to_string(), content }]).unwrap();
    assert_eq!(sorted_keys(&keydir), vec!["a"]);
    let blank = build_keydir(&vec![Segment { name: "x".to_string(), content: "\nzzz".to_string() }]).unwrap();
    assert_eq!(blank.len(), 0);
    let empty = build_keydir(&vec![Segment { name: "x".to_string(), content: String::new() }]).unwrap();
    assert_eq!(empty.len(), 0);
}

#[test]
fn a_last_line_without_a_newline_is_a_record() {
    let a1 = line("a", "1", 1);
    let b1 = line("b", "2", 2);
    let content = format!("{}\n{}", a1, b1);
    let keydir = build_keydir(&vec![Segment { name: "activelog.btk".to_string(), content }]).unwrap();
    assert_eq!(sorted_keys(&keydir), vec!["a", "b"]);
    assert_eq!(keydir.lookup("b").unwrap().entry_pos, a1.len() as u64 + 1);
    assert_eq!(keydir.lookup("b").unwrap().entry_size, b1.len());
}

#[test]
fn a_line_that_is_no_record_fails_the_replay_with_its_place() {
    let a1 = line("a", "1", 1);
    let good = segment("0.btk", &[line("z", "z", 1)]);
    let bad = Segment { name: "1.btk".to_string(), content: format!("{}\n{{\"key\":\"b\"\n", a1) };
    let after = segment("2.btk", &[line("y", "y", 1)]);
    let error = build_keydir(&vec![good, bad, after]).err().unwrap();
    assert_eq!(error, OpenError { segment: 1, offset: a1.len() as u64 + 1, cause: DecodeError::Malformed });
    let truncated = Segment { name: "activelog.btk".to_string(), content: a1[..a1.len() - 4].to_string() };
    assert_eq!(
        Bitcask::open(&vec![truncated]).err().unwrap(),
        OpenError { segment: 0, offset: 0, cause: DecodeError::Malformed }
    );
}

#[test]
fn a_line_out_of_range_fails_the_replay() {
    let content = "{\"key\":\"k\",\"keysize\":1,\"value\":\"v\",\"value_size\":1,\"timestamp\":{\"secs_since_epoch\":18446744073709551615,\"nanos_since_epoch\":4000000000}}\n";
    let error = build_keydir(&vec![Segment { name: "activelog.btk".to_string(), content: content.to_string() }]).err().unwrap();
    assert_eq!(error, OpenError { segment: 0, offset: 0, cause: DecodeError::OutOfRange });
}

#[test]
fn one_record_is_replayed_by_the_rule() {
    let mut keydir = Keydir::new();
    replay_record(&mut keydir, &Pair::new("k", "v", at(5)), "s", 7, 9);
    let entry = keydir.lookup("k").unwrap();
    assert_eq!((entry.entry_pos, entry.entry_size, entry.file_id.as_str(), entry.timestamp), (7, 9, "s", at(5)));
    replay_record(&mut keydir, &Pair::new("k", "w", at(4)), "t", 1, 2);
    assert_eq!(keydir.lookup("k").unwrap().file_id, "s");
    replay_record(&mut keydir, &Pair::new("k", "w", at(5)), "t", 1, 2);
    assert_eq!(keydir.lookup("k").unwrap().file_id, "s");
    replay_record(&mut keydir, &Pair::new("k", "w", Timestamp::new(5, 1).unwrap()), "t", 1, 2);
    assert_eq!(keydir.lookup("k").unwrap().file_id, "t");
    replay_record(&mut keydir, &Pair::tombstone("k", at(0)), "u", 0, 0);
    assert!(keydir.lookup("k").is_none());
    replay_record(&mut keydir, &Pair::tombstone("k", at(0)), "u", 0, 0);
    assert_eq!(keydir.len(), 0);
}

#[test]
fn the_write_offset_is_the_length_of_the_active_segment() {
    let segments = vec![
        segment("01.btk", &[line("a", "1", 1)]),
        segment("activelog.btk", &[line("b", "é", 2)]),
        Segment { name: "activelog.btk".to_string(), content: "x".to_string() },
    ];
    assert_eq!(active_offset(&segments), segments[1].content.len() as u64);
    assert_eq!(Bitcask::open(&segments[..2].iter().map(|s| Segment { name: s.name.clone(), content: s.content.clone() }).collect()).unwrap().offset(), segments[1].content.len() as u64);
    assert_eq!(active_offset(&vec![segment("01.btk", &[line("a", "1", 1)])]), 0);
    assert_eq!(active_offset(&Vec::new()), 0);
}

#[test]
fn a_merge_would_take_every_segment_but_the_active_one() {
    let names = vec!["b.btk".to_string(), "activelog.btk".to_string(), "a.btk".to_string(), "activelog.btk".to_string()];
    assert_eq!(mergeable(&names), vec!["b.btk", "a.btk"]);
    assert_eq!(mergeable(&vec!["activelog.btk".to_string()]), Vec::<String>::new());
    assert_eq!(mergeable(&Vec::new()), Vec::<String>::new());
}

#[test]
fn the_keydir_inserts_looks_up_removes_and_lists() {
    let mut keydir = Keydir::new();
    assert_eq!(keydir.len(), 0);
    let entry = |pos: u64, file: &str| KeydirVal { entry_size: 3, entry_pos: pos, file_id: file.to_string(), timestamp: at(pos) };
    keydir.insert("a", entry(1, "x"));
    keydir.insert("b", entry(2, "y"));
    keydir.insert("c", entry(3, "x"));
    keydir.insert("a", entry(4, "y"));
    assert_eq!(keydir.len(), 3);
    assert_eq!(sorted_keys(&keydir), vec!["a", "b", "c"]);
    assert_eq!(keydir.lookup("a").unwrap().entry_pos, 4);
    assert!(keydir.contains_key("b"));
    keydir.remove("a");
    keydir.remove("nobody");
    assert_eq!(sorted_keys(&keydir), vec!["b", "c"]);
    assert!(keydir.lookup("a").is_none());
    assert_eq!(keydir.len(), 2);
    keydir.repoint("x", "z");
    assert_eq!(keydir.lookup("c").unwrap().file_id, "z");
    assert_eq!(keydir.lookup("c").unwrap().entry_pos, 3);
    assert_eq!(keydir.lookup("b").unwrap().file_id, "y");
    keydir.remove("c");
    keydir.remove("b");
    assert_eq!(keydir.len(), 0);
    assert!(keydir.keys().is_empty());
    let copy = entry(9, "f").clone();
    assert_eq!((copy.entry_pos, copy.entry_size, copy.file_id.as_str(), copy.timestamp), (9, 3, "f", at(9)));
}
