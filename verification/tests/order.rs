use bitcask::engine::Bitcask;
use bitcask::order::bytes_not_after;
use bitcask::order::replay_order;
use bitcask::order::replays_before;
use bitcask::record::DecodeError;
use bitcask::record::Pair;
use bitcask::record::RawFields;
use bitcask::replay::Segment;
use bitcask::timestamp::Timestamp;

fn names(list: &[&str]) -> Vec<String> {
    list.iter().map(|name| name.to_string()).collect()
}

#[test]
fn the_active_segment_is_replayed_last() {
    let order = replay_order(names(&["activelog.btk", "01B.btk", "zz.btk", "01A.btk"]));
    assert_eq!(order, names(&["01A.btk", "01B.btk", "zz.btk", "activelog.btk"]));
    let order = replay_order(names(&["b", "activelog.btk", "a"]));
    assert_eq!(order, names(&["a", "b", "activelog.btk"]));
}

#[test]
fn archives_are_replayed_by_the_bytes_of_their_names() {
    let order = replay_order(names(&["b", "B", "a", "", "ab", "é", "a", "~", "10", "9"]));
    assert_eq!(order, names(&["", "10", "9", "B", "a", "a", "ab", "b", "~", "é"]));
    assert_eq!(replay_order(Vec::new()), Vec::<String>::new());
    assert_eq!(replay_order(names(&["activelog.btk"])), names(&["activelog.btk"]));
    let ulids = names(&[
        "01JB2Z6F9M0000000000000002.btk",
        "01JB2Z6F9M0000000000000001.btk",
        "activelog.btk",
        "01JB2Z5Z0000000000000000ZZ.btk",
    ]);
    assert_eq!(
        replay_order(ulids),
        names(&[
            "01JB2Z5Z0000000000000000ZZ.btk",
            "01JB2Z6F9M0000000000000001.btk",
            "01JB2Z6F9M0000000000000002.btk",
            "activelog.btk",
        ])
    );
}

#[test]
fn the_replay_order_is_the_order_of_the_bytes() {
    let mut sorted = names(&["q", "Q", "aa", "a", "zz9", "zz10", "ü", "u"]);
    let order = replay_order(sorted.clone());
    sorted.sort();
    assert_eq!(order, sorted);
}

#[test]
fn byte_strings_are_compared_place_by_place() {
    assert!(bytes_not_after(b"", b""));
    assert!(bytes_not_after(b"", b"a"));
    assert!(!bytes_not_after(b"a", b""));
    assert!(bytes_not_after(b"a", b"a"));
    assert!(bytes_not_after(b"a", b"ab"));
    assert!(!bytes_not_after(b"ab", b"a"));
    assert!(bytes_not_after(b"ab", b"b"));
    assert!(!bytes_not_after(b"b", b"ab"));
    assert!(bytes_not_after(b"a\x7f", b"a\x80"));
    assert!(!bytes_not_after(b"a\xff", b"a\x00z"));
}

#[test]
fn every_segment_may_be_replayed_before_the_active_one() {
    assert!(replays_before("zzz", "activelog.btk"));
    assert!(replays_before("activelog.btk", "activelog.btk"));
    assert!(!replays_before("activelog.btk", "zzz"));
    assert!(!replays_before("activelog.btk", "a"));
    assert!(replays_before("a", "b"));
    assert!(!replays_before("b", "a"));
    assert!(replays_before("a", "a"));
}

#[test]
fn a_tombstone_in_the_active_segment_outlives_the_value_in_an_archive() {
    let time = Timestamp::new(1, 0).unwrap();
    let later = Timestamp::new(2, 0).unwrap();
    let value = String::from_utf8(Pair::new("k", "v", time).encode().unwrap()).unwrap();
    let gone = String::from_utf8(Pair::tombstone("k", later).encode().unwrap()).unwrap();
    let read = |name: &String| Segment {
        name: name.clone(),
        content: if name == "activelog.btk" { format!("{gone}\n") } else { format!("{value}\n") },
    };
    let listed = names(&["activelog.btk", "01JB2Z5Z0000000000000000ZZ.btk"]);
    let as_listed: Vec<Segment> = listed.iter().map(read).collect();
    assert!(Bitcask::open(&as_listed).unwrap().get("k").is_some());
    let ordered: Vec<Segment> = replay_order(listed).iter().map(read).collect();
    assert!(Bitcask::open(&ordered).unwrap().get("k").is_none());
}

#[test]
fn fields_make_a_record_when_they_fit() {
    let fields = |keysize: u64, secs: u64, nanos: u32| RawFields {
        key: "k".to_string(),
        keysize,
        value: "v".to_string(),
        value_size: 7,
        secs,
        nanos,
    };
    let pair = Pair::from_fields(fields(3, 9, 5)).unwrap();
    assert_eq!(pair.key, "k");
    assert_eq!(pair.keysize, 3);
    assert_eq!(pair.value, "v");
    assert_eq!(pair.value_size, 7);
    assert_eq!(pair.timestamp, Timestamp { secs: 9, nanos: 5 });
    let carried = Pair::from_fields(fields(0, 9, 2_000_000_007)).unwrap();
    assert_eq!(carried.timestamp, Timestamp { secs: 11, nanos: 7 });
    let edge = Pair::from_fields(fields(usize::MAX as u64, u64::MAX, 999_999_999)).unwrap();
    assert_eq!(edge.keysize, usize::MAX);
    assert_eq!(Pair::from_fields(fields(0, u64::MAX, 1_000_000_000)).unwrap_err(), DecodeError::OutOfRange);
    assert_eq!(Pair::from_fields(fields(0, u64::MAX - 3, 4_000_000_000)).unwrap_err(), DecodeError::OutOfRange);
}

#[test]
fn a_record_is_encoded_only_if_it_reads_back() {
    let time = Timestamp::new(1700000000, 42).unwrap();
    for (key, value) in [("a", "1"), ("", ""), ("q\"\\\n\u{0}", "\u{1f}é🦀"), ("k", "__TOMBSTONE__")] {
        let pair = Pair::new(key, value, time);
        let line = pair.encode_checked().expect("reads back");
        assert_eq!(line, pair.encode().unwrap());
        assert!(Pair::decode(&line).unwrap().same_as(&pair));
    }
    let carried = Pair {
        key: "k".to_string(),
        keysize: 1,
        value: "v".to_string(),
        value_size: 1,
        timestamp: Timestamp { secs: 1, nanos: 1_500_000_000 },
    };
    assert!(carried.encode().is_ok());
    assert_eq!(carried.encode_checked(), None);
}

#[test]
fn records_are_the_same_when_every_field_is() {
    let time = Timestamp::new(1, 2).unwrap();
    let pair = Pair::new("k", "v", time);
    assert!(pair.same_as(&Pair::new("k", "v", time)));
    assert!(!pair.same_as(&Pair::new("K", "v", time)));
    assert!(!pair.same_as(&Pair::new("k", "w", time)));
    assert!(!pair.same_as(&Pair::new("k", "v", Timestamp::new(1, 3).unwrap())));
    let mut other = Pair::new("k", "v", time);
    other.keysize = 2;
    assert!(!pair.same_as(&other));
    let mut other = Pair::new("k", "v", time);
    other.value_size = 0;
    assert!(!pair.same_as(&other));
}
