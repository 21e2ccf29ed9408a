use bitcask::json::push_bytes;
use bitcask::json::push_decimal;
use bitcask::json::push_quoted;
use bitcask::text::same_text;
use bitcask::record::DecodeError;
use bitcask::record::Pair;
use bitcask::record::TOMBSTONE_VALUE;
use bitcask::timestamp::Timestamp;

fn quoted(s: &str) -> String {
    let mut buf = Vec::new();
    assert!(push_quoted(&mut buf, s));
    String::from_utf8(buf).unwrap()
}

fn decimal(n: u64) -> String {
    let mut buf = Vec::new();
    push_decimal(&mut buf, n);
    String::from_utf8(buf).unwrap()
}

#[test]
fn a_record_is_one_json_object_in_field_order() {
    let pair = Pair::new("a", "1", Timestamp::new(1700000000, 123456789).unwrap());
    let line = String::from_utf8(pair.encode().unwrap()).unwrap();
    assert_eq!(
        line,
        "{\"key\":\"a\",\"keysize\":1,\"value\":\"1\",\"value_size\":1,\"timestamp\":{\"secs_since_epoch\":1700000000,\"nanos_since_epoch\":123456789}}"
    );
}

#[test]
fn sizes_count_bytes() {
    let pair = Pair::new("é", "日本", Timestamp::new(0, 0).unwrap());
    assert_eq!(pair.keysize, 2);
    assert_eq!(pair.value_size, 6);
    let line = String::from_utf8(pair.encode().unwrap()).unwrap();
    assert_eq!(
        line,
        "{\"key\":\"é\",\"keysize\":2,\"value\":\"日本\",\"value_size\":6,\"timestamp\":{\"secs_since_epoch\":0,\"nanos_since_epoch\":0}}"
    );
}

#[test]
fn encode_then_decode_gives_the_record_back() {
    let time = Timestamp::new(u64::MAX, 999_999_999).unwrap();
    for (key, value) in [
        ("a", "1"),
        ("", ""),
        ("with \"quotes\"", "back\\slash"),
        ("line\nbreak", "tab\there\r\n"),
        ("\u{0}\u{1}\u{1f}\u{7f}", "\u{8}\u{c}"),
        ("ключ", "значение 🦀"),
        ("k", TOMBSTONE_VALUE),
    ] {
        let pair = Pair::new(key, value, time);
        let line = pair.encode().unwrap();
        assert!(!line.contains(&b'\n'));
        assert!(!line.is_empty());
        let back = Pair::decode(&line).unwrap();
        assert_eq!(back.key, key);
        assert_eq!(back.value, value);
        assert_eq!(back.keysize, key.len());
        assert_eq!(back.value_size, value.len());
        assert_eq!(back.timestamp, time);
    }
}

#[test]
fn strings_are_escaped_as_json() {
    assert_eq!(quoted(""), "\"\"");
    assert_eq!(quoted("plain"), "\"plain\"");
    assert_eq!(quoted("a\"b"), "\"a\\\"b\"");
    assert_eq!(quoted("a\\b"), "\"a\\\\b\"");
    assert_eq!(quoted("\u{8}\t\n\u{c}\r"), "\"\\b\\t\\n\\f\\r\"");
    assert_eq!(quoted("\u{0}\u{b}\u{1f}"), "\"\\u0000\\u000b\\u001f\"");
    assert_eq!(quoted("\u{1a}\u{e}"), "\"\\u001a\\u000e\"");
    assert_eq!(quoted(" /\u{7f}"), "\" /\u{7f}\"");
    assert_eq!(quoted("é🦀"), "\"é🦀\"");
}

#[test]
fn numbers_are_written_in_decimal() {
    assert_eq!(decimal(0), "0");
    assert_eq!(decimal(7), "7");
    assert_eq!(decimal(10), "10");
    assert_eq!(decimal(1234567890), "1234567890");
    assert_eq!(decimal(u64::MAX), "18446744073709551615");
}

#[test]
fn bytes_are_appended() {
    let mut buf = vec![1u8];
    push_bytes(&mut buf, &[2, 3]);
    push_bytes(&mut buf, &[]);
    assert_eq!(buf, vec![1, 2, 3]);
}

#[test]
fn a_tombstone_is_a_record_with_the_reserved_value() {
    let time = Timestamp::new(3, 4).unwrap();
    let pair = Pair::tombstone("gone", time);
    assert!(pair.is_tombstone());
    assert_eq!(pair.key, "gone");
    assert_eq!(pair.value, "__TOMBSTONE__");
    assert_eq!(pair.value_size, 13);
    assert!(!Pair::new("gone", "__TOMBSTONE_", time).is_tombstone());
    assert!(!Pair::new("gone", "", time).is_tombstone());
    assert!(Pair::decode(&pair.encode().unwrap()).unwrap().is_tombstone());
}

#[test]
fn decode_reads_fields_in_any_order_and_ignores_others() {
    let line = b"{\"timestamp\":{\"nanos_since_epoch\":5,\"secs_since_epoch\":9},\"extra\":[1,2],\"value_size\":7,\"value\":\"v\",\"keysize\":0,\"key\":\"k\"}";
    let pair = Pair::decode(line).unwrap();
    assert_eq!(pair.key, "k");
    assert_eq!(pair.keysize, 0);
    assert_eq!(pair.value, "v");
    assert_eq!(pair.value_size, 7);
    assert_eq!(pair.timestamp, Timestamp { secs: 9, nanos: 5 });
}

#[test]
fn decode_carries_whole_seconds_out_of_the_nanoseconds() {
    let line = b"{\"key\":\"k\",\"keysize\":1,\"value\":\"v\",\"value_size\":1,\"timestamp\":{\"secs_since_epoch\":9,\"nanos_since_epoch\":3000000001}}";
    let pair = Pair::decode(line).unwrap();
    assert_eq!(pair.timestamp, Timestamp { secs: 12, nanos: 1 });
}

#[test]
fn decode_refuses_what_is_no_record() {
    let malformed: [&[u8]; 8] = [
        b"",
        b"{",
        b"not json",
        b"[\"k\",1,\"v\",1,{\"secs_since_epoch\":1,\"nanos_since_epoch\":1}]",
        b"{\"key\":\"k\",\"keysize\":1,\"value\":\"v\",\"value_size\":1}",
        b"{\"key\":1,\"keysize\":1,\"value\":\"v\",\"value_size\":1,\"timestamp\":{\"secs_since_epoch\":1,\"nanos_since_epoch\":1}}",
        b"{\"key\":\"k\",\"keysize\":-1,\"value\":\"v\",\"value_size\":1,\"timestamp\":{\"secs_since_epoch\":1,\"nanos_since_epoch\":1}}",
        b"{\"key\":\"\xff\",\"keysize\":1,\"value\":\"v\",\"value_size\":1,\"timestamp\":{\"secs_since_epoch\":1,\"nanos_since_epoch\":1}}",
    ];
    for line in malformed {
        assert_eq!(Pair::decode(line).unwrap_err(), DecodeError::Malformed);
    }
}

#[test]
fn decode_refuses_a_timestamp_that_overflows() {
    let line = b"{\"key\":\"k\",\"keysize\":1,\"value\":\"v\",\"value_size\":1,\"timestamp\":{\"secs_since_epoch\":18446744073709551615,\"nanos_since_epoch\":1000000000}}";
    assert_eq!(Pair::decode(line).unwrap_err(), DecodeError::OutOfRange);
}

#[test]
fn texts_are_compared_by_content() {
    assert!(same_text("", ""));
    assert!(same_text("abc", "abc"));
    assert!(!same_text("abc", "abd"));
    assert!(!same_text("abc", "ab"));
    assert!(!same_text("é", "e"));
}

#[test]
fn timestamps_order_by_seconds_then_nanoseconds() {
    let a = Timestamp::new(1, 5).unwrap();
    let b = Timestamp::new(1, 6).unwrap();
    let c = Timestamp::new(2, 0).unwrap();
    assert!(b.is_after(&a));
    assert!(c.is_after(&b));
    assert!(!a.is_after(&b));
    assert!(!a.is_after(&a));
    assert_eq!(Timestamp::new(1, 2_500_000_000), Some(Timestamp { secs: 3, nanos: 500_000_000 }));
    assert_eq!(Timestamp::new(u64::MAX, 1_000_000_000), None);
    assert_eq!(Timestamp::new(u64::MAX, 999_999_999), Some(Timestamp { secs: u64::MAX, nanos: 999_999_999 }));
}

#[test]
fn the_clock_gives_a_well_formed_timestamp() {
    let now = Timestamp::now().expect("clock after the epoch");
    assert!(now.nanos < 1_000_000_000);
    assert!(now.secs > 1_600_000_000);
}
