use bitcask::command::is_whitespace;
use bitcask::command::parse_input;
use bitcask::command::Action;
use bitcask::command::ParseError;
use bitcask::text::chars_of;

#[test]
fn put_takes_a_key_and_a_value() {
    let command = parse_input("put name alice\n").unwrap();
    assert_eq!(command.action, Action::Put);
    assert_eq!(command.key, "name");
    assert_eq!(command.value, "alice");
    assert_eq!(parse_input("put name").unwrap_err(), ParseError::PutUsage);
    assert_eq!(parse_input("put").unwrap_err(), ParseError::PutUsage);
    assert_eq!(parse_input("put a b c").unwrap_err(), ParseError::PutUsage);
}

#[test]
fn get_takes_a_key() {
    let command = parse_input("get name\n").unwrap();
    assert_eq!(command.action, Action::Get);
    assert_eq!(command.key, "name");
    assert_eq!(command.value, "");
    assert_eq!(parse_input("get").unwrap_err(), ParseError::GetUsage);
    assert_eq!(parse_input("get a b").unwrap_err(), ParseError::GetUsage);
}

#[test]
fn remove_takes_a_key() {
    let command = parse_input("  remove name  ").unwrap();
    assert_eq!(command.action, Action::Remove);
    assert_eq!(command.key, "name");
    assert_eq!(command.value, "");
    assert_eq!(parse_input("remove").unwrap_err(), ParseError::RemoveUsage);
    assert_eq!(parse_input("remove a b").unwrap_err(), ParseError::RemoveUsage);
}

#[test]
fn exit_takes_nothing() {
    let command = parse_input("exit\n").unwrap();
    assert_eq!(command.action, Action::Exit);
    assert_eq!(command.key, "");
    assert_eq!(command.value, "");
    assert_eq!(parse_input("exit now").unwrap_err(), ParseError::ExitUsage);
}

#[test]
fn list_takes_the_word_keys() {
    let command = parse_input("list keys\r\n").unwrap();
    assert_eq!(command.action, Action::ListKeys);
    assert_eq!(command.key, "keys");
    assert_eq!(command.value, "");
    assert_eq!(parse_input("list").unwrap_err(), ParseError::ListUsage);
    assert_eq!(parse_input("list values").unwrap_err(), ParseError::ListUsage);
    assert_eq!(parse_input("list keys now").unwrap_err(), ParseError::ListUsage);
}

#[test]
fn other_first_words_are_no_command() {
    assert_eq!(parse_input("").unwrap_err(), ParseError::Invalid);
    assert_eq!(parse_input("   \n").unwrap_err(), ParseError::Invalid);
    assert_eq!(parse_input("\t \r\n").unwrap_err(), ParseError::Invalid);
    assert_eq!(parse_input("PUT a b").unwrap_err(), ParseError::Invalid);
    assert_eq!(parse_input("set a b").unwrap_err(), ParseError::Invalid);
    assert_eq!(parse_input("putt a b").unwrap_err(), ParseError::Invalid);
}

#[test]
fn a_run_of_white_space_separates_two_words() {
    let command = parse_input("get  a\n").unwrap();
    assert_eq!(command.action, Action::Get);
    assert_eq!(command.key, "a");
    assert_eq!(command.value, "");
    let command = parse_input("get\ta").unwrap();
    assert_eq!(command.action, Action::Get);
    assert_eq!(command.key, "a");
    let command = parse_input("put \t name \u{a0}\u{3000} alice").unwrap();
    assert_eq!(command.action, Action::Put);
    assert_eq!(command.key, "name");
    assert_eq!(command.value, "alice");
    let command = parse_input("list\u{2003}\u{2003}keys").unwrap();
    assert_eq!(command.action, Action::ListKeys);
    assert_eq!(command.key, "keys");
}

#[test]
fn white_space_makes_no_word_of_its_own() {
    assert_eq!(parse_input("put  b").unwrap_err(), ParseError::PutUsage);
    assert_eq!(parse_input("put   ").unwrap_err(), ParseError::PutUsage);
    assert_eq!(parse_input("get  ").unwrap_err(), ParseError::GetUsage);
    assert_eq!(parse_input("get \u{a0}").unwrap_err(), ParseError::GetUsage);
    assert_eq!(parse_input("put  a  b  c").unwrap_err(), ParseError::PutUsage);
    assert_eq!(parse_input("exit \t ").unwrap().action, Action::Exit);
    let command = parse_input("put a\u{3000}b").unwrap();
    assert_eq!(command.action, Action::Put);
    assert_eq!(command.key, "a");
    assert_eq!(command.value, "b");
}

#[test]
fn words_hold_every_character_that_is_no_white_space() {
    let command = parse_input("put é ü").unwrap();
    assert_eq!(command.key, "é");
    assert_eq!(command.value, "ü");
    let command = parse_input("put a\u{200b}b \"c\\d\"").unwrap();
    assert_eq!(command.key, "a\u{200b}b");
    assert_eq!(command.value, "\"c\\d\"");
    assert_eq!(parse_input("\u{200b}get k").unwrap_err(), ParseError::Invalid);
}

#[test]
fn white_space_around_the_line_is_dropped() {
    let command = parse_input(" \t\u{a0}put a b\u{3000}\r\n").unwrap();
    assert_eq!(command.action, Action::Put);
    assert_eq!(command.key, "a");
    assert_eq!(command.value, "b");
    let command = parse_input("\u{2003}get k\u{85}").unwrap();
    assert_eq!(command.action, Action::Get);
    assert_eq!(command.key, "k");
}

#[test]
fn white_space_is_what_unicode_says() {
    for c in ['\u{0}', '\u{8}', '\u{e}', '\u{1f}', '!', 'a', '\u{84}', '\u{86}', '\u{200b}', '\u{2027}', '\u{202a}', '\u{2060}', '\u{feff}'] {
        assert!(!is_whitespace(c), "{:?}", c);
        assert_eq!(is_whitespace(c), c.is_whitespace());
    }
    for c in ['\t', '\n', '\u{b}', '\u{c}', '\r', ' ', '\u{85}', '\u{a0}', '\u{1680}', '\u{2000}', '\u{200a}', '\u{2028}', '\u{2029}', '\u{202f}', '\u{205f}', '\u{3000}'] {
        assert!(is_whitespace(c), "{:?}", c);
    }
    let mut n = 0u32;
    while n < 0x11_0000 {
        if let Some(c) = char::from_u32(n) {
            assert_eq!(is_whitespace(c), c.is_whitespace(), "{:x}", n);
        }
        n += 1;
    }
}

#[test]
fn the_characters_of_a_text_are_listed() {
    assert_eq!(chars_of(""), Vec::<char>::new());
    assert_eq!(chars_of("aé🦀"), vec!['a', 'é', '🦀']);
}
