use kvs::entry::{decode_entry, encode_entry};
use kvs::json::{bytes_equal, find_string_end, read_string, skip_white_space};
use kvs::{Entry, KvsEntry, KvsError, SerdeErrorKind};

fn put(key: &str, value: &str) -> KvsEntry {
    Entry::Put(key.to_string(), value.to_string())
}

fn remove(key: &str) -> KvsEntry {
    Entry::Remove(key.to_string())
}

#[test]
fn a_put_is_written_as_a_set_object() {
    assert_eq!(encode_entry(&put("a", "1")).unwrap(), b"{\"Set\":[\"a\",\"1\"]}".to_vec());
}

#[test]
fn a_remove_is_written_as_a_remove_object() {
    assert_eq!(encode_entry(&remove("a")).unwrap(), b"{\"Remove\":\"a\"}".to_vec());
}

#[test]
fn written_strings_are_escaped() {
    let text = encode_entry(&remove("a\"b\\c\nd")).unwrap();
    assert_eq!(text, b"{\"Remove\":\"a\\\"b\\\\c\\nd\"}".to_vec());
}

#[test]
fn empty_strings_are_written_as_empty_tokens() {
    assert_eq!(encode_entry(&put("", "")).unwrap(), b"{\"Set\":[\"\",\"\"]}".to_vec());
}

#[test]
fn other_letters_are_written_as_they_are() {
    let text = encode_entry(&put("clé", "值")).unwrap();
    assert_eq!(text, "{\"Set\":[\"clé\",\"值\"]}".as_bytes().to_vec());
}

#[test]
fn what_was_written_reads_back() {
    let entries = vec![
        put("a", "1"),
        put("", ""),
        put("quote\"d", "back\\slash"),
        put("line\nbreak", "tab\tstop"),
        put("clé", "值"),
        put("brace}", "bracket]"),
        remove("a"),
        remove("\u{1}control"),
    ];
    for entry in entries {
        let text = encode_entry(&entry).unwrap();
        let (back, start, end) = decode_entry(&text, 0).unwrap();
        assert_eq!(back, entry);
        assert_eq!(start, 0);
        assert_eq!(end, text.len());
    }
}

#[test]
fn serialize_appends_to_what_is_there() {
    let mut out = b"xy".to_vec();
    put("k", "v").serialize(&mut out).unwrap();
    assert_eq!(out, b"xy{\"Set\":[\"k\",\"v\"]}".to_vec());
    remove("k").serialize(&mut out).unwrap();
    assert_eq!(out, b"xy{\"Set\":[\"k\",\"v\"]}{\"Remove\":\"k\"}".to_vec());
}

#[test]
fn decode_reads_a_put() {
    let bytes = b"{\"Set\":[\"key\",\"value\"]}";
    let (entry, start, end) = decode_entry(bytes, 0).unwrap();
    assert_eq!(entry, put("key", "value"));
    assert_eq!((start, end), (0, bytes.len()));
}

#[test]
fn decode_reads_a_remove() {
    let bytes = b"{\"Remove\":\"key\"}";
    let (entry, start, end) = decode_entry(bytes, 0).unwrap();
    assert_eq!(entry, remove("key"));
    assert_eq!((start, end), (0, bytes.len()));
}

#[test]
fn decode_unescapes_strings() {
    let bytes = b"{\"Set\":[\"\\u0041\\n\",\"a\\\"b\\/c\"]}";
    let (entry, _, end) = decode_entry(bytes, 0).unwrap();
    assert_eq!(entry, put("A\n", "a\"b/c"));
    assert_eq!(end, bytes.len());
}

#[test]
fn decode_skips_white_space_between_tokens() {
    let bytes = b" \n\t{ \"Set\" : [ \"k\" ,\r\n \"v\" ] } ";
    let (entry, start, end) = decode_entry(bytes, 0).unwrap();
    assert_eq!(entry, put("k", "v"));
    assert_eq!(start, 3);
    assert_eq!(end, bytes.len() - 1);
    let bytes = b"{ \"Remove\" : \"k\" }";
    let (entry, start, end) = decode_entry(bytes, 0).unwrap();
    assert_eq!(entry, remove("k"));
    assert_eq!((start, end), (0, bytes.len()));
}

#[test]
fn decode_starts_at_the_position_given() {
    let bytes = b"{\"Remove\":\"a\"}{\"Set\":[\"b\",\"2\"]}";
    let (first, start, end) = decode_entry(bytes, 0).unwrap();
    assert_eq!(first, remove("a"));
    assert_eq!((start, end), (0, 14));
    let (second, start, end) = decode_entry(bytes, 14).unwrap();
    assert_eq!(second, put("b", "2"));
    assert_eq!((start, end), (14, bytes.len()));
}

#[test]
fn decode_refuses_what_is_not_an_entry() {
    let bad: Vec<&[u8]> = vec![
        b"",
        b"   ",
        b"{",
        b"{}",
        b"[]",
        b"\"Set\"",
        b"{\"Set\":[\"a\",\"1\"]",
        b"{\"Set\":[\"a\",\"1\"}",
        b"{\"Set\":[\"a\"]}",
        b"{\"Set\":[\"a\",\"1\",\"2\"]}",
        b"{\"Set\":\"a\"}",
        b"{\"Set\":[\"a\",1]}",
        b"{\"Set\" [\"a\",\"1\"]}",
        b"{\"Remove\":[\"a\"]}",
        b"{\"Remove\":\"a\"",
        b"{\"Remove\":\"a}",
        b"{\"Remove\":7}",
        b"{\"Remove\":\"a\",\"Remove\":\"b\"}",
        b"{\"Delete\":\"a\"}",
        b"{\"set\":[\"a\",\"1\"]}",
        b"{\"\\u0053et\":[\"a\",\"1\"]}",
        b"{\"Remove\":\"bad\\escape\"}",
        b"{\"Remove\":\"raw\ncontrol\"}",
        b"{\"Remove\":\"\xff\"}",
    ];
    for bytes in bad {
        assert!(decode_entry(bytes, 0).is_none(), "{:?}", String::from_utf8_lossy(bytes));
    }
}

#[test]
fn decode_at_the_end_finds_nothing() {
    let bytes = b"{\"Remove\":\"a\"}";
    assert!(decode_entry(bytes, bytes.len()).is_none());
}

#[test]
fn bytes_equal_compares_lengths_and_bytes() {
    assert!(bytes_equal(b"", b""));
    assert!(bytes_equal(b"abc", b"abc"));
    assert!(!bytes_equal(b"abc", b"abd"));
    assert!(!bytes_equal(b"abc", b"ab"));
    assert!(!bytes_equal(b"", b"a"));
}

#[test]
fn skip_white_space_stops_at_the_first_other_byte() {
    assert_eq!(skip_white_space(b"  \t\r\nx ", 0), 5);
    assert_eq!(skip_white_space(b"  \t\r\nx ", 5), 5);
    assert_eq!(skip_white_space(b"  \t\r\nx ", 6), 7);
    assert_eq!(skip_white_space(b"", 0), 0);
    assert_eq!(skip_white_space(b"\x0b", 0), 0);
}

#[test]
fn find_string_end_passes_escaped_quotes() {
    assert_eq!(find_string_end(b"\"abc\"", 0), Some(5));
    assert_eq!(find_string_end(b"\"a\\\"c\"x", 0), Some(6));
    assert_eq!(find_string_end(b"\"a\\\\\"x", 0), Some(5));
    assert_eq!(find_string_end(b"\"\"", 0), Some(2));
    assert_eq!(find_string_end(b"x\"ab\"", 1), Some(5));
}

#[test]
fn find_string_end_needs_both_quotes() {
    assert_eq!(find_string_end(b"abc\"", 0), None);
    assert_eq!(find_string_end(b"\"abc", 0), None);
    assert_eq!(find_string_end(b"\"abc\\\"", 0), None);
    assert_eq!(find_string_end(b"\"abc\\", 0), None);
    assert_eq!(find_string_end(b"", 0), None);
    assert_eq!(find_string_end(b"\"", 0), None);
}

#[test]
fn read_string_gives_the_text_and_the_end() {
    assert_eq!(read_string(b"\"hello\" rest", 0), Some(("hello".to_string(), 7)));
    assert_eq!(read_string(b"\"a\\tb\"", 0), Some(("a\tb".to_string(), 6)));
    assert_eq!(read_string(b"\"\\ud83d\\ude00\"", 0), Some(("\u{1f600}".to_string(), 14)));
    assert_eq!(read_string(b"\"\\ud83d\"", 0), None);
    assert_eq!(read_string(b"hello", 0), None);
}

#[test]
fn unencodable_is_a_serde_error() {
    let e = KvsError::Serde(SerdeErrorKind::Unencodable);
    assert_eq!(e.message(), "value cannot be encoded");
    assert!(!e.is_key_not_found());
}
