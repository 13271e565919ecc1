//! The record codec.

use kvs::codec::{decode_at, decode_value, encode, Command};
use kvs::error::ErrorCode;

fn set(key: &str, value: &str) -> Command {
    Command::set(key.to_string(), value.to_string())
}

fn remove(key: &str) -> Command {
    Command::remove(key.to_string())
}

#[test]
fn a_set_record_is_a_json_object() {
    let bytes = encode(&set("a", "1")).unwrap();
    assert_eq!(bytes, b"{\"Set\":{\"key\":\"a\",\"value\":\"1\"}}".to_vec());
    assert_eq!(bytes.len(), 31);
}

#[test]
fn a_remove_record_is_a_json_object() {
    let bytes = encode(&remove("a")).unwrap();
    assert_eq!(bytes, b"{\"Remove\":{\"key\":\"a\"}}".to_vec());
    assert_eq!(bytes.len(), 22);
}

#[test]
fn strings_are_escaped_as_json() {
    let bytes = encode(&set("a\"b", "line\nbreak\\")).unwrap();
    assert_eq!(
        bytes,
        b"{\"Set\":{\"key\":\"a\\\"b\",\"value\":\"line\\nbreak\\\\\"}}".to_vec()
    );
    let bytes = encode(&remove("\u{1}\t")).unwrap();
    assert_eq!(bytes, b"{\"Remove\":{\"key\":\"\\u0001\\t\"}}".to_vec());
}

#[test]
fn text_outside_ascii_is_written_as_utf8() {
    let bytes = encode(&set("k\u{e9}", "\u{4e2d}")).unwrap();
    assert_eq!(bytes, "{\"Set\":{\"key\":\"k\u{e9}\",\"value\":\"\u{4e2d}\"}}".as_bytes().to_vec());
    assert_eq!(decode_value(&bytes), Ok("\u{4e2d}".to_string()));
}

#[test]
fn a_record_reads_back_as_it_was_written() {
    for cmd in [set("a", "1"), set("", ""), set("a\"b}}", "{\"Set\":1}"), remove("x y"), remove("")] {
        let bytes = encode(&cmd).unwrap();
        let (back, taken) = decode_at(&bytes, 0).unwrap();
        assert_eq!(taken, bytes.len());
        match (&cmd, &back) {
            (
                Command::SetCommand { key, value },
                Command::SetCommand { key: k, value: v },
            ) => {
                assert_eq!(key, k);
                assert_eq!(value, v);
            }
            (Command::RmCommand { key }, Command::RmCommand { key: k }) => assert_eq!(key, k),
            _ => panic!("a record of another kind came back"),
        }
        assert_eq!(back.key(), cmd.key());
    }
}

#[test]
fn records_follow_one_another_without_a_separator() {
    let first = encode(&set("a", "1")).unwrap();
    let second = encode(&remove("a")).unwrap();
    let third = encode(&set("b", "22")).unwrap();
    let mut log = first.clone();
    log.extend_from_slice(&second);
    log.extend_from_slice(&third);
    let (cmd, n) = decode_at(&log, 0).unwrap();
    assert!(matches!(cmd, Command::SetCommand { .. }));
    assert_eq!(n, first.len());
    let (cmd, m) = decode_at(&log, n).unwrap();
    assert!(matches!(cmd, Command::RmCommand { .. }));
    assert_eq!(m, second.len());
    let (cmd, l) = decode_at(&log, n + m).unwrap();
    assert_eq!(cmd.key(), "b");
    assert_eq!(n + m + l, log.len());
    assert!(decode_at(&log, log.len()).is_none());
}

#[test]
fn what_is_no_record_does_not_decode() {
    assert!(decode_at(b"", 0).is_none());
    assert!(decode_at(b"{\"Set\":{\"key\":\"a\",\"value\":\"1\"}", 0).is_none());
    assert!(decode_at(b"{\"Set\":{\"key\":\"a\"}}", 0).is_none());
    assert!(decode_at(b"{\"Set\":{\"key\":1,\"value\":\"1\"}}", 0).is_none());
    assert!(decode_at(b"{\"Get\":{\"key\":\"a\"}}", 0).is_none());
    assert!(decode_at(b"{\"Remove\":{\"key\":\"a\",\"value\":\"1\"}}", 0).is_none());
    assert!(decode_at(b" {\"Remove\":{\"key\":\"a\"}}", 0).is_none());
    assert!(decode_at(b"{\"Remove\":{\"key\":\"a}}", 0).is_none());
    assert!(decode_at(b"x{\"Remove\":{\"key\":\"a\"}}", 1).is_some());
}

#[test]
fn a_value_is_read_from_exactly_one_set_record() {
    let bytes = encode(&set("k", "v")).unwrap();
    assert_eq!(decode_value(&bytes), Ok("v".to_string()));
    assert_eq!(decode_value(&bytes[..bytes.len() - 1]), Err(ErrorCode::Corrupted));
    let mut longer = bytes.clone();
    longer.push(b' ');
    assert_eq!(decode_value(&longer), Err(ErrorCode::Corrupted));
    let mut two = bytes.clone();
    two.extend_from_slice(&bytes);
    assert_eq!(decode_value(&two), Err(ErrorCode::Corrupted));
    assert_eq!(decode_value(&encode(&remove("k")).unwrap()), Err(ErrorCode::Corrupted));
    assert_eq!(decode_value(b""), Err(ErrorCode::Corrupted));
}

#[test]
fn errors_have_their_texts() {
    assert_eq!(ErrorCode::KeyNotFound.message(), "Key not found");
    assert_eq!(ErrorCode::Corrupted.message(), "corrupted record");
    assert_eq!(ErrorCode::Io.message(), "input/output error");
    assert_eq!(ErrorCode::Internal.message(), "internal error");
}
