use kvs::escape::{push_escaped, read_escaped};
use kvs::record::{parse_record, push_record, Record};

#[test]
fn escape_plain_bytes_unchanged() {
    let mut out = Vec::new();
    push_escaped(&mut out, b"abc");
    assert_eq!(out, b"abc".to_vec());
}

#[test]
fn escape_quote_backslash_and_control() {
    let mut out = Vec::new();
    push_escaped(&mut out, b"a\"b\\c\nd\x1f\x08\x0c\r\t");
    assert_eq!(out, b"a\\\"b\\\\c\\nd\\u001f\\b\\f\\r\\t".to_vec());
}

#[test]
fn read_escaped_round_trip() {
    let raw = b"x\"y\\z\t\x01end".to_vec();
    let mut out = b"prefix".to_vec();
    let start = out.len();
    push_escaped(&mut out, &raw);
    out.push(b'"');
    out.extend_from_slice(b"rest");
    let (bytes, end) = read_escaped(&out, start).unwrap();
    assert_eq!(bytes, raw);
    assert_eq!(&out[end..], b"rest");
}

#[test]
fn read_escaped_rejects_raw_control_and_unterminated() {
    assert!(read_escaped(b"ab\ncd\"", 0).is_none());
    assert!(read_escaped(b"abcd", 0).is_none());
    assert!(read_escaped(b"\\u0041\"", 0).is_none());
    assert!(read_escaped(b"\\u000a\"", 0).is_none());
    assert!(read_escaped(b"\\x\"", 0).is_none());
    assert_eq!(read_escaped(b"\\n\\u0001\"", 0), Some((vec![10u8, 1u8], 9)));
}

#[test]
fn escape_matches_json_string_quoting() {
    let mut text = String::new();
    for c in 0u8..128 {
        text.push(c as char);
    }
    text.push_str("é€😀");
    let mut out = vec![b'"'];
    push_escaped(&mut out, text.as_bytes());
    out.push(b'"');
    assert_eq!(out, serde_json::to_string(&text).unwrap().into_bytes());
}

#[test]
fn set_record_bytes() {
    let mut log = Vec::new();
    push_record(&mut log, &Record::Put { key: b"a".to_vec(), value: b"1".to_vec() });
    assert_eq!(log, b"{\"Set\":{\"key\":\"a\",\"value\":\"1\"}}\n".to_vec());
}

#[test]
fn remove_record_bytes() {
    let mut log = Vec::new();
    push_record(&mut log, &Record::Del { key: b"k\"q".to_vec() });
    assert_eq!(log, b"{\"Remove\":{\"key\":\"k\\\"q\"}}\n".to_vec());
}

#[test]
fn parse_record_reads_back_two_records() {
    let mut log = Vec::new();
    push_record(&mut log, &Record::Put { key: b"key\n1".to_vec(), value: b"v\\1".to_vec() });
    let second = log.len();
    push_record(&mut log, &Record::Del { key: b"key\n1".to_vec() });
    match parse_record(&log, 0) {
        Some((Record::Put { key, value }, end)) => {
            assert_eq!(key, b"key\n1".to_vec());
            assert_eq!(value, b"v\\1".to_vec());
            assert_eq!(end, second);
        }
        _ => panic!("expected a set record"),
    }
    match parse_record(&log, second) {
        Some((Record::Del { key }, end)) => {
            assert_eq!(key, b"key\n1".to_vec());
            assert_eq!(end, log.len());
        }
        _ => panic!("expected a remove record"),
    }
}

#[test]
fn parse_record_rejects_other_text() {
    assert!(parse_record(b"{\"Get\":{\"key\":\"a\"}}\n", 0).is_none());
    assert!(parse_record(b"{\"Set\":{\"key\":\"a\",\"value\":\"1\"}}", 0).is_none());
    assert!(parse_record(b"", 0).is_none());
}
