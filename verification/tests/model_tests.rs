use rocksdb_viewer::models::{deserialize_record, Payload, JsonScalar, value_to_string,
    record_type_of_key, timestamp_of_key};
use rocksdb_viewer::strings::{parse_u64, parse_i64, str_le, str_eq, str_contains, hex_string,
    cell_le_exec};

#[test]
fn parses_object_payload_with_sorted_fields() {
    let value = b"{\"name\":\"alice\",\"age\":30}".to_vec();
    let r = deserialize_record("user:123:alice", value.as_slice());
    assert_eq!(r.record_type, "user");
    assert_eq!(r.key, "user:123:alice");
    assert_eq!(r.raw_data, value);
    match &r.data {
        Payload::Object(fields) => {
            // serde_json's map iterates keys in sorted order
            assert_eq!(fields.len(), 2);
            assert_eq!(fields[0].name, "age");
            assert_eq!(fields[1].name, "name");
        },
        Payload::Other => panic!("expected an object payload"),
    }
}

#[test]
fn undecodable_value_degrades_to_wrapped_text() {
    let value = b"not json at all".to_vec();
    let r = deserialize_record("x:1", value.as_slice());
    match &r.data {
        Payload::Object(fields) => {
            assert_eq!(fields.len(), 1);
            assert_eq!(fields[0].name, "value");
            match &fields[0].value {
                JsonScalar::Str(s) => assert_eq!(s, "not json at all"),
                _ => panic!("expected wrapped text"),
            }
        },
        Payload::Other => panic!("expected the degraded object payload"),
    }
}

#[test]
fn invalid_utf8_is_decoded_lossily() {
    let value = vec![0xff, 0xfe];
    let r = deserialize_record("x:1", value.as_slice());
    match &r.data {
        Payload::Object(fields) => match &fields[0].value {
            JsonScalar::Str(s) => assert_eq!(s, "\u{fffd}\u{fffd}"),
            _ => panic!("expected wrapped text"),
        },
        Payload::Other => panic!("expected the degraded object payload"),
    }
    // the raw bytes are still carried verbatim
    assert_eq!(r.raw_data, value);
}

#[test]
fn non_object_document_is_other() {
    let r = deserialize_record("x:1", b"[1,2,3]");
    match &r.data {
        Payload::Other => {},
        Payload::Object(_) => panic!("an array payload renders as empty cells"),
    }
}

#[test]
fn scalar_rendering() {
    assert_eq!(value_to_string(&JsonScalar::Str("hi".to_string())), "hi");
    assert_eq!(value_to_string(&JsonScalar::Num("30".to_string())), "30");
    assert_eq!(value_to_string(&JsonScalar::Bool(true)), "true");
    assert_eq!(value_to_string(&JsonScalar::Bool(false)), "false");
    assert_eq!(value_to_string(&JsonScalar::Null), "");
    assert_eq!(value_to_string(&JsonScalar::Nested("[1,2]".to_string())), "[1,2]");
}

#[test]
fn row_rendering_looks_fields_up_by_header() {
    let value = b"{\"b\":1,\"a\":\"x\",\"n\":null}".to_vec();
    let r = deserialize_record("t:1", value.as_slice());
    let headers = vec![
        "key".to_string(),
        "a".to_string(),
        "b".to_string(),
        "missing".to_string(),
        "n".to_string(),
    ];
    let row = r.to_table_row(&headers);
    assert_eq!(row, vec!["t:1", "x", "1", "", ""]);
}

#[test]
fn non_object_payload_rows_are_empty_after_key() {
    let r = deserialize_record("t:1", b"42");
    let headers = vec!["key".to_string(), "a".to_string()];
    assert_eq!(r.to_table_row(&headers), vec!["t:1", ""]);
}

#[test]
fn record_type_derivation() {
    assert_eq!(record_type_of_key("user:1"), "user");
    assert_eq!(record_type_of_key("plain"), "plain");
    assert_eq!(record_type_of_key(":x"), "unknown");
    assert_eq!(record_type_of_key(""), "unknown");
}

#[test]
fn timestamp_from_second_segment() {
    assert_eq!(timestamp_of_key("a:123:z"), 123);
    assert_eq!(timestamp_of_key("a:xyz:z"), 0);
    assert_eq!(timestamp_of_key("a"), 0);
    assert_eq!(timestamp_of_key("a:"), 0);
    assert_eq!(timestamp_of_key("a:42"), 42);
}

#[test]
fn unsigned_parse() {
    assert_eq!(parse_u64("0"), Some(0));
    assert_eq!(parse_u64("18446744073709551615"), Some(u64::MAX));
    assert_eq!(parse_u64("18446744073709551616"), None);
    assert_eq!(parse_u64(""), None);
    assert_eq!(parse_u64("12a"), None);
    assert_eq!(parse_u64("-3"), None);
}

#[test]
fn signed_parse() {
    assert_eq!(parse_i64("-42"), Some(-42));
    assert_eq!(parse_i64("9223372036854775807"), Some(i64::MAX));
    assert_eq!(parse_i64("-9223372036854775808"), Some(i64::MIN));
    assert_eq!(parse_i64("-9223372036854775809"), None);
    assert_eq!(parse_i64("9223372036854775808"), None);
    assert_eq!(parse_i64("-"), None);
    assert_eq!(parse_i64("3.5"), None);
}

#[test]
fn string_utilities() {
    assert!(str_le("abc", "abd"));
    assert!(!str_le("b", "abc"));
    assert!(str_le("ab", "abc"));
    assert!(str_eq("same", "same"));
    assert!(!str_eq("same", "sam"));
    assert!(str_contains("hello world", "lo wo"));
    assert!(!str_contains("hello", "worl"));
    assert!(str_contains("x", ""));
}

#[test]
fn numeric_cells_compare_numerically() {
    assert!(cell_le_exec("9", "10"));
    assert!(!cell_le_exec("10", "9"));
    // mixed cells fall back to text order, where "10" sorts before "9x"
    assert!(cell_le_exec("10", "9x"));
}

#[test]
fn hex_rendering() {
    assert_eq!(hex_string(&vec![0x0f, 0xa0, 0x00]), "0f a0 00");
    assert_eq!(hex_string(&vec![]), "");
    assert_eq!(hex_string(&vec![0xff]), "ff");
}
