use shard_sink::record::{after_read, keyed_payload, Greeting, ReadOutcome, ReadStep, RecordError};
use shard_sink::tools::common::join_btree_map;
use shard_sink::tools::decimal::{push_decimal, push_signed_decimal};
use std::collections::{BTreeMap, HashMap};

fn labels(pairs: &[(&str, &str)]) -> BTreeMap<String, String> {
    let mut map = BTreeMap::new();
    for (k, v) in pairs {
        map.insert(k.to_string(), v.to_string());
    }
    map
}

#[test]
fn labels_join_in_key_order() {
    let dict = labels(&[("zone", "eu"), ("app", "web"), ("host", "h1")]);
    assert_eq!(join_btree_map(dict), "app=webhost=h1zone=eu");
}

#[test]
fn no_label_gives_the_empty_key() {
    assert_eq!(join_btree_map(BTreeMap::new()), "");
}

#[test]
fn one_label_has_no_separator_around_it() {
    assert_eq!(join_btree_map(labels(&[("k", "v")])), "k=v");
    assert_eq!(join_btree_map(labels(&[("", "")])), "=");
}

#[test]
fn keys_order_by_code_point_and_prefix_first() {
    let dict = labels(&[("b", "1"), ("a", "2"), ("ab", "3"), ("B", "4"), ("é", "5"), ("", "6")]);
    assert_eq!(join_btree_map(dict), "=6B=4a=2ab=3b=1é=5");
}

#[test]
fn distinct_label_sets_may_share_a_key() {
    let one = labels(&[("a", "1b=2")]);
    let two = labels(&[("a", "1"), ("b", "2")]);
    assert_eq!(join_btree_map(one), join_btree_map(two));
}

#[test]
fn record_gives_key_and_json_payload() {
    let mut content = HashMap::new();
    content.insert("msg".to_string(), "hi \"there\"\n".to_string());
    let record = Greeting::new(labels(&[("b", "2"), ("a", "1")]), content);
    let (key, payload) = record.into_keyed_payload().unwrap();
    assert_eq!(key, "a=1b=2");
    assert_eq!(payload, b"{\"msg\":\"hi \\\"there\\\"\\n\"}".to_vec());
}

#[test]
fn empty_content_is_an_empty_object() {
    let record = Greeting::new(BTreeMap::new(), HashMap::new());
    let (key, payload) = record.into_keyed_payload().unwrap();
    assert_eq!(key, "");
    assert_eq!(payload, b"{}".to_vec());
}

#[test]
fn payload_decodes_to_the_content() {
    let mut content = HashMap::new();
    for i in 0..20 {
        content.insert(format!("k{}", i), format!("v{}", i));
    }
    let record = Greeting::new(BTreeMap::new(), content.clone());
    let (_, payload) = record.into_keyed_payload().unwrap();
    let decoded: HashMap<String, String> = serde_json::from_slice(&payload).unwrap();
    assert_eq!(decoded, content);
    assert!(!payload.contains(&b'\n'));
}

#[test]
fn record_gives_its_parts_back() {
    let mut content = HashMap::new();
    content.insert("k".to_string(), "v".to_string());
    let label = labels(&[("a", "1")]);
    let (l, c) = Greeting::new(label.clone(), content.clone()).into_parts();
    assert_eq!(l, label);
    assert_eq!(c, content);
}

#[test]
fn read_outcomes_decide_the_next_step() {
    assert_eq!(after_read(ReadOutcome::Closed), ReadStep::Close);
    assert_eq!(after_read(ReadOutcome::Record), ReadStep::Forward);
    assert_eq!(after_read(ReadOutcome::Truncated), ReadStep::Close);
    assert_eq!(after_read(ReadOutcome::Malformed), ReadStep::Skip);
}

#[test]
fn decimal_numerals() {
    let cases: [(u64, &str); 7] = [
        (0, "0"),
        (7, "7"),
        (10, "10"),
        (109, "109"),
        (1234567890, "1234567890"),
        (4294967295, "4294967295"),
        (u64::MAX, "18446744073709551615"),
    ];
    for (n, text) in cases {
        let mut out = String::new();
        push_decimal(&mut out, n);
        assert_eq!(out, text);
    }
}

#[test]
fn decimal_appends() {
    let mut out = "n=".to_string();
    push_decimal(&mut out, 42);
    push_signed_decimal(&mut out, -42);
    assert_eq!(out, "n=42-42");
}

#[test]
fn signed_decimal_numerals() {
    let cases: [(i64, &str); 6] = [
        (0, "0"),
        (5, "5"),
        (-1, "-1"),
        (-128, "-128"),
        (i64::MAX, "9223372036854775807"),
        (i64::MIN, "-9223372036854775808"),
    ];
    for (n, text) in cases {
        let mut out = String::new();
        push_signed_decimal(&mut out, n);
        assert_eq!(out, text);
    }
}

#[test]
fn encoded_bytes_go_with_the_key() {
    let r = keyed_payload("a=1".to_string(), Ok(b"{}".to_vec()));
    assert_eq!(r, Ok(("a=1".to_string(), b"{}".to_vec())));
}

#[test]
fn failed_encoding_is_an_encode_error() {
    let failure = serde_json::from_str::<u8>("x").unwrap_err();
    let r = keyed_payload("a=1".to_string(), Err(failure));
    assert_eq!(r, Err(RecordError::Encode));
}
