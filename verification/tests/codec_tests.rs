use void_engine::codec::{parse_record_bytes, render_record_bytes};
use void_engine::snapshot::{FieldValue, SnapshotRecord};

const MICRO: i64 = 1_000_000;

fn rec_with(pairs: Vec<(&str, FieldValue)>) -> SnapshotRecord {
    let mut r = SnapshotRecord::new();
    for (name, value) in pairs {
        assert!(r.insert(name.as_bytes().to_vec(), value));
    }
    r
}

#[test]
fn renders_an_empty_record() {
    let r = SnapshotRecord::new();
    assert_eq!(render_record_bytes(&r), b"{}".to_vec());
}

#[test]
fn renders_integers_fractions_and_signs() {
    let r = rec_with(vec![
        ("a", FieldValue::Num(2 * MICRO)),
        ("b", FieldValue::Num(2_500_000)),
        ("c", FieldValue::Num(-1_500_000)),
        ("d", FieldValue::Num(1)),
        ("e", FieldValue::Num(0)),
    ]);
    assert_eq!(
        render_record_bytes(&r),
        b"{\"a\":2,\"b\":2.5,\"c\":-1.5,\"d\":0.000001,\"e\":0}".to_vec()
    );
}

#[test]
fn renders_text_escapes_booleans_and_null() {
    let r = rec_with(vec![
        ("t", FieldValue::Text(b"he\"llo\\\n".to_vec())),
        ("y", FieldValue::Flag(true)),
        ("n", FieldValue::Flag(false)),
        ("z", FieldValue::Null),
    ]);
    assert_eq!(
        render_record_bytes(&r),
        b"{\"t\":\"he\\\"llo\\\\\\n\",\"y\":true,\"n\":false,\"z\":null}".to_vec()
    );
}

#[test]
fn parses_a_flat_object() {
    let r = parse_record_bytes(b"{\"a\":1,\"b\":-2.75,\"ok\":true,\"s\":\"hi\",\"z\":null}")
        .expect("well-formed line");
    assert_eq!(r.get_num(b"a"), Some(MICRO));
    assert_eq!(r.get_num(b"b"), Some(-2_750_000));
    assert!(matches!(r.get(b"ok"), Some(FieldValue::Flag(true))));
    match r.get(b"s") {
        Some(FieldValue::Text(t)) => assert_eq!(t, &b"hi".to_vec()),
        other => panic!("expected text, got {:?}", other.is_some()),
    }
    assert!(matches!(r.get(b"z"), Some(FieldValue::Null)));
    assert!(r.get(b"missing").is_none());
    assert_eq!(r.field_count(), 5);
}

#[test]
fn parses_with_interior_whitespace() {
    let r = parse_record_bytes(b"  { \"a\" : 1 , \"b\" : 2 }  ").expect("whitespace is allowed");
    assert_eq!(r.get_num(b"a"), Some(MICRO));
    assert_eq!(r.get_num(b"b"), Some(2 * MICRO));
}

#[test]
fn parses_string_escapes() {
    let r = parse_record_bytes(b"{\"t\":\"a\\\"b\\\\c\\nd\\te\\rf\\/g\"}").unwrap();
    match r.get(b"t") {
        Some(FieldValue::Text(t)) => assert_eq!(t, &b"a\"b\\c\nd\te\rf/g".to_vec()),
        _ => panic!("expected text"),
    }
}

#[test]
fn rejects_malformed_lines() {
    for line in [
        &b"not json"[..],
        b"",
        b"{",
        b"{}}",
        b"{\"a\":}",
        b"{\"a\" 1}",
        b"{\"a\":1,}",
        b"{\"a\":01e3}",
        b"{\"a\":1.1234567}", // more than six fraction digits
        b"{\"a\":--1}",
        b"{\"a\":\"unterminated}",
        b"{\"a\":truth}",
        b"{\"a\":9999999999999999999999}", // magnitude beyond i64
        b"[1,2]",
        b"{\"a\":1} trailing",
    ] {
        assert!(parse_record_bytes(line).is_none(), "should reject {:?}", line);
    }
}

#[test]
fn empty_object_parses_to_empty_record() {
    let r = parse_record_bytes(b"{ }").unwrap();
    assert_eq!(r.field_count(), 0);
}

#[test]
fn render_then_parse_restores_the_record() {
    let r = rec_with(vec![
        ("num", FieldValue::Num(-123_456_789)),
        ("txt", FieldValue::Text(b"line\none\ttwo \\ \"q\"".to_vec())),
        ("flag", FieldValue::Flag(false)),
        ("nil", FieldValue::Null),
    ]);
    let line = render_record_bytes(&r);
    let back = parse_record_bytes(&line).expect("rendered lines parse");
    assert_eq!(back.field_count(), 4);
    assert_eq!(back.get_num(b"num"), Some(-123_456_789));
    match back.get(b"txt") {
        Some(FieldValue::Text(t)) => assert_eq!(t, &b"line\none\ttwo \\ \"q\"".to_vec()),
        _ => panic!("expected text"),
    }
    assert!(matches!(back.get(b"flag"), Some(FieldValue::Flag(false))));
    assert!(matches!(back.get(b"nil"), Some(FieldValue::Null)));
    // Rendering is canonical: a second round trip gives the same bytes.
    assert_eq!(render_record_bytes(&back), line);
}

#[test]
fn insert_rejects_what_the_codec_cannot_round_trip() {
    let mut r = SnapshotRecord::new();
    assert!(!r.insert(b"bad\x01name".to_vec(), FieldValue::Num(0)));
    assert!(!r.insert(b"v".to_vec(), FieldValue::Text(b"\x00".to_vec())));
    assert!(!r.insert(b"v".to_vec(), FieldValue::Num(i64::MIN)));
    assert_eq!(r.field_count(), 0);
    assert!(r.insert(b"v".to_vec(), FieldValue::Num(i64::MAX)));
    assert_eq!(r.field_count(), 1);
    assert!(r.is_wf());
}

#[test]
fn extreme_magnitudes_round_trip() {
    let r = rec_with(vec![
        ("hi", FieldValue::Num(i64::MAX)),
        ("lo", FieldValue::Num(-i64::MAX)),
    ]);
    let line = render_record_bytes(&r);
    assert_eq!(
        line,
        b"{\"hi\":9223372036854.775807,\"lo\":-9223372036854.775807}".to_vec()
    );
    let back = parse_record_bytes(&line).unwrap();
    assert_eq!(back.get_num(b"hi"), Some(i64::MAX));
    assert_eq!(back.get_num(b"lo"), Some(-i64::MAX));
    // One more unit in the last place no longer fits and is rejected.
    assert!(parse_record_bytes(b"{\"a\":9223372036854.775808}").is_none());
}

#[test]
fn first_occurrence_wins_on_duplicate_keys() {
    let r = parse_record_bytes(b"{\"a\":1,\"a\":2}").unwrap();
    assert_eq!(r.get_num(b"a"), Some(MICRO));
}
