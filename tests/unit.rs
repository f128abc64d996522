use rcx_pi_rust::add;
use rcx_pi_rust::json_value::JsonValue;
use rcx_pi_rust::replay_cli::parse_args;
use rcx_pi_rust::trace_canon::{canon_event, canon_event_json, canon_events};

#[test]
fn it_works() {
    let result = add(2, 2);
    assert_eq!(result, 4);
}

#[test]
fn test_parse_args_minimal() {
    let args = vec!["--trace".to_string(), "test.jsonl".to_string()];
    let parsed = parse_args(&args).unwrap();
    assert_eq!(parsed.trace, "test.jsonl");
    assert!(parsed.out.is_none());
    assert!(parsed.expect.is_none());
    assert!(!parsed.check_canon);
}

#[test]
fn test_parse_args_full() {
    let args = vec![
        "--trace".to_string(),
        "in.jsonl".to_string(),
        "--out".to_string(),
        "out.jsonl".to_string(),
        "--expect".to_string(),
        "exp.jsonl".to_string(),
        "--check-canon".to_string(),
    ];
    let parsed = parse_args(&args).unwrap();
    assert_eq!(parsed.trace, "in.jsonl");
    assert_eq!(parsed.out, Some("out.jsonl".to_string()));
    assert_eq!(parsed.expect, Some("exp.jsonl".to_string()));
    assert!(parsed.check_canon);
}

#[test]
fn test_parse_primitives() {
    assert_eq!(JsonValue::parse("null").unwrap(), JsonValue::Null);
    assert_eq!(JsonValue::parse("true").unwrap(), JsonValue::Bool(true));
    assert_eq!(JsonValue::parse("false").unwrap(), JsonValue::Bool(false));
    assert_eq!(JsonValue::parse("42").unwrap(), JsonValue::Number("42".to_string()));
    assert_eq!(JsonValue::parse("-3.14").unwrap(), JsonValue::Number("-3.14".to_string()));
    assert_eq!(
        JsonValue::parse("\"hello\"").unwrap(),
        JsonValue::String("hello".to_string())
    );
}

#[test]
fn test_parse_array() {
    let arr = JsonValue::parse("[1,2,3]").unwrap();
    if let JsonValue::Array(items) = arr {
        assert_eq!(items.len(), 3);
    } else {
        panic!("expected array");
    }
}

#[test]
fn test_parse_object() {
    let obj = JsonValue::parse(r#"{"a":1,"b":2}"#).unwrap();
    if let JsonValue::Object(map) = obj {
        assert_eq!(map.len(), 2);
        let a = map.iter().find(|(k, _)| k == "a").map(|(_, v)| v);
        assert_eq!(a, Some(&JsonValue::Number("1".to_string())));
    } else {
        panic!("expected object");
    }
}

#[test]
fn test_canonical_json() {
    let obj = JsonValue::parse(r#"{"z":1,"a":2}"#).unwrap();
    assert_eq!(obj.to_canonical_json(), r#"{"a":2,"z":1}"#);
}

#[test]
fn test_canon_minimal() {
    let input = r#"{"v":1,"type":"trace.start","i":0,"t":"test"}"#;
    let val = JsonValue::parse(input).unwrap();
    let ev = canon_event(&val).unwrap();
    assert_eq!(ev.v, 1);
    assert_eq!(ev.event_type, "trace.start");
    assert_eq!(ev.i, 0);
    assert_eq!(ev.t, Some("test".to_string()));
}

#[test]
fn test_canon_json_output() {
    let input = r#"{"i":0,"type":"trace.start","v":1}"#;
    let val = JsonValue::parse(input).unwrap();
    let ev = canon_event(&val).unwrap();
    let json = canon_event_json(&ev);
    assert_eq!(json, r#"{"v":1,"type":"trace.start","i":0}"#);
}

#[test]
fn test_contiguity_check() {
    let events = vec![
        JsonValue::parse(r#"{"v":1,"type":"a","i":0}"#).unwrap(),
        JsonValue::parse(r#"{"v":1,"type":"b","i":2}"#).unwrap(),
    ];
    let result = canon_events(&events);
    assert!(result.is_err());
    assert!(result.unwrap_err().contains("contiguous"));
}
