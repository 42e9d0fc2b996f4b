use masking_room::audit::canonical_json;
use masking_room::json;
use masking_room::json::{parse, write_pretty, Value};

fn complaint(text: &str) -> String {
    match parse(text) {
        Ok(v) => panic!("{} was read as {:?}", text, v),
        Err(e) => e,
    }
}

fn sample() -> Value {
    Value::obj(vec![
        ("名", Value::str("a\"\\\n\u{1}密")),
        ("list", Value::Arr(vec![Value::Null, Value::Bool(true), Value::Num("-1.5e3".to_string())])),
        ("empty", Value::Obj(vec![])),
        ("none", Value::Arr(vec![])),
    ])
}

#[test]
fn compact_text_reads_back() {
    let text = json::stringify(&sample());
    assert_eq!(
        text,
        "{\"名\":\"a\\\"\\\\\\n\\u0001密\",\"list\":[null,true,-1.5e3],\"empty\":{},\"none\":[]}"
    );
    assert_eq!(parse(&text).unwrap(), sample());
}

#[test]
fn text_over_several_lines_reads_back() {
    let mut out = String::new();
    write_pretty(&mut out, &sample(), 0);
    assert_eq!(
        out,
        "{\n  \"名\": \"a\\\"\\\\\\n\\u0001密\",\n  \"list\": [\n    null,\n    true,\n    -1.5e3\n  ],\n  \"empty\": {},\n  \"none\": []\n}"
    );
    assert_eq!(parse(&out).unwrap(), sample());
}

#[test]
fn escapes_are_read() {
    assert_eq!(parse("\"\\u0041\\ud83d\\ude00\\/\\b\\f\"").unwrap(), Value::str("A😀/\u{8}\u{c}"));
    assert_eq!(parse(" [ 1 , 2 ] ").unwrap(), parse("[1,2]").unwrap());
}

#[test]
fn members_are_found() {
    let v = sample();
    assert_eq!(v.get("名").unwrap().as_str(), Some("a\"\\\n\u{1}密"));
    assert!(v.get("missing").is_none());
    assert!(Value::Null.get("x").is_none());
    assert_eq!(v.get("list").unwrap().as_array().unwrap().len(), 3);
    assert_eq!(v.as_object().unwrap().len(), 4);
    assert_eq!(Value::Num("42".to_string()).as_u64(), Some(42));
    assert_eq!(Value::Num("-1".to_string()).as_u64(), None);
    assert_eq!(Value::Num("18446744073709551616".to_string()).as_u64(), None);
    assert_eq!(Value::str("42").as_u64(), None);
    let pairs = v.clone().into_object().unwrap();
    assert_eq!(Value::from_pairs(pairs), v);
    assert!(Value::Bool(true).into_object().is_none());
}

#[test]
fn what_is_no_json() {
    assert_eq!(complaint(""), "unexpected end");
    assert_eq!(complaint("nul"), "bad literal");
    assert_eq!(complaint("\"a"), "unterminated string");
    assert_eq!(complaint("\"\\x\""), "bad escape");
    assert_eq!(complaint("\"\\u12"), "bad unicode escape");
    assert_eq!(complaint("\"\\u12g4\""), "bad unicode hex");
    assert_eq!(complaint("\"\\ud800x\""), "expected low surrogate");
    assert_eq!(complaint("\"\\ud800\\u0041\""), "bad low surrogate");
    assert_eq!(complaint("\"\\udc00\""), "invalid codepoint");
    assert_eq!(complaint("{\"a\":1,\"a\":2}"), "duplicate key: a");
    assert_eq!(complaint("{\"a\" 1}"), "expected : at 5");
    assert_eq!(complaint("{\"a\":1;"), "expected , or } at 6");
    assert_eq!(complaint("[1;"), "expected , or ] at 2");
    assert_eq!(complaint("1 2"), "unexpected trailing data at 2");
    assert_eq!(complaint("?"), "unexpected byte ? at 0");
    assert_eq!(complaint("-"), "bad number: -");
}

#[test]
fn canonical_text_has_its_keys_in_order() {
    let a = parse("{\"b\":{\"z\":1,\"y\":[{\"k\":1,\"j\":2}]},\"a\":\"\\u0007\\n/\u{7f}\"}").unwrap();
    let b = parse("{\"a\":\"\\u0007\\n/\u{7f}\",\"b\":{\"y\":[{\"j\":2,\"k\":1}],\"z\":1}}").unwrap();
    let text = canonical_json(&a);
    assert_eq!(
        text,
        "{\"a\":\"\\u0007\\n/\u{7f}\",\"b\":{\"y\":[{\"j\":2,\"k\":1}],\"z\":1}}"
    );
    assert_eq!(canonical_json(&b), text);
    assert_eq!(parse(&text).unwrap(), b);
}

#[test]
fn what_was_read_is_written_and_read_again() {
    let value = parse(" { \"b\" : [ 1.50 , -2E+3, \"\\u5bc6\\/\" ] , \"a\" : { } } ").unwrap();
    let compact = json::stringify(&value);
    assert_eq!(compact, "{\"b\":[1.50,-2E+3,\"密/\"],\"a\":{}}");
    assert_eq!(parse(&compact).unwrap(), value);
    let mut lines = String::new();
    write_pretty(&mut lines, &value, 0);
    assert_eq!(parse(&lines).unwrap(), value);
}
