//! The wire codec on raw bytes: what parses, what is rejected, and what
//! values print as.

use axum_websockets::json::{parse_json, to_bytes, JsonVal};

fn parse(text: &str) -> Option<JsonVal> {
    parse_json(&text.as_bytes().to_vec())
}

fn print(v: &JsonVal) -> String {
    String::from_utf8(to_bytes(v)).unwrap()
}

#[test]
fn parses_scalars() {
    assert_eq!(parse("null"), Some(JsonVal::Null));
    assert_eq!(parse("true"), Some(JsonVal::Bool(true)));
    assert_eq!(parse("false"), Some(JsonVal::Bool(false)));
    assert_eq!(parse("42"), Some(JsonVal::Num(b"42".to_vec())));
    assert_eq!(parse("-3.5e2"), Some(JsonVal::Num(b"-3.5e2".to_vec())));
    assert_eq!(parse("\"hey\""), Some(JsonVal::Str(b"hey".to_vec())));
}

#[test]
fn parses_with_whitespace() {
    assert_eq!(parse("  \t\r\n null \n"), Some(JsonVal::Null));
    assert_eq!(
        parse(" [ 1 , 2 ] "),
        Some(JsonVal::Arr(vec![
            JsonVal::Num(b"1".to_vec()),
            JsonVal::Num(b"2".to_vec()),
        ]))
    );
}

#[test]
fn parses_nested_values() {
    let v = parse("{\"k\": [null, {\"x\": 0}], \"m\": \"\"}").unwrap();
    assert_eq!(
        v,
        JsonVal::Obj(vec![
            (
                b"k".to_vec(),
                JsonVal::Arr(vec![
                    JsonVal::Null,
                    JsonVal::Obj(vec![(b"x".to_vec(), JsonVal::Num(b"0".to_vec()))]),
                ])
            ),
            (b"m".to_vec(), JsonVal::Str(vec![])),
        ])
    );
}

#[test]
fn parses_string_escapes() {
    assert_eq!(parse("\"a\\nb\""), Some(JsonVal::Str(b"a\nb".to_vec())));
    assert_eq!(parse("\"q\\\"\\\\/\""), Some(JsonVal::Str(b"q\"\\/".to_vec())));
    assert_eq!(parse("\"\\u0041\""), Some(JsonVal::Str(b"A".to_vec())));
    // a two-byte and a three-byte scalar
    assert_eq!(
        parse("\"\\u00e9\""),
        Some(JsonVal::Str(vec![0xC3, 0xA9]))
    );
    assert_eq!(
        parse("\"\\u20ac\""),
        Some(JsonVal::Str(vec![0xE2, 0x82, 0xAC]))
    );
    // a surrogate pair
    assert_eq!(
        parse("\"\\ud83d\\ude00\""),
        Some(JsonVal::Str(vec![0xF0, 0x9F, 0x98, 0x80]))
    );
}

#[test]
fn rejects_malformed_frames() {
    assert_eq!(parse(""), None);
    assert_eq!(parse("nul"), None);
    assert_eq!(parse("tru"), None);
    assert_eq!(parse("01"), None);
    assert_eq!(parse("1."), None);
    assert_eq!(parse("1e"), None);
    assert_eq!(parse("\"unterminated"), None);
    assert_eq!(parse("\"bad\\escape\""), None);
    assert_eq!(parse("\"\\ud800\""), None);
    assert_eq!(parse("[1,]"), None);
    assert_eq!(parse("[1 2]"), None);
    assert_eq!(parse("{\"a\" 1}"), None);
    assert_eq!(parse("{\"a\": 1"), None);
    assert_eq!(parse("{1: 2}"), None);
    assert_eq!(parse("null null"), None);
    assert_eq!(parse("\u{1}"), None);
}

#[test]
fn agrees_with_an_independent_parser() {
    let cases = [
        "null",
        "[0, 1.5, \"x\"]",
        "{\"a\": {\"b\": []}}",
        "\"\\u00e9\\n\"",
        "01",
        "[1,]",
        "{\"a\"}",
        "\"\\ud800\"",
    ];
    for text in cases {
        let ours = parse(text).is_some();
        let serde = serde_json::from_str::<serde_json::Value>(text).is_ok();
        assert_eq!(ours, serde, "disagreement on {:?}", text);
    }
}

#[test]
fn prints_values_exactly() {
    assert_eq!(print(&JsonVal::Null), "null");
    assert_eq!(print(&JsonVal::Bool(true)), "true");
    assert_eq!(print(&JsonVal::Num(b"-7.25".to_vec())), "-7.25");
    assert_eq!(print(&JsonVal::Str(b"ok".to_vec())), "\"ok\"");
    assert_eq!(print(&JsonVal::Arr(vec![])), "[]");
    assert_eq!(
        print(&JsonVal::Arr(vec![JsonVal::Null, JsonVal::Bool(false)])),
        "[null,false]"
    );
    assert_eq!(
        print(&JsonVal::Obj(vec![
            (b"a".to_vec(), JsonVal::Num(b"1".to_vec())),
            (b"b".to_vec(), JsonVal::Str(vec![])),
        ])),
        "{\"a\":1,\"b\":\"\"}"
    );
}

#[test]
fn prints_escapes_exactly() {
    assert_eq!(
        print(&JsonVal::Str(b"q\"\\\n\t".to_vec())),
        "\"q\\\"\\\\\\n\\t\""
    );
    assert_eq!(print(&JsonVal::Str(vec![0x07])), "\"\\u0007\"");
    assert_eq!(print(&JsonVal::Str(vec![0x1F])), "\"\\u001f\"");
}

#[test]
fn printed_values_parse_back() {
    let samples = vec![
        JsonVal::Null,
        JsonVal::Num(b"1e-3".to_vec()),
        JsonVal::Str(b"with \"quotes\" and \\slashes\\".to_vec()),
        JsonVal::Arr(vec![
            JsonVal::Bool(true),
            JsonVal::Obj(vec![(b"k".to_vec(), JsonVal::Str(b"v".to_vec()))]),
        ]),
    ];
    for v in samples {
        let text = to_bytes(&v);
        assert_eq!(parse_json(&text), Some(v));
    }
}

#[test]
fn printed_values_are_well_formed_json() {
    let v = JsonVal::Obj(vec![(
        b"payload".to_vec(),
        JsonVal::Arr(vec![JsonVal::Str(vec![0x01, 0xC3, 0xA9])]),
    )]);
    let text = to_bytes(&v);
    assert!(serde_json::from_slice::<serde_json::Value>(&text).is_ok());
}

#[test]
fn reparsing_printed_frames_is_stable() {
    let texts = [
        "{\"system\":\"pc_usage\",\"task\":\"cpu_load\",\"payload\":{\"n\":[1,2.5e-1]}}",
        "[\"\\u00e9\", \"\\ud83d\\ude00\", -0.5]",
    ];
    for text in texts {
        let first = parse(text).unwrap();
        let printed = to_bytes(&first);
        let second = parse_json(&printed).unwrap();
        assert_eq!(first, second);
    }
}

#[test]
fn nesting_is_bounded() {
    // the frame budget admits 128 container levels and no more, so a
    // hostile frame cannot drive the decoder's recursion arbitrarily deep
    let deep_ok = format!("{}{}", "[".repeat(128), "]".repeat(128));
    assert!(parse(&deep_ok).is_some());
    let too_deep = format!("{}{}", "[".repeat(129), "]".repeat(129));
    assert_eq!(parse(&too_deep), None);
    let objects = format!("{}1{}", "{\"k\":".repeat(200), "}".repeat(200));
    assert_eq!(parse(&objects), None);
}
