use adscli_core::value::{i64_to_dec, parse_json, to_json, DynamicValue};

fn obj(fields: Vec<(&str, DynamicValue)>) -> DynamicValue {
    DynamicValue::Obj(fields.into_iter().map(|(k, v)| (k.to_string(), v)).collect())
}

#[test]
fn serializes_scalars() {
    assert_eq!(to_json(&DynamicValue::Null), "null");
    assert_eq!(to_json(&DynamicValue::Bool(true)), "true");
    assert_eq!(to_json(&DynamicValue::Bool(false)), "false");
    assert_eq!(to_json(&DynamicValue::Num("42".to_string())), "42");
    assert_eq!(to_json(&DynamicValue::Str("hi".to_string())), "\"hi\"");
}

#[test]
fn serializes_nested_structures() {
    let v = obj(vec![
        ("customerId", DynamicValue::Str("123".to_string())),
        ("rows", DynamicValue::List(vec![
            DynamicValue::Num("1".to_string()),
            obj(vec![("q", DynamicValue::Bool(false))]),
        ])),
    ]);
    assert_eq!(to_json(&v), "{\"customerId\":\"123\",\"rows\":[1,{\"q\":false}]}");
    assert_eq!(to_json(&obj(vec![])), "{}");
    assert_eq!(to_json(&DynamicValue::List(vec![])), "[]");
}

#[test]
fn serializes_escapes_as_serde_json_does() {
    let v = DynamicValue::Str("a\"b\\c\nd\te\u{8}\u{c}\r\u{1f}".to_string());
    assert_eq!(to_json(&v), "\"a\\\"b\\\\c\\nd\\te\\b\\f\\r\\u001f\"");
    let via_serde = serde_json::to_string("a\"b\\c\nd\te\u{8}\u{c}\r\u{1f}").unwrap();
    assert_eq!(to_json(&v), via_serde);
}

#[test]
fn parse_round_trips_serialized_values() {
    let samples = vec![
        DynamicValue::Null,
        DynamicValue::Bool(true),
        DynamicValue::Num("-12.5e3".to_string()),
        DynamicValue::Str("he\"llo\nworld".to_string()),
        DynamicValue::List(vec![]),
        obj(vec![]),
        obj(vec![
            ("customerId", DynamicValue::Str("123".to_string())),
            ("nested", obj(vec![("xs", DynamicValue::List(vec![
                DynamicValue::Num("1".to_string()),
                DynamicValue::Num("2".to_string()),
                DynamicValue::Null,
            ]))])),
        ]),
    ];
    for v in samples {
        let text = to_json(&v);
        let back = parse_json(&text).expect("canonical text parses");
        assert_eq!(to_json(&back), text);
    }
}

#[test]
fn parse_accepts_serde_json_output() {
    let mut id = serde_json::Map::new();
    id.insert("id".to_string(), serde_json::Value::String("7".to_string()));
    let mut campaign = serde_json::Map::new();
    campaign.insert("campaign".to_string(), serde_json::Value::Object(id));
    let mut root = serde_json::Map::new();
    root.insert(
        "results".to_string(),
        serde_json::Value::Array(vec![serde_json::Value::Object(campaign)]),
    );
    root.insert("fieldMask".to_string(), serde_json::Value::String("campaign.id".to_string()));
    root.insert("unicode".to_string(), serde_json::Value::String("h\u{e9}llo \u{2713}".to_string()));
    let text = serde_json::to_string(&serde_json::Value::Object(root)).unwrap();
    let parsed = parse_json(&text).expect("serde output is canonical");
    assert_eq!(to_json(&parsed), text);
}

#[test]
fn parse_rejects_malformed_and_noncanonical_text() {
    assert!(parse_json("").is_none());
    assert!(parse_json("nul").is_none());
    assert!(parse_json("{\"a\":1,}").is_none());
    assert!(parse_json("[1, 2]").is_none(), "whitespace is not canonical");
    assert!(parse_json("\"\\x\"").is_none());
    assert!(parse_json("{\"a\"}").is_none());
    assert!(parse_json("[1]extra").is_none());
}

#[test]
fn decimal_formatting_is_exact() {
    assert_eq!(i64_to_dec(0), "0");
    assert_eq!(i64_to_dec(7), "7");
    assert_eq!(i64_to_dec(-1), "-1");
    assert_eq!(i64_to_dec(1050), "1050");
    assert_eq!(i64_to_dec(i64::MAX), "9223372036854775807");
    assert_eq!(i64_to_dec(i64::MIN), "-9223372036854775808");
}
