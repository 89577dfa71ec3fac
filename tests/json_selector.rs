use json_diff::json_selector::parse;
use json_diff::{mutate_at, value_at, JsonNumber, JsonSelector, JsonValue, Selector};

#[test]
fn test_from_rfc6901() {
    let base_document = json(
        r#"
{
    "foo": ["bar", "baz"],
    "": 0,
    "a/b": 1,
    "c%d": 2,
    "e^f": 3,
    "g|h": 4,
    "i\\j": 5,
    "k\"l": 6,
    " ": 7,
    "m~n": 8
}
        "#,
    );
    assert_eq!(value_at(&base_document, ""), Ok(base_document.clone()));
    assert_eq!(
        value_at(&base_document, "/foo",),
        Ok(json("[\"bar\", \"baz\"]"))
    );
    assert_eq!(value_at(&base_document, "/foo/0",), Ok(json("\"bar\"")));
    assert_eq!(value_at(&base_document, "/",), Ok(json("0")));
    assert_eq!(value_at(&base_document, "/a~1b"), Ok(json("1")));
    assert_eq!(value_at(&base_document, "/c%d"), Ok(json("2")));
    assert_eq!(value_at(&base_document, "/e^f"), Ok(json("3")));
    assert_eq!(value_at(&base_document, "/g|h"), Ok(json("4")));
    assert_eq!(value_at(&base_document, "/i\\j"), Ok(json("5")));
    assert_eq!(value_at(&base_document, "/k\"l"), Ok(json("6")));
    assert_eq!(value_at(&base_document, "/ "), Ok(json("7")));
    assert_eq!(value_at(&base_document, "/m~0n"), Ok(json("8")));
}

#[test]
fn parse_full_document_works() {
    assert_eq!(parse("").unwrap(), JsonSelector::FullDocument);
}

#[test]
fn parse_tilde() {
    assert_eq!(
        parse("/m~0n").unwrap(),
        JsonSelector::JsonSelector(vec![Selector::Key("m~n".to_string())])
    );
}

#[test]
fn parse_empty_key() {
    assert_eq!(
        parse("/").unwrap(),
        JsonSelector::JsonSelector(vec![Selector::Key("".to_string())])
    );
}

#[test]
fn parse_slash() {
    assert_eq!(
        parse("/m~1n").unwrap(),
        JsonSelector::JsonSelector(vec![Selector::Key("m/n".to_string())])
    );
}

#[test]
fn parse_array_selector_works() {
    assert_eq!(
        parse("/a/0").unwrap(),
        JsonSelector::JsonSelector(vec![
            Selector::Key("a".to_string()),
            Selector::ArrayIndex(0)
        ])
    );
}

#[test]
fn mutate_at_selector() {
    let mut base = json("{\"a\": 1}");
    mutate_at(&mut base, "/a", json("[2, 1]"));
    mutate_at(&mut base, "/a/1", json("3"));
    mutate_at(&mut base, "/a/2", json("0"));
    mutate_at(&mut base, "/a/4", json("\"nope\""));
    mutate_at(&mut base, "/a/3", json("{\"new-object\": [1,2]}"));
    mutate_at(&mut base, "/a/3/new-object/0", json("3"));
    mutate_at(&mut base, "/a/5/new-object/0", json("3"));
    assert_eq!(base, json("{\"a\": [2, 3, 0, {\"new-object\": [3,2]}]}"));
}

#[test]
fn parse_dash_and_escapes_together() {
    assert_eq!(
        parse("/-/~01/12/-x/007").unwrap(),
        JsonSelector::JsonSelector(vec![
            Selector::LastElementInArray,
            Selector::Key("~1".to_string()),
            Selector::ArrayIndex(12),
            Selector::Key("-x".to_string()),
            Selector::ArrayIndex(7),
        ])
    );
}

#[test]
fn parse_index_too_large_is_a_key() {
    assert_eq!(
        parse("/99999999999999999999999").unwrap(),
        JsonSelector::JsonSelector(vec![Selector::Key(
            "99999999999999999999999".to_string()
        )])
    );
}

#[test]
fn parse_text_without_slash_is_no_pointer() {
    assert_eq!(parse("foo"), None);
    assert!(value_at(&json("{\"foo\": 1}"), "foo").is_err());
}

#[test]
fn value_at_misses_are_errors() {
    let doc = json("{\"a\": [], \"b\": [1, 2]}");
    assert!(value_at(&doc, "/a/-").is_err());
    assert!(value_at(&doc, "/b/2").is_err());
    assert!(value_at(&doc, "/b/x").is_err());
    assert!(value_at(&doc, "/c").is_err());
    assert_eq!(value_at(&doc, "/b/-"), Ok(json("2")));
}

#[test]
fn mutate_then_read_back() {
    let mut doc = json("{\"a\": {\"b\": [1, 2, 3]}, \"c/d\": true}");
    mutate_at(&mut doc, "/a/b/-", json("\"last\""));
    assert_eq!(value_at(&doc, "/a/b/2"), Ok(json("\"last\"")));
    mutate_at(&mut doc, "/c~1d", json("null"));
    assert_eq!(value_at(&doc, "/c~1d"), Ok(json("null")));
    mutate_at(&mut doc, "", json("5"));
    assert_eq!(doc, json("5"));
}

fn convert(v: serde_json::Value) -> JsonValue {
    match v {
        serde_json::Value::Null => JsonValue::Null,
        serde_json::Value::Bool(b) => JsonValue::Bool(b),
        serde_json::Value::Number(n) => {
            if let Some(u) = n.as_u64() {
                JsonValue::Number(JsonNumber::PosInt(u))
            } else if let Some(i) = n.as_i64() {
                JsonValue::Number(JsonNumber::NegInt(i))
            } else {
                JsonValue::Number(JsonNumber::Float(n.as_f64().unwrap().to_bits()))
            }
        }
        serde_json::Value::String(s) => JsonValue::String(s),
        serde_json::Value::Array(a) => JsonValue::Array(a.into_iter().map(convert).collect()),
        serde_json::Value::Object(m) => {
            JsonValue::Object(m.into_iter().map(|(k, v)| (k, convert(v))).collect())
        }
    }
}

fn json(input: &str) -> JsonValue {
    convert(serde_json::from_str(input).unwrap())
}
