use json_diff::{JsonNumber, JsonValue, Operation, OperationError};

#[test]
fn add_past_the_end_is_an_invalid_index() {
    let mut doc = json(r#"{"a": [1, 2, 3]}"#);
    let op = Operation::Add {
        path: "/a/4".to_string(),
        value: json("\"x\""),
    };
    assert_eq!(
        Operation::apply(&mut doc, &op),
        Err(OperationError::InvalidIndex("/a/4".to_string()))
    );
    assert_eq!(doc, json(r#"{"a": [1, 2, 3]}"#));
}

#[test]
fn add_inserts_appends_and_sets() {
    let mut doc = json(r#"{"a": [1, 2, 3]}"#);
    let ops = vec![
        Operation::Add { path: "/a/1".to_string(), value: json("9") },
        Operation::Add { path: "/a/4".to_string(), value: json("8") },
        Operation::Add { path: "/a/-".to_string(), value: json("7") },
        Operation::Add { path: "/b".to_string(), value: json("true") },
        Operation::Add { path: "/a/0".to_string(), value: json("0") },
    ];
    for op in &ops {
        Operation::apply(&mut doc, op).unwrap();
    }
    assert_eq!(doc, json(r#"{"a": [0, 1, 9, 2, 3, 8, 7], "b": true}"#));
}

#[test]
fn add_under_a_missing_parent_is_reported() {
    let mut doc = json(r#"{"a": 1}"#);
    let op = Operation::Add { path: "/x/y".to_string(), value: json("1") };
    assert_eq!(
        Operation::apply(&mut doc, &op),
        Err(OperationError::MissingKeyForSelector("/x/y".to_string()))
    );
}

#[test]
fn remove_and_replace_need_the_target() {
    let mut doc = json(r#"{"a": 1, "b": [1, 2]}"#);
    assert_eq!(
        Operation::apply(&mut doc, &Operation::Remove { path: "/c".to_string() }),
        Err(OperationError::InvalidKey("/c".to_string()))
    );
    assert_eq!(
        Operation::apply(
            &mut doc,
            &Operation::Replace { path: "/c".to_string(), value: json("1") }
        ),
        Err(OperationError::InvalidKey("/c".to_string()))
    );
    Operation::apply(&mut doc, &Operation::Remove { path: "/b/0".to_string() }).unwrap();
    Operation::apply(
        &mut doc,
        &Operation::Replace { path: "/a".to_string(), value: json("\"z\"") },
    )
    .unwrap();
    assert_eq!(doc, json(r#"{"a": "z", "b": [2]}"#));
}

#[test]
fn test_compares_values() {
    let mut doc = json(r#"{"a": {"b": [1, 2]}}"#);
    assert_eq!(
        Operation::apply(
            &mut doc,
            &Operation::Test { path: "/a/b".to_string(), value: json("[1, 2]") }
        ),
        Ok(())
    );
    assert_eq!(
        Operation::apply(
            &mut doc,
            &Operation::Test { path: "/a/b".to_string(), value: json("[2, 1]") }
        ),
        Err(OperationError::FailedTest("/a/b".to_string()))
    );
    assert_eq!(
        Operation::apply(
            &mut doc,
            &Operation::Test { path: "/q".to_string(), value: json("1") }
        ),
        Err(OperationError::InvalidKey("/q".to_string()))
    );
}

#[test]
fn move_and_copy() {
    let mut doc = json(r#"{"a": {"b": 1}, "c": []}"#);
    Operation::apply(
        &mut doc,
        &Operation::Copy { from: "/a/b".to_string(), path: "/c/0".to_string() },
    )
    .unwrap();
    Operation::apply(
        &mut doc,
        &Operation::Move { from: "/a".to_string(), path: "/d".to_string() },
    )
    .unwrap();
    assert_eq!(doc, json(r#"{"c": [1], "d": {"b": 1}}"#));
}

#[test]
fn move_into_its_own_child_is_disallowed() {
    let mut doc = json(r#"{"a": {"b": 1}}"#);
    assert_eq!(
        Operation::apply(
            &mut doc,
            &Operation::Move { from: "/a".to_string(), path: "/a/b/c".to_string() }
        ),
        Err(OperationError::DisallowedMove("/a/b/c".to_string()))
    );
    assert_eq!(
        Operation::apply(
            &mut doc,
            &Operation::Move { from: "/z".to_string(), path: "/y".to_string() }
        ),
        Err(OperationError::InvalidKey("/z".to_string()))
    );
    assert_eq!(doc, json(r#"{"a": {"b": 1}}"#));
}

fn convert(v: serde_json::Value) -> JsonValue {
    match v {
        serde_json::Value::Null => JsonValue::Null,
        serde_json::Value::Bool(b) => JsonValue::Bool(b),
        serde_json::Value::Number(n) => {
            if let Some(u) = n.as_u64() {
                JsonValue::Number(JsonNumber::PosInt(u))
            } else if let Some(i) = n.as_i64() {
                JsonValue::Number(JsonNumber::NegInt(i))
            } else {
                JsonValue::Number(JsonNumber::Float(n.as_f64().unwrap().to_bits()))
            }
        }
        serde_json::Value::String(s) => JsonValue::String(s),
        serde_json::Value::Array(a) => JsonValue::Array(a.into_iter().map(convert).collect()),
        serde_json::Value::Object(m) => {
            JsonValue::Object(m.into_iter().map(|(k, v)| (k, convert(v))).collect())
        }
    }
}

fn json(input: &str) -> JsonValue {
    convert(serde_json::from_str(input).unwrap())
}
