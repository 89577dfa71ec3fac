use json_diff::patch::{generate_operations, pointer_string};
use json_diff::{compare, generate_patch, JsonNumber, JsonValue, Operation, PatchOperation};

#[test]
fn generates_simple_patches() {
    let json1 = json(
        r#"{ "name": "Jane Doe", "friends-count": 12, "dob": "2000-01-02", "admin": true, "hobbies": ["programming", "math"] }"#,
    );
    let json2 = json(
        r#"{ "name": "Jane Doe", "friends-count": 13, "admin": false, "dob": "2000-01-01", "hobbies": ["Rust"], "email": "jane@example.com" }"#,
    );

    let comparison = compare(&json1, &json2);

    let generated_patch = json(
        r#"[
            { "op": "replace", "path": "/admin", "value": false },
            { "op": "replace", "path": "/dob", "value": "2000-01-01" },
            { "op": "replace", "path": "/friends-count", "value": 13 },
            { "op": "replace", "path": "/hobbies/0", "value": "Rust" },
            { "op": "remove", "path": "/hobbies/1" },
            { "op": "add", "path": "/email", "value": "jane@example.com" }
        ]"#,
    );

    assert_eq!(generate_patch(&comparison), generated_patch);
}

#[test]
fn handles_array_insertions() {
    let json1 = json(r#"{ "name": "Jane Doe", "dob": "2000-01-01", "hobbies": [] }"#);
    let json2 = json(r#"{ "name": "Jane Doe", "dob": "2000-01-01", "hobbies": ["Rust"] }"#);

    let comparison = compare(&json1, &json2);

    let generated_patch = json(r#"[ { "op": "add", "path": "/hobbies/0", "value": "Rust" } ]"#);

    assert_eq!(generate_patch(&comparison), generated_patch);
}

#[test]
fn generates_an_empty_list_when_no_differences_exist() {
    let json1 = json(
        r#"{ "name": "Jane Doe", "dob": "2000-01-01", "hobbies": ["programming", "math"] }"#,
    );

    let comparison = compare(&json1, &json1);

    let generated_patch = json("[]");

    assert_eq!(generate_patch(&comparison), generated_patch);
}

#[test]
fn nested_changes_recurse_into_array_elements() {
    let x = json(r#"[{"a": 1, "b": 2}]"#);
    let y = json(r#"[{"a": 1, "b": 3}]"#);
    let expected = json(r#"[ { "op": "replace", "path": "/0/b", "value": 3 } ]"#);
    assert_eq!(generate_patch(&compare(&x, &y)), expected);
}

#[test]
fn keys_are_escaped_in_paths() {
    let x = json(r#"{"a/b": 1, "c~d": 2}"#);
    let y = json(r#"{"a/b": 5, "c~d": 6}"#);
    let expected = json(
        r#"[
            { "op": "replace", "path": "/a~1b", "value": 5 },
            { "op": "replace", "path": "/c~0d", "value": 6 }
        ]"#,
    );
    assert_eq!(generate_patch(&compare(&x, &y)), expected);
}

#[test]
fn indices_past_nine_are_written_in_decimal() {
    let x = json("[0, 1, 2, 3, 4, 5, 6, 7, 8, 9, 10, 11]");
    let y = json("[0, 1, 2, 3, 4, 5, 6, 7, 8, 9, 10, 12]");
    let expected = json(r#"[ { "op": "replace", "path": "/11", "value": 12 } ]"#);
    assert_eq!(generate_patch(&compare(&x, &y)), expected);
}

#[test]
fn type_changes_emit_nothing() {
    let x = json(r#"{"a": 1}"#);
    let y = json(r#"{"a": "1"}"#);
    assert_eq!(generate_patch(&compare(&x, &y)), json("[]"));
}

fn to_operation(op: &PatchOperation) -> Operation {
    match op {
        PatchOperation::Add { path, value } => Operation::Add {
            path: pointer_string(path),
            value: value.clone(),
        },
        PatchOperation::Remove { path } => Operation::Remove {
            path: pointer_string(path),
        },
        PatchOperation::Replace { path, value } => Operation::Replace {
            path: pointer_string(path),
            value: value.clone(),
        },
    }
}

#[test]
fn applying_the_patch_reproduces_the_target() {
    let x = json(r#"{"a": 1, "b": [1, 2, 3], "c": {"d": "x", "e": true}, "f/g": 0}"#);
    let y = json(r#"{"a": 2, "b": [1, 2, 3, 4, 5], "c": {"d": "y"}, "f/g": 1, "h": null}"#);
    let comparison = compare(&x, &y);
    let mut doc = x.clone();
    for op in generate_operations(&comparison) {
        Operation::apply(&mut doc, &to_operation(&op)).unwrap();
    }
    assert_eq!(doc, y);
}

#[test]
fn applying_the_patch_of_removals_reproduces_the_target() {
    let x = json(r#"{"list": ["a", "b", "c"], "n": 1.5}"#);
    let y = json(r#"{"list": ["a", "b"], "n": 2.5}"#);
    let mut doc = x.clone();
    for op in generate_operations(&compare(&x, &y)) {
        Operation::apply(&mut doc, &to_operation(&op)).unwrap();
    }
    assert_eq!(doc, y);
}

#[test]
fn pointer_string_escapes_segments() {
    let path = vec!["a/b".to_string(), "~".to_string(), "".to_string()];
    assert_eq!(pointer_string(&path), "/a~1b/~0/");
    assert_eq!(JsonNumber::PosInt(1), JsonNumber::PosInt(1));
}

fn convert(v: serde_json::Value) -> JsonValue {
    match v {
        serde_json::Value::Null => JsonValue::Null,
        serde_json::Value::Bool(b) => JsonValue::Bool(b),
        serde_json::Value::Number(n) => {
            if let Some(u) = n.as_u64() {
                JsonValue::Number(JsonNumber::PosInt(u))
            } else if let Some(i) = n.as_i64() {
                JsonValue::Number(JsonNumber::NegInt(i))
            } else {
                JsonValue::Number(JsonNumber::Float(n.as_f64().unwrap().to_bits()))
            }
        }
        serde_json::Value::String(s) => JsonValue::String(s),
        serde_json::Value::Array(a) => JsonValue::Array(a.into_iter().map(convert).collect()),
        serde_json::Value::Object(m) => {
            JsonValue::Object(m.into_iter().map(|(k, v)| (k, convert(v))).collect())
        }
    }
}

fn json(input: &str) -> JsonValue {
    convert(serde_json::from_str(input).unwrap())
}
