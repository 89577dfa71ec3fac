use json_diff::{
    compare, ArrayComparison, Comparison, Difference, JsonNumber, JsonValue, ObjectComparison,
};

#[test]
fn compares_simple_structures() {
    assert_eq!(
        compare(&json("{\"foo\": \"bar\"}"), &json("{\"foo\": \"bar\"}")),
        Comparison::Same(&json("{\"foo\": \"bar\"}"), &json("{\"foo\": \"bar\"}"))
    );

    assert_eq!(
        compare(&json("\"foo\""), &json("\"baz\"")),
        Comparison::Different(
            &json("\"foo\""),
            &json("\"baz\""),
            Difference::MismatchedString("foo", "baz")
        )
    );

    assert_eq!(
        compare(&json("1.5"), &json("0")),
        Comparison::Different(
            &json("1.5"),
            &json("0"),
            Difference::MismatchedNumber(
                &JsonNumber::Float(1.5f64.to_bits()),
                &JsonNumber::PosInt(0)
            )
        )
    );

    assert_eq!(
        compare(&json("1.5"), &json("\"baz\"")),
        Comparison::Different(
            &json("1.5"),
            &json("\"baz\""),
            Difference::MismatchedTypes(&json("1.5"), &json("\"baz\""))
        )
    );
}

#[test]
fn compares_simple_arrays() {
    assert_eq!(
        compare(&json("[1, 2, 3, 4]"), &json("[1, 2, 3]")),
        Comparison::Different(
            &json("[1, 2, 3, 4]"),
            &json("[1, 2, 3]"),
            Difference::MismatchedArray(vec![
                ArrayComparison::Same(0, &json("1")),
                ArrayComparison::Same(1, &json("2")),
                ArrayComparison::Same(2, &json("3")),
                ArrayComparison::RemovedArrayValue(3, &json("4"))
            ])
        )
    );

    assert_eq!(
        compare(&json("[1, 2, 3]"), &json("[1, 2, 3, 4]")),
        Comparison::Different(
            &json("[1, 2, 3]"),
            &json("[1, 2, 3, 4]"),
            Difference::MismatchedArray(vec![
                ArrayComparison::Same(0, &json("1")),
                ArrayComparison::Same(1, &json("2")),
                ArrayComparison::Same(2, &json("3")),
                ArrayComparison::AddedArrayValue(3, &json("4")),
            ])
        )
    );

    assert_eq!(
        compare(&json("[1, 2, 3]"), &json("[1, 2, 4]")),
        Comparison::Different(
            &json("[1, 2, 3]"),
            &json("[1, 2, 4]"),
            Difference::MismatchedArray(vec![
                ArrayComparison::Same(0, &json("1")),
                ArrayComparison::Same(1, &json("2")),
                ArrayComparison::ArrayDifference(
                    2,
                    Difference::MismatchedNumber(&JsonNumber::PosInt(3), &JsonNumber::PosInt(4))
                )
            ])
        )
    );
}

#[test]
fn handles_complex_array_interactions() {
    assert_eq!(
        compare(&json("[1, 2, 3, 4, 5, 8]"), &json("[1, 2, 4, 5, 6, 7, 8]")),
        Comparison::Different(
            &json("[1, 2, 3, 4, 5, 8]"),
            &json("[1, 2, 4, 5, 6, 7, 8]"),
            Difference::MismatchedArray(vec![
                ArrayComparison::Same(0, &json("1")),
                ArrayComparison::Same(1, &json("2")),
                ArrayComparison::RemovedArrayValue(2, &json("3")),
                ArrayComparison::Same(3, &json("4")),
                ArrayComparison::Same(4, &json("5")),
                ArrayComparison::AddedArrayValue(5, &json("6")),
                ArrayComparison::AddedArrayValue(6, &json("7")),
                ArrayComparison::Same(7, &json("8")),
            ])
        )
    );
}

#[test]
fn compare_simple_objects() {
    assert_eq!(
        compare(&json("{\"name\": \"Jane\"}"), &json("{\"name\": \"John\"}")),
        Comparison::Different(
            &json("{\"name\": \"Jane\"}"),
            &json("{\"name\": \"John\"}"),
            Difference::MismatchedObject(vec![ObjectComparison::MismatchedObjectValue(
                "name",
                Difference::MismatchedString("Jane", "John")
            )])
        )
    );

    assert_eq!(
        compare(
            &json("{\"name\": \"Jane\", \"age\": 30}"),
            &json("{\"name\": \"John\"}")
        ),
        Comparison::Different(
            &json("{\"name\": \"Jane\", \"age\": 30}"),
            &json("{\"name\": \"John\"}"),
            Difference::MismatchedObject(vec![
                ObjectComparison::RemovedObjectKey("age", &json("30")),
                ObjectComparison::MismatchedObjectValue(
                    "name",
                    Difference::MismatchedString("Jane", "John")
                ),
            ])
        )
    );

    assert_eq!(
        compare(
            &json("{\"name\": \"Jane\"}"),
            &json("{\"name\": \"John\", \"age\": 30}")
        ),
        Comparison::Different(
            &json("{\"name\": \"Jane\"}"),
            &json("{\"name\": \"John\", \"age\": 30}"),
            Difference::MismatchedObject(vec![
                ObjectComparison::MismatchedObjectValue(
                    "name",
                    Difference::MismatchedString("Jane", "John")
                ),
                ObjectComparison::AddedObjectKey("age", &json("30")),
            ])
        )
    );

    assert_eq!(
        compare(
            &json("{\"name\": \"Jane\", \"dob\": \"01/01/1990\"}"),
            &json("{\"name\": \"John\", \"age\": 30}")
        ),
        Comparison::Different(
            &json("{\"name\": \"Jane\", \"dob\": \"01/01/1990\"}"),
            &json("{\"name\": \"John\", \"age\": 30}"),
            Difference::MismatchedObject(vec![
                ObjectComparison::RemovedObjectKey("dob", &json("\"01/01/1990\"")),
                ObjectComparison::MismatchedObjectValue(
                    "name",
                    Difference::MismatchedString("Jane", "John")
                ),
                ObjectComparison::AddedObjectKey("age", &json("30")),
            ])
        )
    );
}

#[test]
fn complex_example() {
    let removed_json = json("{\"person\": {\"name\": \"Jane\", \"age\": 31}}");
    let removed_array = ArrayComparison::RemovedArrayValue(1, &removed_json);
    let john = JsonValue::String("John".to_string());

    assert_eq!(
        compare(
            &json("[{\"person\": {\"name\": \"John\", \"age\": 31}}, {\"person\": {\"name\": \"Jane\", \"age\": 31}}]"),
            &json("[{\"person\": {\"name\": \"John\", \"age\": 30}}]")
        ),
        Comparison::Different(
            &json("[{\"person\": {\"name\": \"John\", \"age\": 31}}, {\"person\": {\"name\": \"Jane\", \"age\": 31}}]"),
            &json("[{\"person\": {\"name\": \"John\", \"age\": 30}}]"),
            Difference::MismatchedArray(vec![
                ArrayComparison::ArrayDifference(
                    0,
                    Difference::MismatchedObject(vec![
                        ObjectComparison::MismatchedObjectValue(
                            "person",
                            Difference::MismatchedObject(vec![
                                ObjectComparison::MismatchedObjectValue(
                                    "age",
                                    Difference::MismatchedNumber(
                                        &JsonNumber::PosInt(31),
                                        &JsonNumber::PosInt(30),
                                    ),
                                ),
                                ObjectComparison::Same("name", &john),
                            ])
                        ),
                    ]),
                ),
                removed_array,
            ])
        )
    );
}

#[test]
fn adjacent_insertion_and_deletion_fold_into_a_change() {
    assert_eq!(
        compare(&json("[1, 3]"), &json("[1, 4]")),
        Comparison::Different(
            &json("[1, 3]"),
            &json("[1, 4]"),
            Difference::MismatchedArray(vec![
                ArrayComparison::Same(0, &json("1")),
                ArrayComparison::ArrayDifference(
                    1,
                    Difference::MismatchedNumber(&JsonNumber::PosInt(3), &JsonNumber::PosInt(4))
                ),
            ])
        )
    );
}

#[test]
fn repeated_keys_compare_by_first_entry() {
    let x = JsonValue::Object(vec![
        ("a".to_string(), JsonValue::Bool(true)),
        ("a".to_string(), JsonValue::Null),
    ]);
    let y = JsonValue::Object(vec![("a".to_string(), JsonValue::Bool(true))]);
    assert!(matches!(compare(&x, &x), Comparison::Same(_, _)));
    assert!(matches!(compare(&x, &y), Comparison::Same(_, _)));
    assert!(matches!(compare(&y, &x), Comparison::Same(_, _)));
}

#[test]
fn comparing_a_document_with_itself_is_same() {
    let doc = json("{\"a\": [1, {\"b\": null}, 2.5, -3], \"c\": {\"d\": [true, false]}}");
    assert!(matches!(compare(&doc, &doc), Comparison::Same(_, _)));
}

#[test]
fn comparison_is_deterministic() {
    let x = json("{\"a\": [1, 2, 3, 9], \"b\": \"x\"}");
    let y = json("{\"a\": [2, 3, 4], \"c\": 1}");
    assert_eq!(compare(&x, &y), compare(&x, &y));
}

#[test]
fn sameness_is_symmetric() {
    let x = json("{\"a\": 1, \"b\": [1, 2]}");
    let y = json("{\"b\": [1, 2], \"a\": 1}");
    let z = json("{\"b\": [2, 1], \"a\": 1}");
    assert!(matches!(compare(&x, &y), Comparison::Same(_, _)));
    assert!(matches!(compare(&y, &x), Comparison::Same(_, _)));
    assert!(matches!(compare(&x, &z), Comparison::Different(_, _, _)));
    assert!(matches!(compare(&z, &x), Comparison::Different(_, _, _)));
}

#[test]
fn array_records_are_bounded() {
    let x = json("[1, 2, 3, 4, 5]");
    let y = json("[6, 7, 8]");
    match compare(&x, &y) {
        Comparison::Different(_, _, Difference::MismatchedArray(records)) => {
            assert!(records.len() <= 8);
            assert_eq!(records.len(), 7);
        }
        other => panic!("unexpected {:?}", other),
    }
}

#[test]
fn numbers_compare_by_kind_and_value() {
    assert!(matches!(compare(&json("0.0"), &json("-0.0")), Comparison::Same(_, _)));
    assert!(matches!(compare(&json("1"), &json("1.0")), Comparison::Different(_, _, _)));
    assert!(matches!(compare(&json("-1"), &json("-1")), Comparison::Same(_, _)));
}

#[test]
fn kinds_that_differ_are_a_leaf() {
    assert_eq!(
        compare(&json("[1]"), &json("{\"a\": 1}")),
        Comparison::Different(
            &json("[1]"),
            &json("{\"a\": 1}"),
            Difference::MismatchedTypes(&json("[1]"), &json("{\"a\": 1}"))
        )
    );
    assert_eq!(
        compare(&json("true"), &json("false")),
        Comparison::Different(&json("true"), &json("false"), Difference::MismatchedBool(true, false))
    );
}

fn convert(v: serde_json::Value) -> JsonValue {
    match v {
        serde_json::Value::Null => JsonValue::Null,
        serde_json::Value::Bool(b) => JsonValue::Bool(b),
        serde_json::Value::Number(n) => {
            if let Some(u) = n.as_u64() {
                JsonValue::Number(JsonNumber::PosInt(u))
            } else if let Some(i) = n.as_i64() {
                JsonValue::Number(JsonNumber::NegInt(i))
            } else {
                JsonValue::Number(JsonNumber::Float(n.as_f64().unwrap().to_bits()))
            }
        }
        serde_json::Value::String(s) => JsonValue::String(s),
        serde_json::Value::Array(a) => JsonValue::Array(a.into_iter().map(convert).collect()),
        serde_json::Value::Object(m) => {
            JsonValue::Object(m.into_iter().map(|(k, v)| (k, convert(v))).collect())
        }
    }
}

fn json(input: &str) -> JsonValue {
    convert(serde_json::from_str(input).unwrap())
}
