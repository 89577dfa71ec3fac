use vstd::prelude::*;
use crate::json::{JsonModel, JsonNumber, JsonValue};

verus! {

/// How two values that are not equal differ.
#[derive(Debug, PartialEq)]
pub enum Difference<'a> {
    MismatchedString(&'a str, &'a str),
    MismatchedNumber(&'a JsonNumber, &'a JsonNumber),
    MismatchedBool(bool, bool),
    MismatchedTypes(&'a JsonValue, &'a JsonValue),
    MismatchedArray(Vec<ArrayComparison<'a>>),
    MismatchedObject(Vec<ObjectComparison<'a>>),
}

/// One record of an array alignment. The index counts the records emitted before it.
#[derive(Debug, PartialEq)]
pub enum ArrayComparison<'a> {
    ArrayDifference(usize, Difference<'a>),
    RemovedArrayValue(usize, &'a JsonValue),
    AddedArrayValue(usize, &'a JsonValue),
    Same(usize, &'a JsonValue),
}

/// One record of an object comparison, per key.
#[derive(Debug, PartialEq)]
pub enum ObjectComparison<'a> {
    AddedObjectKey(&'a str, &'a JsonValue),
    RemovedObjectKey(&'a str, &'a JsonValue),
    MismatchedObjectValue(&'a str, Difference<'a>),
    Same(&'a str, &'a JsonValue),
}

/// The content of a `Difference`.
pub enum DifferenceModel {
    MismatchedString(Seq<char>, Seq<char>),
    MismatchedNumber(JsonNumber, JsonNumber),
    MismatchedBool(bool, bool),
    MismatchedTypes(JsonModel, JsonModel),
    MismatchedArray(Seq<ArrayRecord>),
    MismatchedObject(Seq<ObjectRecord>),
}

/// The content of an `ArrayComparison`.
pub enum ArrayRecord {
    Changed(int, DifferenceModel),
    Removed(int, JsonModel),
    Added(int, JsonModel),
    Same(int, JsonModel),
}

/// The content of an `ObjectComparison`.
pub enum ObjectRecord {
    Added(Seq<char>, JsonModel),
    Removed(Seq<char>, JsonModel),
    Changed(Seq<char>, DifferenceModel),
    Same(Seq<char>, JsonModel),
}

pub open spec fn diff_model(d: Difference) -> DifferenceModel
    decreases d,
{
    match d {
        Difference::MismatchedString(a, b) => DifferenceModel::MismatchedString(a@, b@),
        Difference::MismatchedNumber(a, b) => DifferenceModel::MismatchedNumber(*a, *b),
        Difference::MismatchedBool(a, b) => DifferenceModel::MismatchedBool(a, b),
        Difference::MismatchedTypes(a, b) => DifferenceModel::MismatchedTypes(a@, b@),
        Difference::MismatchedArray(v) => DifferenceModel::MismatchedArray(
            Seq::new(
                v.len() as nat,
                |i: int|
                    if 0 <= i < v.len() {
                        array_record_model(v@[i])
                    } else {
                        ArrayRecord::Same(0, JsonModel::Null)
                    },
            ),
        ),
        Difference::MismatchedObject(v) => DifferenceModel::MismatchedObject(
            Seq::new(
                v.len() as nat,
                |i: int|
                    if 0 <= i < v.len() {
                        object_record_model(v@[i])
                    } else {
                        ObjectRecord::Same(Seq::empty(), JsonModel::Null)
                    },
            ),
        ),
    }
}

pub open spec fn array_record_model(c: ArrayComparison) -> ArrayRecord
    decreases c,
{
    match c {
        ArrayComparison::ArrayDifference(i, d) => ArrayRecord::Changed(i as int, diff_model(d)),
        ArrayComparison::RemovedArrayValue(i, v) => ArrayRecord::Removed(i as int, v@),
        ArrayComparison::AddedArrayValue(i, v) => ArrayRecord::Added(i as int, v@),
        ArrayComparison::Same(i, v) => ArrayRecord::Same(i as int, v@),
    }
}

pub open spec fn object_record_model(c: ObjectComparison) -> ObjectRecord
    decreases c,
{
    match c {
        ObjectComparison::AddedObjectKey(k, v) => ObjectRecord::Added(k@, v@),
        ObjectComparison::RemovedObjectKey(k, v) => ObjectRecord::Removed(k@, v@),
        ObjectComparison::MismatchedObjectValue(k, d) => ObjectRecord::Changed(k@, diff_model(d)),
        ObjectComparison::Same(k, v) => ObjectRecord::Same(k@, v@),
    }
}

} // verus!
