use vstd::prelude::*;
use crate::difference::{
    ArrayComparison, ArrayRecord, Difference, DifferenceModel, ObjectComparison, ObjectRecord,
    array_record_model, diff_model, object_record_model,
};
use crate::json::{
    JsonModel, JsonValue, entries_model, json_eq, key_index, lemma_json_eq_reflexive,
    lemma_json_eq_symmetric, object_find,
};
use crate::lcs::{DiffComponent, Edit, LcsTable, component_is, lcs_script, lemma_script_shape};

verus! {

/// The outcome of comparing two documents.
#[derive(Debug, PartialEq)]
pub enum Comparison<'a> {
    Same(&'a JsonValue, &'a JsonValue),
    Different(&'a JsonValue, &'a JsonValue, Difference<'a>),
}

/// The record of an alignment step that is not folded into a change.
pub open spec fn single_record(x: Seq<JsonValue>, y: Seq<JsonValue>, e: Edit, idx: int) -> ArrayRecord {
    match e {
        Edit::Insert(j) => ArrayRecord::Added(idx, y[j]@),
        Edit::Delete(i) => ArrayRecord::Removed(idx, x[i]@),
        Edit::Keep(_, j) => ArrayRecord::Same(idx, y[j]@),
    }
}

/// The element positions that steps `k` and `k + 1` of the alignment `s` fold into one change:
/// a deletion and an insertion side by side, in either order.
pub open spec fn folded_pair(s: Seq<Edit>, k: int) -> Option<(int, int)> {
    if 0 <= k && k + 1 < s.len() {
        let e1 = s[k];
        let e2 = s[k + 1];
        if e1 is Delete && e2 is Insert {
            Some((e1->Delete_0, e2->Insert_0))
        } else if e1 is Insert && e2 is Delete {
            Some((e2->Delete_0, e1->Insert_0))
        } else {
            None
        }
    } else {
        None
    }
}

/// The records of the alignment `s` from step `k` on, numbered from `idx`. A deletion next to
/// an insertion, in either order, becomes one change, the two values compared; every other step
/// gives its own record.
pub open spec fn array_records(
    x: Seq<JsonValue>,
    y: Seq<JsonValue>,
    s: Seq<Edit>,
    k: nat,
    idx: int,
) -> Seq<ArrayRecord>
    decreases x, 1int, s.len() - k,
{
    if k >= s.len() {
        Seq::empty()
    } else {
        match folded_pair(s, k as int) {
            Some((i, j)) => {
                let rec = if 0 <= i < x.len() && 0 <= j < y.len() {
                    ArrayRecord::Changed(idx, diff_spec(x[i], y[j]))
                } else {
                    ArrayRecord::Same(idx, JsonModel::Null)
                };
                seq![rec] + array_records(x, y, s, k + 2, idx + 1)
            },
            None => seq![single_record(x, y, s[k as int], idx)] + array_records(
                x,
                y,
                s,
                k + 1,
                idx + 1,
            ),
        }
    }
}

/// The record of entry `i` of the left object: the same value or a changed one where the right
/// object has its key, a removal where it has not.
pub open spec fn left_record(x: Seq<(String, JsonValue)>, y: Seq<(String, JsonValue)>, i: int) -> ObjectRecord
    decreases x, 0int, 0int,
{
    if 0 <= i < x.len() {
        let k = x[i].0@;
        let lv = x[i].1;
        let p = key_index(entries_model(y), k);
        if p >= 0 {
            let rv = y[p].1;
            if json_eq(lv@, rv@) {
                ObjectRecord::Same(k, rv@)
            } else {
                ObjectRecord::Changed(k, diff_spec(lv, rv))
            }
        } else {
            ObjectRecord::Removed(k, lv@)
        }
    } else {
        ObjectRecord::Same(Seq::empty(), JsonModel::Null)
    }
}

/// The records of the first `i` entries of the left object, in its order.
pub open spec fn object_left_records(
    x: Seq<(String, JsonValue)>,
    y: Seq<(String, JsonValue)>,
    i: nat,
) -> Seq<ObjectRecord>
    decreases x, 1int, i,
{
    if i == 0 || i > x.len() {
        Seq::empty()
    } else {
        object_left_records(x, y, (i - 1) as nat).push(left_record(x, y, i - 1))
    }
}

/// The records of the keys among the first `j` entries of the right object that the left one
/// lacks, in the right object's order.
pub open spec fn object_added_records(
    x: Seq<(String, JsonValue)>,
    y: Seq<(String, JsonValue)>,
    j: nat,
) -> Seq<ObjectRecord>
    decreases j,
{
    if j == 0 || j > y.len() {
        Seq::empty()
    } else {
        let prev = object_added_records(x, y, (j - 1) as nat);
        if key_index(entries_model(x), y[j - 1].0@) < 0 {
            prev.push(ObjectRecord::Added(y[j - 1].0@, y[j - 1].1@))
        } else {
            prev
        }
    }
}

/// How `l` differs from `r`, for values that are not equal: a leaf for two scalars of one kind
/// or for values of two kinds, the aligned records for two arrays, the per-key records for two
/// objects.
pub open spec fn diff_spec(l: JsonValue, r: JsonValue) -> DifferenceModel
    decreases l, 2int, 0int,
{
    let types = DifferenceModel::MismatchedTypes(l@, r@);
    match l {
        JsonValue::String(a) => match r {
            JsonValue::String(b) => DifferenceModel::MismatchedString(a@, b@),
            _ => types,
        },
        JsonValue::Number(a) => match r {
            JsonValue::Number(b) => DifferenceModel::MismatchedNumber(a, b),
            _ => types,
        },
        JsonValue::Bool(a) => match r {
            JsonValue::Bool(b) => DifferenceModel::MismatchedBool(a, b),
            _ => types,
        },
        JsonValue::Array(x) => match r {
            JsonValue::Array(y) => {
                let s = lcs_script(x@, y@, x@.len(), y@.len());
                DifferenceModel::MismatchedArray(array_records(x@, y@, s, 0, 0))
            },
            _ => types,
        },
        JsonValue::Object(x) => match r {
            JsonValue::Object(y) => DifferenceModel::MismatchedObject(
                object_left_records(x@, y@, x@.len()) + object_added_records(x@, y@, y@.len()),
            ),
            _ => types,
        },
        JsonValue::Null => types,
    }
}

pub open spec fn array_records_model(v: Seq<ArrayComparison>) -> Seq<ArrayRecord> {
    Seq::new(v.len(), |i: int| array_record_model(v[i]))
}

pub open spec fn object_records_model(v: Seq<ObjectComparison>) -> Seq<ObjectRecord> {
    Seq::new(v.len(), |i: int| object_record_model(v[i]))
}

/// What comparing `left` with `right` gives: `Same` exactly when they are deeply equal, and
/// otherwise the difference that `diff_spec` describes.
pub open spec fn compare_result(left: JsonValue, right: JsonValue, r: Comparison) -> bool {
    match r {
        Comparison::Same(a, b) => *a == left && *b == right && json_eq(left@, right@),
        Comparison::Different(a, b, d) => *a == left && *b == right && !json_eq(left@, right@)
            && diff_model(d) == diff_spec(left, right),
    }
}

/// Compares two documents.
pub fn compare<'a>(left: &'a JsonValue, right: &'a JsonValue) -> (r: Comparison<'a>)
    ensures
        compare_result(*left, *right, r),
{
    match compare_values(left, right) {
        None => Comparison::Same(left, right),
        Some(otherwise) => Comparison::Different(left, right, otherwise),
    }
}

fn compare_values<'a>(left: &'a JsonValue, right: &'a JsonValue) -> (r: Option<Difference<'a>>)
    ensures
        match r {
            None => json_eq(left@, right@),
            Some(d) => !json_eq(left@, right@) && diff_model(d) == diff_spec(*left, *right),
        },
    decreases *left, 3int,
{
    if left.equals(right) {
        None
    } else {
        Some(compare_different_values(left, right))
    }
}

fn compare_different_values<'a>(left: &'a JsonValue, right: &'a JsonValue) -> (r: Difference<'a>)
    ensures
        diff_model(r) == diff_spec(*left, *right),
    decreases *left, 2int,
{
    match (left, right) {
        (JsonValue::String(v1), JsonValue::String(v2)) => Difference::MismatchedString(
            v1.as_str(),
            v2.as_str(),
        ),
        (JsonValue::Number(v1), JsonValue::Number(v2)) => Difference::MismatchedNumber(v1, v2),
        (JsonValue::Bool(v1), JsonValue::Bool(v2)) => Difference::MismatchedBool(*v1, *v2),
        (JsonValue::Array(v1), JsonValue::Array(v2)) => compare_arrays_of_values(v1, v2),
        (JsonValue::Object(v1), JsonValue::Object(v2)) => compare_maps(v1, v2),
        (_, _) => Difference::MismatchedTypes(left, right),
    }
}

/// The record of one alignment step, numbered by the counter, which then moves on.
fn go<'a>(diff: &DiffComponent<&'a JsonValue>, index: &mut usize) -> (r: ArrayComparison<'a>)
    requires
        *old(index) < usize::MAX,
    ensures
        *final(index) == *old(index) + 1,
        r == match *diff {
            DiffComponent::Insertion(v) => ArrayComparison::AddedArrayValue(*old(index), v),
            DiffComponent::Deletion(v) => ArrayComparison::RemovedArrayValue(*old(index), v),
            DiffComponent::Unchanged(_, v) => ArrayComparison::Same(*old(index), v),
        },
{
    let result = match diff {
        DiffComponent::Insertion(v1) => ArrayComparison::AddedArrayValue(*index, v1),
        DiffComponent::Deletion(v1) => ArrayComparison::RemovedArrayValue(*index, v1),
        DiffComponent::Unchanged(_, v1) => ArrayComparison::Same(*index, v1),
    };
    *index = *index + 1;
    result
}

#[verifier::rlimit(60)]
fn compare_arrays_of_values<'a>(left: &'a Vec<JsonValue>, right: &'a Vec<JsonValue>) -> (r:
    Difference<'a>)
    ensures
        diff_model(r) == DifferenceModel::MismatchedArray(
            array_records(
                left@,
                right@,
                lcs_script(left@, right@, left@.len(), right@.len()),
                0,
                0,
            ),
        ),
    decreases left, 1int,
{
    let mut comparisons: Vec<ArrayComparison<'a>> = Vec::new();
    let table = LcsTable::new(left.as_slice(), right.as_slice());
    let diff = table.diff();
    let ghost s = lcs_script(left@, right@, left@.len(), right@.len());
    proof {
        lemma_script_shape(left@, right@, left@.len(), right@.len());
    }
    let mut index: usize = 0;
    let mut k: usize = 0;
    proof {
        assert(array_records_model(comparisons@) + array_records(left@, right@, s, 0, 0)
            =~= array_records(left@, right@, s, 0, 0));
    }
    while k < diff.len()
        invariant
            k <= diff@.len(),
            diff@.len() == s.len(),
            forall|q: int| 0 <= q < diff@.len() ==> component_is(#[trigger] diff@[q], s[q], left@, right@),
            forall|q: int|
                0 <= q < s.len() ==> match #[trigger] s[q] {
                    Edit::Insert(y) => 0 <= y < right@.len(),
                    Edit::Delete(x) => 0 <= x < left@.len(),
                    Edit::Keep(x, y) => 0 <= x < left@.len() && 0 <= y < right@.len(),
                },
            index == comparisons@.len(),
            index <= k,
            array_records_model(comparisons@) + array_records(left@, right@, s, k as nat, index as int)
                == array_records(left@, right@, s, 0, 0),
        decreases diff@.len() - k,
    {
        let ghost before = comparisons@;
        let ghost idx = index as int;
        let ghost kk = k as nat;
        let c1 = &diff[k];
        let mut folded = false;
        if k + 1 < diff.len() {
            match (c1, &diff[k + 1]) {
                (DiffComponent::Deletion(v1), DiffComponent::Insertion(v2)) => {
                    proof {
                        assert(s[k as int] is Delete && s[k + 1] is Insert);
                        assert(decreases_to!(left => left@[s[k as int]->Delete_0]));
                    }
                    let d = compare_different_values(v1, v2);
                    comparisons.push(ArrayComparison::ArrayDifference(index, d));
                    index = index + 1;
                    folded = true;
                },
                (DiffComponent::Insertion(v1), DiffComponent::Deletion(v2)) => {
                    proof {
                        assert(s[k as int] is Insert && s[k + 1] is Delete);
                        assert(decreases_to!(left => left@[s[k + 1]->Delete_0]));
                    }
                    let d = compare_different_values(v2, v1);
                    comparisons.push(ArrayComparison::ArrayDifference(index, d));
                    index = index + 1;
                    folded = true;
                },
                (_, _) => {
                    proof {
                        assert(!(s[k as int] is Delete && s[k + 1] is Insert));
                        assert(!(s[k as int] is Insert && s[k + 1] is Delete));
                    }
                },
            }
        }
        if folded {
            k = k + 2;
        } else {
            let r1 = go(c1, &mut index);
            comparisons.push(r1);
            k = k + 1;
        }
        proof {
            let rec = array_record_model(comparisons@.last());
            assert(array_records_model(comparisons@) =~= array_records_model(before).push(rec));
            assert(array_records(left@, right@, s, kk, idx) == seq![rec] + array_records(
                left@,
                right@,
                s,
                k as nat,
                index as int,
            ));
            assert(array_records_model(comparisons@) + array_records(
                left@,
                right@,
                s,
                k as nat,
                index as int,
            ) =~= array_records_model(before) + array_records(left@, right@, s, kk, idx));
        }
    }
    proof {
        assert(array_records_model(comparisons@) + array_records(left@, right@, s, k as nat, index as int)
            =~= array_records_model(comparisons@));
    }
    let r = Difference::MismatchedArray(comparisons);
    proof {
        assert(diff_model(r)->MismatchedArray_0 =~= array_records_model(comparisons@));
    }
    r
}

#[verifier::rlimit(60)]
fn compare_maps<'a>(left: &'a Vec<(String, JsonValue)>, right: &'a Vec<(String, JsonValue)>) -> (r:
    Difference<'a>)
    ensures
        diff_model(r) == DifferenceModel::MismatchedObject(
            object_left_records(left@, right@, left@.len()) + object_added_records(
                left@,
                right@,
                right@.len(),
            ),
        ),
    decreases left, 1int,
{
    let mut comparisons: Vec<ObjectComparison<'a>> = Vec::new();
    let mut i: usize = 0;
    while i < left.len()
        invariant
            i <= left@.len(),
            object_records_model(comparisons@) == object_left_records(left@, right@, i as nat),
        decreases left@.len() - i,
    {
        let ghost before = comparisons@;
        let key = &left[i].0;
        let left_value = &left[i].1;
        match object_find(right, key) {
            None => {
                comparisons.push(ObjectComparison::RemovedObjectKey(key.as_str(), left_value));
            },
            Some(p) => {
                let right_value = &right[p].1;
                proof {
                    assert(decreases_to!(left => left@[i as int].1));
                }
                match compare_values(left_value, right_value) {
                    None => comparisons.push(ObjectComparison::Same(key.as_str(), right_value)),
                    Some(otherwise) => comparisons.push(
                        ObjectComparison::MismatchedObjectValue(key.as_str(), otherwise),
                    ),
                }
            },
        }
        proof {
            assert(object_left_records(left@, right@, (i + 1) as nat) == object_left_records(
                left@,
                right@,
                i as nat,
            ).push(left_record(left@, right@, i as int)));
            assert(object_record_model(comparisons@.last()) == left_record(left@, right@, i as int));
            assert(object_records_model(comparisons@) =~= object_left_records(
                left@,
                right@,
                (i + 1) as nat,
            ));
        }
        i = i + 1;
    }
    let ghost lefts = comparisons@;
    let mut j: usize = 0;
    while j < right.len()
        invariant
            j <= right@.len(),
            object_records_model(lefts) == object_left_records(left@, right@, left@.len()),
            object_records_model(comparisons@) == object_records_model(lefts)
                + object_added_records(left@, right@, j as nat),
        decreases right@.len() - j,
    {
        let ghost before = comparisons@;
        let key = &right[j].0;
        let ghost prev = object_added_records(left@, right@, j as nat);
        if object_find(left, key).is_none() {
            comparisons.push(ObjectComparison::AddedObjectKey(key.as_str(), &right[j].1));
            proof {
                assert(object_added_records(left@, right@, (j + 1) as nat) == prev.push(
                    ObjectRecord::Added(right@[j as int].0@, right@[j as int].1@),
                ));
                assert(object_records_model(comparisons@) =~= object_records_model(before).push(
                    ObjectRecord::Added(right@[j as int].0@, right@[j as int].1@),
                ));
                assert(object_records_model(comparisons@) =~= object_records_model(lefts)
                    + object_added_records(left@, right@, (j + 1) as nat));
            }
        } else {
            proof {
                assert(object_added_records(left@, right@, (j + 1) as nat) == prev);
            }
        }
        j = j + 1;
    }
    let r = Difference::MismatchedObject(comparisons);
    proof {
        assert(diff_model(r)->MismatchedObject_0 =~= object_records_model(comparisons@));
    }
    r
}

/// A document compared with itself is `Same`.
pub proof fn law_compare_self(x: JsonValue, r: Comparison)
    requires
        compare_result(x, x, r),
    ensures
        r is Same,
{
    lemma_json_eq_reflexive(x@);
}

/// Comparing the same two documents twice gives the same outcome.
pub proof fn law_compare_deterministic(x: JsonValue, y: JsonValue, r1: Comparison, r2: Comparison)
    requires
        compare_result(x, y, r1),
        compare_result(x, y, r2),
    ensures
        r1 is Same <==> r2 is Same,
        r1 is Different ==> diff_model(r1->Different_2) == diff_model(r2->Different_2),
{
}

/// `x` compared with `y` is `Same` exactly when `y` compared with `x` is.
pub proof fn law_compare_symmetric(x: JsonValue, y: JsonValue, r1: Comparison, r2: Comparison)
    requires
        compare_result(x, y, r1),
        compare_result(y, x, r2),
    ensures
        r1 is Same <==> r2 is Same,
{
    lemma_json_eq_symmetric(x@, y@);
}

proof fn lemma_array_records_len(x: Seq<JsonValue>, y: Seq<JsonValue>, s: Seq<Edit>, k: nat, idx: int)
    ensures
        array_records(x, y, s, k, idx).len() <= if k <= s.len() {
            s.len() - k
        } else {
            0
        },
    decreases s.len() - k,
{
    if k < s.len() {
        if folded_pair(s, k as int) is Some {
            lemma_array_records_len(x, y, s, k + 2, idx + 1);
        } else {
            lemma_array_records_len(x, y, s, k + 1, idx + 1);
        }
    }
}

/// Two arrays of lengths n and m differ in at most n + m records.
pub proof fn law_array_records_bounded(x: Vec<JsonValue>, y: Vec<JsonValue>)
    ensures
        diff_spec(JsonValue::Array(x), JsonValue::Array(y))->MismatchedArray_0.len() <= x@.len()
            + y@.len(),
{
    let s = lcs_script(x@, y@, x@.len(), y@.len());
    lemma_script_shape(x@, y@, x@.len(), y@.len());
    lemma_array_records_len(x@, y@, s, 0, 0);
}

} // verus!
