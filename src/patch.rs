use vstd::prelude::*;
use crate::comparison::Comparison;
use crate::difference::{
    ArrayComparison, ArrayRecord, Difference, DifferenceModel, ObjectComparison, ObjectRecord,
    array_record_model, diff_model, object_record_model,
};
use crate::json::{JsonModel, JsonValue};
use crate::json_selector::{
    PointerModel, Segment, all_digits, chars_of, digits_value, is_digit, parse_spec, push_char,
    segment_spec, split_slashes, unescape,
};

verus! {

/// One edit of a generated patch. A path is the sequence of its segments, unescaped.
#[derive(Debug)]
pub enum PatchOperation {
    Add { path: Vec<String>, value: JsonValue },
    Remove { path: Vec<String> },
    Replace { path: Vec<String>, value: JsonValue },
}

/// The content of a `PatchOperation`.
pub enum OpModel {
    Add(Seq<Seq<char>>, JsonModel),
    Remove(Seq<Seq<char>>),
    Replace(Seq<Seq<char>>, JsonModel),
}

pub open spec fn segments_model(p: Seq<String>) -> Seq<Seq<char>> {
    Seq::new(p.len(), |i: int| p[i]@)
}

impl View for PatchOperation {
    type V = OpModel;

    open spec fn view(&self) -> OpModel {
        match self {
            PatchOperation::Add { path, value } => OpModel::Add(segments_model(path@), value@),
            PatchOperation::Remove { path } => OpModel::Remove(segments_model(path@)),
            PatchOperation::Replace { path, value } => OpModel::Replace(
                segments_model(path@),
                value@,
            ),
        }
    }
}

pub open spec fn ops_model(v: Seq<PatchOperation>) -> Seq<OpModel> {
    Seq::new(v.len(), |i: int| v[i]@)
}

/// The character of a decimal digit.
pub open spec fn digit_char(d: nat) -> char {
    ((48 + d) as u8) as char
}

/// The decimal text of a number, without leading zeros.
pub open spec fn decimal(n: nat) -> Seq<char>
    decreases n,
{
    if n < 10 {
        seq![digit_char(n)]
    } else {
        decimal(n / 10).push(digit_char(n % 10))
    }
}

/// The operations of one array record at `pos`: a removal or an addition at the record's index,
/// the operations of a change below it, nothing for an unchanged element.
pub open spec fn array_record_ops(pos: Seq<Seq<char>>, r: ArrayRecord) -> Seq<OpModel>
    decreases r, 0int, 0nat,
{
    match r {
        ArrayRecord::Same(_, _) => Seq::empty(),
        ArrayRecord::Removed(i, _) => seq![OpModel::Remove(pos.push(decimal(i as nat)))],
        ArrayRecord::Added(i, v) => seq![OpModel::Add(pos.push(decimal(i as nat)), v)],
        ArrayRecord::Changed(i, d) => patch_ops(pos.push(decimal(i as nat)), d),
    }
}

/// The operations of one object record at `pos`: a removal or an addition of the key, the
/// operations of a change below it, nothing for an unchanged value.
pub open spec fn object_record_ops(pos: Seq<Seq<char>>, r: ObjectRecord) -> Seq<OpModel>
    decreases r, 0int, 0nat,
{
    match r {
        ObjectRecord::Same(_, _) => Seq::empty(),
        ObjectRecord::Added(k, v) => seq![OpModel::Add(pos.push(k), v)],
        ObjectRecord::Removed(k, _) => seq![OpModel::Remove(pos.push(k))],
        ObjectRecord::Changed(k, d) => patch_ops(pos.push(k), d),
    }
}

/// The operations for the records of an array difference, up to the `n`-th, at `pos`: a removal
/// or an addition at the record's index, the operations of a change below it.
pub open spec fn array_ops(pos: Seq<Seq<char>>, recs: Seq<ArrayRecord>, n: nat) -> Seq<OpModel>
    decreases recs, 0int, n,
{
    if n == 0 || n > recs.len() {
        Seq::empty()
    } else {
        let prev = array_ops(pos, recs, (n - 1) as nat);
        let now = array_record_ops(pos, recs[n - 1]);
        prev + now
    }
}

/// The operations for the records of an object difference, up to the `n`-th, at `pos`.
pub open spec fn object_ops(pos: Seq<Seq<char>>, recs: Seq<ObjectRecord>, n: nat) -> Seq<OpModel>
    decreases recs, 0int, n,
{
    if n == 0 || n > recs.len() {
        Seq::empty()
    } else {
        let prev = object_ops(pos, recs, (n - 1) as nat);
        let now = object_record_ops(pos, recs[n - 1]);
        prev + now
    }
}

/// The operations that turn the left side of a difference into the right, at `pos`: a
/// replacement for a scalar mismatch, nothing for a mismatch of kinds, and the operations of
/// each record, in order, for arrays and objects. Array paths use the records' indices.
pub open spec fn patch_ops(pos: Seq<Seq<char>>, d: DifferenceModel) -> Seq<OpModel>
    decreases d, 1int, 0nat,
{
    match d {
        DifferenceModel::MismatchedString(_, b) => seq![OpModel::Replace(pos, JsonModel::Str(b))],
        DifferenceModel::MismatchedNumber(_, b) => seq![
            OpModel::Replace(pos, JsonModel::Number(b)),
        ],
        DifferenceModel::MismatchedBool(_, b) => seq![OpModel::Replace(pos, JsonModel::Bool(b))],
        DifferenceModel::MismatchedTypes(_, _) => Seq::empty(),
        DifferenceModel::MismatchedArray(recs) => array_ops(pos, recs, recs.len()),
        DifferenceModel::MismatchedObject(recs) => object_ops(pos, recs, recs.len()),
    }
}

/// The pointer text of one character of a segment: `~` written `~0`, `/` written `~1`.
pub open spec fn escape_char(c: char) -> Seq<char> {
    if c == '~' {
        seq!['~', '0']
    } else if c == '/' {
        seq!['~', '1']
    } else {
        seq![c]
    }
}

/// The text of one path segment in a pointer.
pub open spec fn escape(s: Seq<char>) -> Seq<char>
    decreases s.len(),
{
    if s.len() == 0 {
        Seq::empty()
    } else {
        escape(s.drop_last()) + escape_char(s.last())
    }
}

/// The pointer text of a path: each segment, escaped, after a slash.
pub open spec fn pointer_text(p: Seq<Seq<char>>) -> Seq<char>
    decreases p.len(),
{
    if p.len() == 0 {
        Seq::empty()
    } else {
        pointer_text(p.drop_last()) + seq!['/'] + escape(p.last())
    }
}

/// The decimal text of `n`.
fn decimal_string(n: usize) -> (r: String)
    ensures
        r@ == decimal(n as nat),
    decreases n,
{
    let d = (n % 10) as u8;
    let c = (48u8 + d) as char;
    if n < 10 {
        let mut s = String::new();
        push_char(&mut s, c);
        proof {
            assert(s@ =~= seq![digit_char(n as nat)]);
        }
        s
    } else {
        let mut s = decimal_string(n / 10);
        push_char(&mut s, c);
        s
    }
}

/// A copy of a path.
fn copy_path(p: &Vec<String>) -> (r: Vec<String>)
    ensures
        segments_model(r@) == segments_model(p@),
{
    let mut out: Vec<String> = Vec::new();
    let mut i: usize = 0;
    while i < p.len()
        invariant
            i <= p@.len(),
            out@.len() == i,
            forall|k: int| 0 <= k < i ==> (#[trigger] out@[k])@ == p@[k]@,
        decreases p@.len() - i,
    {
        out.push(p[i].clone());
        i = i + 1;
    }
    proof {
        assert(segments_model(out@) =~= segments_model(p@));
    }
    out
}

/// A path one segment longer.
fn extend_path(p: &Vec<String>, seg: String) -> (r: Vec<String>)
    ensures
        segments_model(r@) == segments_model(p@).push(seg@),
{
    let mut out = copy_path(p);
    let ghost before = out@;
    out.push(seg);
    proof {
        assert(segments_model(out@) =~= segments_model(before).push(seg@));
    }
    out
}

/// A string holding the characters of `s`.
fn owned(s: &str) -> (r: String)
    ensures
        r@ == s@,
{
    s.to_string()
}

/// Appends to `operations` the operations that `patch_ops` gives for `difference` at
/// `position`.
#[verifier::rlimit(60)]
#[verifier::loop_isolation(false)]
fn calculate_comparison(
    position: &Vec<String>,
    operations: &mut Vec<PatchOperation>,
    difference: &Difference,
)
    ensures
        ops_model(final(operations)@) == ops_model(old(operations)@) + patch_ops(
            segments_model(position@),
            diff_model(*difference),
        ),
    decreases *difference,
{
    let ghost pos = segments_model(position@);
    let ghost start = operations@;
    match difference {
        Difference::MismatchedString(_, new_value) => {
            let path = copy_path(position);
            operations.push(
                PatchOperation::Replace { path, value: JsonValue::String(owned(new_value)) },
            );
            proof {
                assert(ops_model(operations@) =~= ops_model(start) + patch_ops(
                    pos,
                    diff_model(*difference),
                ));
            }
        },
        Difference::MismatchedBool(_, new_value) => {
            let path = copy_path(position);
            operations.push(PatchOperation::Replace { path, value: JsonValue::Bool(*new_value) });
            proof {
                assert(ops_model(operations@) =~= ops_model(start) + patch_ops(
                    pos,
                    diff_model(*difference),
                ));
            }
        },
        Difference::MismatchedNumber(_, new_value) => {
            let path = copy_path(position);
            operations.push(
                PatchOperation::Replace { path, value: JsonValue::Number(**new_value) },
            );
            proof {
                assert(ops_model(operations@) =~= ops_model(start) + patch_ops(
                    pos,
                    diff_model(*difference),
                ));
            }
        },
        Difference::MismatchedTypes(_, _) => {
            proof {
                assert(ops_model(operations@) =~= ops_model(start) + patch_ops(
                    pos,
                    diff_model(*difference),
                ));
            }
        },
        Difference::MismatchedArray(array_comparisons) => {
            let ghost recs = diff_model(*difference)->MismatchedArray_0;
            let mut i: usize = 0;
            while i < array_comparisons.len()
                invariant
                    i <= array_comparisons@.len(),
                    recs.len() == array_comparisons@.len(),
                    forall|k: int|
                        0 <= k < recs.len() ==> recs[k] == array_record_model(
                            #[trigger] array_comparisons@[k],
                        ),
                    ops_model(operations@) == ops_model(start) + array_ops(pos, recs, i as nat),
                decreases array_comparisons@.len() - i,
            {
                let ghost before = operations@;
                match &array_comparisons[i] {
                    ArrayComparison::Same(_, _) => {},
                    ArrayComparison::RemovedArrayValue(index, _) => {
                        let path = extend_path(position, decimal_string(*index));
                        operations.push(PatchOperation::Remove { path });
                    },
                    ArrayComparison::ArrayDifference(index, diff) => {
                        let path = extend_path(position, decimal_string(*index));
                        proof {
                            assert(decreases_to!(*difference => array_comparisons@[i as int]));
                        }
                        calculate_comparison(&path, operations, diff);
                    },
                    ArrayComparison::AddedArrayValue(index, value) => {
                        let path = extend_path(position, decimal_string(*index));
                        operations.push(PatchOperation::Add { path, value: (*value).clone() });
                    },
                }
                proof {
                    assert(array_ops(pos, recs, (i + 1) as nat) == array_ops(pos, recs, i as nat)
                        + array_record_ops(pos, recs[i as int]));
                    assert(ops_model(operations@) =~= ops_model(before) + array_record_ops(pos, recs[i as int]));
                    assert(ops_model(operations@) =~= ops_model(start) + array_ops(
                        pos,
                        recs,
                        (i + 1) as nat,
                    ));
                }
                i = i + 1;
            }
        },
        Difference::MismatchedObject(object_comparisons) => {
            let ghost recs = diff_model(*difference)->MismatchedObject_0;
            let mut i: usize = 0;
            while i < object_comparisons.len()
                invariant
                    i <= object_comparisons@.len(),
                    recs.len() == object_comparisons@.len(),
                    forall|k: int|
                        0 <= k < recs.len() ==> recs[k] == object_record_model(
                            #[trigger] object_comparisons@[k],
                        ),
                    ops_model(operations@) == ops_model(start) + object_ops(pos, recs, i as nat),
                decreases object_comparisons@.len() - i,
            {
                let ghost before = operations@;
                match &object_comparisons[i] {
                    ObjectComparison::Same(_, _) => {},
                    ObjectComparison::AddedObjectKey(key, value) => {
                        let path = extend_path(position, owned(key));
                        operations.push(PatchOperation::Add { path, value: (*value).clone() });
                    },
                    ObjectComparison::RemovedObjectKey(key, _) => {
                        let path = extend_path(position, owned(key));
                        operations.push(PatchOperation::Remove { path });
                    },
                    ObjectComparison::MismatchedObjectValue(key, diff) => {
                        let path = extend_path(position, owned(key));
                        proof {
                            assert(decreases_to!(*difference => object_comparisons@[i as int]));
                        }
                        calculate_comparison(&path, operations, diff);
                    },
                }
                proof {
                    assert(object_ops(pos, recs, (i + 1) as nat) == object_ops(pos, recs, i as nat)
                        + object_record_ops(pos, recs[i as int]));
                    assert(ops_model(operations@) =~= ops_model(before) + object_record_ops(pos, recs[i as int]));
                    assert(ops_model(operations@) =~= ops_model(start) + object_ops(
                        pos,
                        recs,
                        (i + 1) as nat,
                    ));
                }
                i = i + 1;
            }
        },
    }
}

/// The operations of a comparison: none where the documents are the same.
pub open spec fn comparison_ops(c: Comparison) -> Seq<OpModel> {
    match c {
        Comparison::Same(_, _) => Seq::empty(),
        Comparison::Different(_, _, d) => patch_ops(Seq::empty(), diff_model(d)),
    }
}

/// The operations that turn the left document of a comparison into the right one.
pub fn generate_operations(comparison: &Comparison) -> (r: Vec<PatchOperation>)
    ensures
        ops_model(r@) == comparison_ops(*comparison),
{
    let mut operations: Vec<PatchOperation> = Vec::new();
    match comparison {
        Comparison::Same(_, _) => {},
        Comparison::Different(_, _, difference) => {
            let position: Vec<String> = Vec::new();
            proof {
                assert(segments_model(position@) =~= Seq::<Seq<char>>::empty());
                assert(ops_model(operations@) =~= Seq::<OpModel>::empty());
            }
            calculate_comparison(&position, &mut operations, difference);
        },
    }
    operations
}

/// The JSON form of an operation: an object with the fields `op`, `path` and, but for a
/// removal, `value`.
pub open spec fn op_json(op: OpModel) -> JsonModel {
    let op_key = seq!['o', 'p'];
    let path_key = seq!['p', 'a', 't', 'h'];
    let value_key = seq!['v', 'a', 'l', 'u', 'e'];
    match op {
        OpModel::Add(p, v) => JsonModel::Object(
            seq![
                (op_key, JsonModel::Str(seq!['a', 'd', 'd'])),
                (path_key, JsonModel::Str(pointer_text(p))),
                (value_key, v),
            ],
        ),
        OpModel::Remove(p) => JsonModel::Object(
            seq![
                (op_key, JsonModel::Str(seq!['r', 'e', 'm', 'o', 'v', 'e'])),
                (path_key, JsonModel::Str(pointer_text(p))),
            ],
        ),
        OpModel::Replace(p, v) => JsonModel::Object(
            seq![
                (op_key, JsonModel::Str(seq!['r', 'e', 'p', 'l', 'a', 'c', 'e'])),
                (path_key, JsonModel::Str(pointer_text(p))),
                (value_key, v),
            ],
        ),
    }
}

/// Appends the escaped text of one segment.
fn push_escaped(out: &mut String, seg: &String)
    ensures
        final(out)@ == old(out)@ + escape(seg@),
{
    let cs = chars_of(seg.as_str());
    let ghost base = old(out)@;
    let mut k: usize = 0;
    proof {
        assert(cs@.take(0) =~= Seq::<char>::empty());
        assert(out@ =~= base + escape(cs@.take(0)));
    }
    while k < cs.len()
        invariant
            k <= cs@.len(),
            out@ == base + escape(cs@.take(k as int)),
        decreases cs@.len() - k,
    {
        let c = cs[k];
        let ghost mid = out@;
        if c == '~' {
            push_char(out, '~');
            push_char(out, '0');
        } else if c == '/' {
            push_char(out, '~');
            push_char(out, '1');
        } else {
            push_char(out, c);
        }
        proof {
            assert(cs@.take(k + 1).drop_last() =~= cs@.take(k as int));
            assert(out@ =~= base + escape(cs@.take(k + 1)));
        }
        k = k + 1;
    }
    proof {
        assert(cs@.take(k as int) =~= seg@);
    }
}

/// The pointer text of a path.
pub fn pointer_string(path: &Vec<String>) -> (r: String)
    ensures
        r@ == pointer_text(segments_model(path@)),
{
    let ghost p = segments_model(path@);
    let mut out = String::new();
    let mut i: usize = 0;
    proof {
        assert(p.take(0) =~= Seq::<Seq<char>>::empty());
    }
    while i < path.len()
        invariant
            i <= path@.len(),
            p == segments_model(path@),
            out@ == pointer_text(p.take(i as int)),
        decreases path@.len() - i,
    {
        push_char(&mut out, '/');
        push_escaped(&mut out, &path[i]);
        proof {
            assert(p.take(i + 1).drop_last() =~= p.take(i as int));
            assert(out@ =~= pointer_text(p.take(i + 1)));
        }
        i = i + 1;
    }
    proof {
        assert(p.take(i as int) =~= p);
    }
    out
}

impl PatchOperation {
    /// The JSON form of this operation.
    pub fn to_json(&self) -> (r: JsonValue)
        ensures
            r@ == op_json(self@),
    {
        proof {
            reveal_strlit("op");
            reveal_strlit("path");
            reveal_strlit("value");
            reveal_strlit("add");
            reveal_strlit("remove");
            reveal_strlit("replace");
            assert("op"@ =~= seq!['o', 'p']);
            assert("path"@ =~= seq!['p', 'a', 't', 'h']);
            assert("value"@ =~= seq!['v', 'a', 'l', 'u', 'e']);
            assert("add"@ =~= seq!['a', 'd', 'd']);
            assert("remove"@ =~= seq!['r', 'e', 'm', 'o', 'v', 'e']);
            assert("replace"@ =~= seq!['r', 'e', 'p', 'l', 'a', 'c', 'e']);
        }
        let mut inner: Vec<(String, JsonValue)> = Vec::new();
        match self {
            PatchOperation::Add { path, value } => {
                inner.push((owned("op"), JsonValue::String(owned("add"))));
                inner.push((owned("path"), JsonValue::String(pointer_string(path))));
                inner.push((owned("value"), value.clone()));
            },
            PatchOperation::Remove { path } => {
                inner.push((owned("op"), JsonValue::String(owned("remove"))));
                inner.push((owned("path"), JsonValue::String(pointer_string(path))));
            },
            PatchOperation::Replace { path, value } => {
                inner.push((owned("op"), JsonValue::String(owned("replace"))));
                inner.push((owned("path"), JsonValue::String(pointer_string(path))));
                inner.push((owned("value"), value.clone()));
            },
        }
        let r = JsonValue::Object(inner);
        proof {
            let em = r@->Object_0;
            let want = op_json(self@)->Object_0;
            assert(em.len() == want.len());
            assert forall|k: int| 0 <= k < em.len() implies em[k] == want[k] by {
                assert(em[k] == (inner@[k].0@, inner@[k].1@));
            }
            assert(em =~= want);
        }
        r
    }
}

/// The patch of a comparison as a JSON array of operation objects, in the order the operations
/// are generated.
pub fn generate_patch(comparison: &Comparison) -> (r: JsonValue)
    ensures
        r@ == JsonModel::Array(comparison_ops(*comparison).map_values(|o: OpModel| op_json(o))),
{
    let operations = generate_operations(comparison);
    let mut out: Vec<JsonValue> = Vec::new();
    let mut i: usize = 0;
    while i < operations.len()
        invariant
            i <= operations@.len(),
            out@.len() == i,
            forall|k: int| 0 <= k < i ==> (#[trigger] out@[k])@ == op_json(operations@[k]@),
        decreases operations@.len() - i,
    {
        out.push(operations[i].to_json());
        i = i + 1;
    }
    let r = JsonValue::Array(out);
    proof {
        assert(ops_model(operations@) == comparison_ops(*comparison));
        assert(r@->Array_0 =~= comparison_ops(*comparison).map_values(|o: OpModel| op_json(o)));
    }
    r
}

/// What a path segment selects once written into a pointer and read back: `-` the last element,
/// a run of digits whose value fits in `usize` an index, anything else the key itself.
pub open spec fn segment_read_back(s: Seq<char>) -> Segment {
    if s == seq!['-'] {
        Segment::Last
    } else if s.len() > 0 && all_digits(s) && digits_value(s) <= usize::MAX {
        Segment::Index(digits_value(s) as int)
    } else {
        Segment::Key(s)
    }
}

proof fn lemma_escape_prepend(s: Seq<char>)
    requires
        s.len() > 0,
    ensures
        escape(s) == escape_char(s[0]) + escape(s.skip(1)),
    decreases s.len(),
{
    if s.len() == 1 {
        assert(s.drop_last() =~= Seq::<char>::empty());
        assert(s.skip(1) =~= Seq::<char>::empty());
        assert(escape(s) =~= escape_char(s[0]) + escape(s.skip(1)));
    } else {
        let d = s.drop_last();
        lemma_escape_prepend(d);
        assert(d.skip(1) =~= s.skip(1).drop_last());
        assert(s.skip(1).last() == s.last());
        assert(escape(s) =~= escape_char(s[0]) + escape(s.skip(1)));
    }
}

proof fn lemma_unescape_escape(s: Seq<char>)
    ensures
        unescape(escape(s)) == s,
    decreases s.len(),
{
    if s.len() == 0 {
        assert(escape(s) =~= Seq::<char>::empty());
    } else {
        lemma_escape_prepend(s);
        lemma_unescape_escape(s.skip(1));
        let e = escape(s);
        let rest = escape(s.skip(1));
        let c = s[0];
        if c == '~' || c == '/' {
            assert(e.skip(2) =~= rest);
        } else {
            assert(e.skip(1) =~= rest);
        }
        assert(unescape(e) =~= s);
    }
}

proof fn lemma_escape_shape(s: Seq<char>)
    ensures
        forall|i: int| 0 <= i < escape(s).len() ==> escape(s)[i] != '/',
        (forall|i: int| 0 <= i < s.len() ==> s[i] != '~' && s[i] != '/') ==> escape(s) == s,
        (exists|i: int| 0 <= i < s.len() && (s[i] == '~' || s[i] == '/')) ==> exists|i: int|
            0 <= i < escape(s).len() && escape(s)[i] == '~',
    decreases s.len(),
{
    if s.len() > 0 {
        let d = s.drop_last();
        lemma_escape_shape(d);
        let e = escape(s);
        assert(e == escape(d) + escape_char(s.last()));
        if forall|i: int| 0 <= i < s.len() ==> s[i] != '~' && s[i] != '/' {
            assert forall|i: int| 0 <= i < d.len() implies d[i] != '~' && d[i] != '/' by {
                assert(d[i] == s[i]);
            }
            assert(e =~= s);
        }
        if exists|i: int| 0 <= i < s.len() && (s[i] == '~' || s[i] == '/') {
            let w = choose|i: int| 0 <= i < s.len() && (s[i] == '~' || s[i] == '/');
            if w < d.len() {
                assert(d[w] == s[w]);
                let v = choose|i: int| 0 <= i < escape(d).len() && escape(d)[i] == '~';
                assert(e[v] == '~');
            } else {
                assert(e[escape(d).len() as int] == '~');
            }
        }
    } else {
        assert(escape(s) =~= s);
    }
}

proof fn lemma_split_slashes_nonempty(u: Seq<char>)
    ensures
        split_slashes(u).len() >= 1,
    decreases u.len(),
{
    if u.len() > 0 {
        lemma_split_slashes_nonempty(u.drop_last());
    }
}

/// Text without slashes extends the last piece.
proof fn lemma_split_append(u: Seq<char>, e: Seq<char>)
    requires
        forall|i: int| 0 <= i < e.len() ==> e[i] != '/',
    ensures
        split_slashes(u + e) == split_slashes(u).update(
            split_slashes(u).len() - 1,
            split_slashes(u).last() + e,
        ),
    decreases e.len(),
{
    lemma_split_slashes_nonempty(u);
    if e.len() == 0 {
        assert(u + e =~= u);
        assert(split_slashes(u).last() + e =~= split_slashes(u).last());
        assert(split_slashes(u).update(split_slashes(u).len() - 1, split_slashes(u).last())
            =~= split_slashes(u));
    } else {
        let d = e.drop_last();
        lemma_split_append(u, d);
        assert((u + e).drop_last() =~= u + d);
        assert((u + e).last() == e.last());
        let sd = split_slashes(u + d);
        let su = split_slashes(u);
        assert(sd.len() == su.len());
        assert(sd.last() == su.last() + d);
        assert(sd.last().push(e.last()) =~= su.last() + e);
        assert(e.last() != '/');
        assert(sd.update(sd.len() - 1, sd.last().push(e.last())) =~= split_slashes(u).update(
            split_slashes(u).len() - 1,
            split_slashes(u).last() + e,
        ));
    }
}

proof fn lemma_pointer_text_pieces(p: Seq<Seq<char>>)
    requires
        p.len() > 0,
    ensures
        pointer_text(p).len() > 0,
        pointer_text(p)[0] == '/',
        split_slashes(pointer_text(p).skip(1)) =~= p.map_values(|s: Seq<char>| escape(s)),
    decreases p.len(),
{
    let d = p.drop_last();
    let e = escape(p.last());
    lemma_escape_shape(p.last());
    if d.len() == 0 {
        assert(pointer_text(d) =~= Seq::<char>::empty());
        assert(pointer_text(p).skip(1) =~= Seq::<char>::empty() + e);
        lemma_split_append(Seq::<char>::empty(), e);
        assert(split_slashes(Seq::<char>::empty()) =~= seq![Seq::<char>::empty()]);
    } else {
        lemma_pointer_text_pieces(d);
        let q = pointer_text(d).skip(1);
        assert(pointer_text(p).skip(1) =~= q.push('/') + e);
        assert(q.push('/').drop_last() =~= q);
        lemma_split_append(q.push('/'), e);
        lemma_split_slashes_nonempty(q);
        assert(split_slashes(q.push('/')) =~= split_slashes(q).push(Seq::<char>::empty()));
    }
}

proof fn lemma_segment_read_back(s: Seq<char>)
    ensures
        segment_spec(escape(s)) == segment_read_back(s),
{
    lemma_escape_shape(s);
    lemma_unescape_escape(s);
    let e = escape(s);
    if exists|i: int| 0 <= i < s.len() && (s[i] == '~' || s[i] == '/') {
        let v = choose|i: int| 0 <= i < e.len() && e[i] == '~';
        assert(!is_digit(e[v]));
        assert(e != seq!['-']) by {
            if e == seq!['-'] {
                assert(e[v] == '-');
            }
        }
        if s == seq!['-'] {
            assert(s[0] == '-');
        }
        if s.len() > 0 && all_digits(s) {
            let w = choose|i: int| 0 <= i < s.len() && (s[i] == '~' || s[i] == '/');
            assert(is_digit(s[w]));
        }
    } else {
        assert(e == s);
    }
}

/// The pointer text of a path reads back as that path: each segment selects the key it names,
/// except `-` and runs of decimal digits, which select array elements. The empty path is the
/// whole document.
pub proof fn law_pointer_text_reads_back(p: Seq<Seq<char>>)
    ensures
        parse_spec(pointer_text(p)) == if p.len() == 0 {
            Some(PointerModel::Whole)
        } else {
            Some(PointerModel::Path(p.map_values(|s: Seq<char>| segment_read_back(s))))
        },
{
    if p.len() == 0 {
        assert(pointer_text(p) =~= Seq::<char>::empty());
    } else {
        lemma_pointer_text_pieces(p);
        let pieces = split_slashes(pointer_text(p).skip(1));
        assert forall|i: int| 0 <= i < p.len() implies segment_spec(pieces[i]) == segment_read_back(
            p[i],
        ) by {
            lemma_segment_read_back(p[i]);
        }
        assert(pieces.map_values(|raw: Seq<char>| segment_spec(raw)) =~= p.map_values(
            |s: Seq<char>| segment_read_back(s),
        ));
    }
}

pub proof fn lemma_object_ops_concat(pos: Seq<Seq<char>>, r1: Seq<ObjectRecord>, r2: Seq<ObjectRecord>, n: nat)
    requires
        n <= r2.len(),
    ensures
        object_ops(pos, r1 + r2, r1.len() + n) == object_ops(pos, r1, r1.len()) + object_ops(
            pos,
            r2,
            n,
        ),
    decreases n,
{
    if n == 0 {
        assert(object_ops(pos, r1, r1.len()) + Seq::<OpModel>::empty() =~= object_ops(
            pos,
            r1,
            r1.len(),
        ));
        lemma_object_ops_prefix(pos, r1, r2, r1.len());
    } else {
        lemma_object_ops_concat(pos, r1, r2, (n - 1) as nat);
        assert((r1 + r2)[r1.len() + n - 1] == r2[n - 1]);
        let now = object_record_ops(pos, r2[n - 1]);
        assert(object_ops(pos, r1, r1.len()) + object_ops(pos, r2, (n - 1) as nat) + now
            =~= object_ops(pos, r1, r1.len()) + object_ops(pos, r2, n));
    }
}

pub proof fn lemma_object_ops_prefix(pos: Seq<Seq<char>>, r1: Seq<ObjectRecord>, r2: Seq<ObjectRecord>, n: nat)
    requires
        n <= r1.len(),
    ensures
        object_ops(pos, r1 + r2, n) == object_ops(pos, r1, n),
    decreases n,
{
    if n > 0 {
        lemma_object_ops_prefix(pos, r1, r2, (n - 1) as nat);
        assert((r1 + r2)[n - 1] == r1[n - 1]);
    }
}

} // verus!
