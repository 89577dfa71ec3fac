use vstd::prelude::*;
use crate::json::{
    JsonModel, JsonValue, elements_model, entries_model, json_eq, json_wf, key_index, keys_unique,
    lemma_json_eq_reflexive, lemma_key_index_absent, lemma_key_index_first, lemma_key_index_found,
    lemma_key_index_present, lemma_key_index_unique, object_find,
};
use crate::comparison::{
    Comparison, compare_result, diff_spec, left_record, object_added_records, object_left_records,
};
use crate::difference::{DifferenceModel, ObjectRecord, diff_model};
use crate::patch::{
    OpModel, comparison_ops, law_pointer_text_reads_back, lemma_object_ops_concat,
    lemma_object_ops_prefix, object_ops, object_record_ops, patch_ops, pointer_text, segment_read_back,
};
use crate::json_selector::{
    law_mutate_keeps_wf, lemma_lookup_wf, lemma_mutate_wf, lemma_pointer_lookup_wf,
    JsonSelector, PointerModel, Segment, Selector, lookup_path, mutate_at_selector, mutate_path,
    parse, parse_spec, path_model, pointer_lookup, pointer_mutate, value_at_selector,
};

verus! {

/// One operation of a patch to apply. Paths are pointer texts.
#[derive(Debug)]
pub enum Operation {
    Add { path: String, value: JsonValue },
    Remove { path: String },
    Replace { path: String, value: JsonValue },
    Move { from: String, path: String },
    Copy { from: String, path: String },
    Test { path: String, value: JsonValue },
}

/// Why an operation could not be applied, with the pointer text at fault.
#[derive(Debug, PartialEq)]
pub enum OperationError {
    MissingKeyForSelector(String),
    FailedTest(String),
    InvalidKey(String),
    DisallowedMove(String),
    InvalidIndex(String),
}

/// The kind of an `OperationError`.
pub enum ErrorKind {
    MissingKeyForSelector,
    FailedTest,
    InvalidKey,
    DisallowedMove,
    InvalidIndex,
}

impl View for OperationError {
    type V = (ErrorKind, Seq<char>);

    open spec fn view(&self) -> (ErrorKind, Seq<char>) {
        match self {
            OperationError::MissingKeyForSelector(p) => (ErrorKind::MissingKeyForSelector, p@),
            OperationError::FailedTest(p) => (ErrorKind::FailedTest, p@),
            OperationError::InvalidKey(p) => (ErrorKind::InvalidKey, p@),
            OperationError::DisallowedMove(p) => (ErrorKind::DisallowedMove, p@),
            OperationError::InvalidIndex(p) => (ErrorKind::InvalidIndex, p@),
        }
    }
}

/// `doc` with `v` added at `p`: into an object under the last key (replacing a value already
/// there), into an array before the given index or at its end (for an index equal to its length,
/// or for `-`). The parent must exist, and an array index may not pass the end.
pub open spec fn add_at(doc: JsonModel, p: Seq<Segment>, v: JsonModel) -> Result<JsonModel, ErrorKind> {
    if p.len() == 0 {
        Ok(v)
    } else {
        let pp = p.drop_last();
        match lookup_path(doc, pp) {
            None => Err(ErrorKind::MissingKeyForSelector),
            Some(parent) => {
                let np = match parent {
                    JsonModel::Object(m) => match p.last() {
                        Segment::Key(k) => {
                            let i = key_index(m, k);
                            if i >= 0 {
                                Ok(JsonModel::Object(m.update(i, (k, v))))
                            } else {
                                Ok(JsonModel::Object(m.push((k, v))))
                            }
                        },
                        _ => Err(ErrorKind::InvalidKey),
                    },
                    JsonModel::Array(x) => match p.last() {
                        Segment::Index(i) => if i < x.len() {
                            Ok(JsonModel::Array(x.insert(i, v)))
                        } else if i == x.len() {
                            Ok(JsonModel::Array(x.push(v)))
                        } else {
                            Err(ErrorKind::InvalidIndex)
                        },
                        Segment::Last => Ok(JsonModel::Array(x.push(v))),
                        _ => Err(ErrorKind::InvalidKey),
                    },
                    _ => Err(ErrorKind::InvalidKey),
                };
                match np {
                    Ok(n) => Ok(mutate_path(doc, pp, n)),
                    Err(e) => Err(e),
                }
            },
        }
    }
}

/// `doc` without the key or element at `p`, which must exist.
pub open spec fn remove_at(doc: JsonModel, p: Seq<Segment>) -> Option<JsonModel> {
    if p.len() == 0 {
        None
    } else {
        let pp = p.drop_last();
        match lookup_path(doc, pp) {
            None => None,
            Some(parent) => {
                let np = match parent {
                    JsonModel::Object(m) => match p.last() {
                        Segment::Key(k) => {
                            let i = key_index(m, k);
                            if i >= 0 {
                                Some(JsonModel::Object(m.remove(i)))
                            } else {
                                None
                            }
                        },
                        _ => None,
                    },
                    JsonModel::Array(x) => match p.last() {
                        Segment::Index(i) => if i < x.len() {
                            Some(JsonModel::Array(x.remove(i)))
                        } else {
                            None
                        },
                        Segment::Last => if x.len() > 0 {
                            Some(JsonModel::Array(x.drop_last()))
                        } else {
                            None
                        },
                        _ => None,
                    },
                    _ => None,
                };
                match np {
                    Some(n) => Some(mutate_path(doc, pp, n)),
                    None => None,
                }
            },
        }
    }
}

/// Whether the pointer `path` lies strictly below the pointer `from`.
pub open spec fn strictly_below(from: Seq<char>, path: Seq<char>) -> bool {
    match (parse_spec(from), parse_spec(path)) {
        (Some(PointerModel::Whole), Some(PointerModel::Path(p))) => p.len() > 0,
        (Some(PointerModel::Path(f)), Some(PointerModel::Path(p))) => f.len() < p.len()
            && p.take(f.len() as int) == f,
        _ => false,
    }
}

/// Adding at a pointer's text: the whole document is replaced; text that is no pointer is an
/// invalid key.
pub open spec fn add_text(doc: JsonModel, path: Seq<char>, v: JsonModel) -> Result<
    JsonModel,
    (ErrorKind, Seq<char>),
> {
    match parse_spec(path) {
        None => Err((ErrorKind::InvalidKey, path)),
        Some(PointerModel::Whole) => Ok(v),
        Some(PointerModel::Path(p)) => match add_at(doc, p, v) {
            Ok(d) => Ok(d),
            Err(e) => Err((e, path)),
        },
    }
}

/// Removing at a pointer's text: only a key or element that exists can be removed.
pub open spec fn remove_text(doc: JsonModel, path: Seq<char>) -> Result<
    JsonModel,
    (ErrorKind, Seq<char>),
> {
    match parse_spec(path) {
        Some(PointerModel::Path(p)) => match remove_at(doc, p) {
            Some(d) => Ok(d),
            None => Err((ErrorKind::InvalidKey, path)),
        },
        _ => Err((ErrorKind::InvalidKey, path)),
    }
}

/// The content of an `Operation`.
pub enum OperationModel {
    Add(Seq<char>, JsonModel),
    Remove(Seq<char>),
    Replace(Seq<char>, JsonModel),
    Move(Seq<char>, Seq<char>),
    Copy(Seq<char>, Seq<char>),
    Test(Seq<char>, JsonModel),
}

impl View for Operation {
    type V = OperationModel;

    open spec fn view(&self) -> OperationModel {
        match self {
            Operation::Add { path, value } => OperationModel::Add(path@, value@),
            Operation::Remove { path } => OperationModel::Remove(path@),
            Operation::Replace { path, value } => OperationModel::Replace(path@, value@),
            Operation::Move { from, path } => OperationModel::Move(from@, path@),
            Operation::Copy { from, path } => OperationModel::Copy(from@, path@),
            Operation::Test { path, value } => OperationModel::Test(path@, value@),
        }
    }
}

/// The document after one operation, or why it fails.
pub open spec fn apply_spec(doc: JsonModel, op: OperationModel) -> Result<
    JsonModel,
    (ErrorKind, Seq<char>),
> {
    match op {
        OperationModel::Test(path, v) => match pointer_lookup(doc, path) {
            None => Err((ErrorKind::InvalidKey, path)),
            Some(n) => if json_eq(n, v) {
                Ok(doc)
            } else {
                Err((ErrorKind::FailedTest, path))
            },
        },
        OperationModel::Replace(path, v) => match pointer_lookup(doc, path) {
            None => Err((ErrorKind::InvalidKey, path)),
            Some(_) => Ok(pointer_mutate(doc, path, v)),
        },
        OperationModel::Add(path, v) => add_text(doc, path, v),
        OperationModel::Remove(path) => remove_text(doc, path),
        OperationModel::Copy(from, path) => match pointer_lookup(doc, from) {
            None => Err((ErrorKind::InvalidKey, from)),
            Some(n) => add_text(doc, path, n),
        },
        OperationModel::Move(from, path) => if strictly_below(from, path) {
            Err((ErrorKind::DisallowedMove, path))
        } else {
            match pointer_lookup(doc, from) {
                None => Err((ErrorKind::InvalidKey, from)),
                Some(n) => match remove_text(doc, from) {
                    Err(e) => Err(e),
                    Ok(d) => add_text(d, path, n),
                },
            }
        },
    }
}

fn copy_selector(s: &Selector) -> (r: Selector)
    ensures
        r@ == s@,
{
    match s {
        Selector::ArrayIndex(i) => Selector::ArrayIndex(*i),
        Selector::LastElementInArray => Selector::LastElementInArray,
        Selector::Key(k) => Selector::Key(k.clone()),
    }
}

/// The segments of a path but its last.
fn parent_of(sels: &Vec<Selector>) -> (r: Vec<Selector>)
    requires
        sels@.len() > 0,
    ensures
        path_model(r@) == path_model(sels@).drop_last(),
{
    let mut out: Vec<Selector> = Vec::new();
    let mut i: usize = 0;
    while i < sels.len() - 1
        invariant
            i + 1 <= sels@.len(),
            out@.len() == i,
            forall|k: int| 0 <= k < i ==> (#[trigger] out@[k])@ == sels@[k]@,
        decreases sels@.len() - i,
    {
        out.push(copy_selector(&sels[i]));
        i = i + 1;
    }
    proof {
        assert(path_model(out@) =~= path_model(sels@).drop_last());
    }
    out
}

/// Whether two segments select alike.
fn same_selector(a: &Selector, b: &Selector) -> (r: bool)
    ensures
        r == (a@ == b@),
{
    match (a, b) {
        (Selector::ArrayIndex(x), Selector::ArrayIndex(y)) => *x == *y,
        (Selector::LastElementInArray, Selector::LastElementInArray) => true,
        (Selector::Key(x), Selector::Key(y)) => *x == *y,
        _ => false,
    }
}

/// Whether the pointer `path` lies strictly below the pointer `from`.
#[verifier::loop_isolation(false)]
fn is_strictly_below(from: &String, path: &String) -> (r: bool)
    ensures
        r == strictly_below(from@, path@),
{
    match (parse(from.as_str()), parse(path.as_str())) {
        (Some(JsonSelector::FullDocument), Some(JsonSelector::JsonSelector(p))) => p.len() > 0,
        (Some(JsonSelector::JsonSelector(f)), Some(JsonSelector::JsonSelector(p))) => {
            if f.len() >= p.len() {
                return false;
            }
            let ghost fm = path_model(f@);
            let ghost pm = path_model(p@);
            let mut i: usize = 0;
            while i < f.len()
                invariant
                    i <= f@.len(),
                    f@.len() < p@.len(),
                    fm == path_model(f@),
                    pm == path_model(p@),
                    forall|k: int| 0 <= k < i ==> pm[k] == fm[k],
                decreases f@.len() - i,
            {
                if !same_selector(&f[i], &p[i]) {
                    proof {
                        assert(pm.take(fm.len() as int)[i as int] != fm[i as int]);
                        assert(pm.take(fm.len() as int) != fm);
                    }
                    return false;
                }
                i = i + 1;
            }
            proof {
                assert(pm.take(fm.len() as int) =~= fm);
            }
            true
        },
        _ => false,
    }
}

/// The node that a pointer's text reaches.
fn lookup_text<'a>(document: &'a JsonValue, text: &String) -> (r: Option<&'a JsonValue>)
    ensures
        match r {
            Some(v) => pointer_lookup(document@, text@) == Some(v@),
            None => pointer_lookup(document@, text@) is None,
        },
{
    match parse(text.as_str()) {
        None => None,
        Some(JsonSelector::FullDocument) => Some(document),
        Some(JsonSelector::JsonSelector(values)) => {
            proof {
                assert(path_model(values@).skip(0) =~= path_model(values@));
            }
            value_at_selector(document, &values, 0)
        },
    }
}

/// Adds `value` at the path of `sels`, as `add_at` says; on failure the document is left as it
/// was.
#[verifier::rlimit(40)]
fn add_at_selectors(document: &mut JsonValue, sels: &Vec<Selector>, value: JsonValue) -> (r: Result<
    (),
    ErrorKind,
>)
    ensures
        match add_at(old(document)@, path_model(sels@), value@) {
            Ok(d) => r is Ok && final(document)@ == d,
            Err(e) => r == Err::<(), ErrorKind>(e) && final(document)@ == old(document)@,
        },
{
    if sels.len() == 0 {
        *document = value;
        return Ok(());
    }
    let ghost p = path_model(sels@);
    let parent_sels = parent_of(sels);
    proof {
        assert(path_model(parent_sels@).skip(0) =~= path_model(parent_sels@));
        assert(p.last() == sels@[sels@.len() - 1]@);
    }
    let parent = match value_at_selector(document, &parent_sels, 0) {
        None => {
            return Err(ErrorKind::MissingKeyForSelector);
        },
        Some(found) => found.clone(),
    };
    let last = &sels[sels.len() - 1];
    let np = match parent {
        JsonValue::Object(mut m) => match last {
            Selector::Key(k) => {
                let ghost ms = m@;
                match object_find(&m, k) {
                    Some(i) => {
                        m.remove(i);
                        m.insert(i, (k.clone(), value));
                        proof {
                            assert(m@ =~= ms.update(i as int, m@[i as int]));
                            assert(entries_model(m@) =~= entries_model(ms).update(
                                i as int,
                                (k@, value@),
                            ));
                        }
                    },
                    None => {
                        m.push((k.clone(), value));
                        proof {
                            assert(entries_model(m@) =~= entries_model(ms).push((k@, value@)));
                        }
                    },
                }
                JsonValue::Object(m)
            },
            _ => {
                return Err(ErrorKind::InvalidKey);
            },
        },
        JsonValue::Array(mut x) => {
            let ghost xs = x@;
            match last {
                Selector::ArrayIndex(i) => {
                    if *i < x.len() {
                        x.insert(*i, value);
                        proof {
                            assert(elements_model(x@) =~= elements_model(xs).insert(
                                *i as int,
                                value@,
                            ));
                        }
                    } else if *i == x.len() {
                        x.push(value);
                        proof {
                            assert(elements_model(x@) =~= elements_model(xs).push(value@));
                        }
                    } else {
                        return Err(ErrorKind::InvalidIndex);
                    }
                    JsonValue::Array(x)
                },
                Selector::LastElementInArray => {
                    x.push(value);
                    proof {
                        assert(elements_model(x@) =~= elements_model(xs).push(value@));
                    }
                    JsonValue::Array(x)
                },
                Selector::Key(_) => {
                    return Err(ErrorKind::InvalidKey);
                },
            }
        },
        _ => {
            return Err(ErrorKind::InvalidKey);
        },
    };
    let mut doc = JsonValue::Null;
    std::mem::swap(document, &mut doc);
    *document = mutate_at_selector(doc, &parent_sels, 0, np);
    Ok(())
}

/// Removes the key or element at the path of `sels`, as `remove_at` says; on failure the
/// document is left as it was.
#[verifier::rlimit(40)]
fn remove_at_selectors(document: &mut JsonValue, sels: &Vec<Selector>) -> (r: bool)
    ensures
        match remove_at(old(document)@, path_model(sels@)) {
            Some(d) => r && final(document)@ == d,
            None => !r && final(document)@ == old(document)@,
        },
{
    if sels.len() == 0 {
        return false;
    }
    let ghost p = path_model(sels@);
    let parent_sels = parent_of(sels);
    proof {
        assert(path_model(parent_sels@).skip(0) =~= path_model(parent_sels@));
        assert(p.last() == sels@[sels@.len() - 1]@);
    }
    let parent = match value_at_selector(document, &parent_sels, 0) {
        None => {
            return false;
        },
        Some(found) => found.clone(),
    };
    let last = &sels[sels.len() - 1];
    let np = match parent {
        JsonValue::Object(mut m) => match last {
            Selector::Key(k) => {
                let ghost ms = m@;
                match object_find(&m, k) {
                    Some(i) => {
                        m.remove(i);
                        proof {
                            assert(entries_model(m@) =~= entries_model(ms).remove(i as int));
                        }
                    },
                    None => {
                        return false;
                    },
                }
                JsonValue::Object(m)
            },
            _ => {
                return false;
            },
        },
        JsonValue::Array(mut x) => {
            let ghost xs = x@;
            match last {
                Selector::ArrayIndex(i) => {
                    if *i < x.len() {
                        x.remove(*i);
                        proof {
                            assert(elements_model(x@) =~= elements_model(xs).remove(*i as int));
                        }
                    } else {
                        return false;
                    }
                    JsonValue::Array(x)
                },
                Selector::LastElementInArray => {
                    if x.len() == 0 {
                        return false;
                    }
                    x.pop();
                    proof {
                        assert(elements_model(x@) =~= elements_model(xs).drop_last());
                    }
                    JsonValue::Array(x)
                },
                Selector::Key(_) => {
                    return false;
                },
            }
        },
        _ => {
            return false;
        },
    };
    let mut doc = JsonValue::Null;
    std::mem::swap(document, &mut doc);
    *document = mutate_at_selector(doc, &parent_sels, 0, np);
    true
}

fn error_of(kind: ErrorKind, path: String) -> (r: OperationError)
    ensures
        r@ == (kind, path@),
{
    match kind {
        ErrorKind::MissingKeyForSelector => OperationError::MissingKeyForSelector(path),
        ErrorKind::FailedTest => OperationError::FailedTest(path),
        ErrorKind::InvalidKey => OperationError::InvalidKey(path),
        ErrorKind::DisallowedMove => OperationError::DisallowedMove(path),
        ErrorKind::InvalidIndex => OperationError::InvalidIndex(path),
    }
}

fn add_text_exec(document: &mut JsonValue, path: &String, value: JsonValue) -> (r: Result<
    (),
    OperationError,
>)
    ensures
        match add_text(old(document)@, path@, value@) {
            Ok(d) => r is Ok && final(document)@ == d,
            Err(e) => r matches Err(x) && x@ == e && final(document)@ == old(document)@,
        },
{
    match parse(path.as_str()) {
        None => Err(OperationError::InvalidKey(path.clone())),
        Some(JsonSelector::FullDocument) => {
            *document = value;
            Ok(())
        },
        Some(JsonSelector::JsonSelector(sels)) => match add_at_selectors(document, &sels, value) {
            Ok(()) => Ok(()),
            Err(kind) => Err(error_of(kind, path.clone())),
        },
    }
}

fn remove_text_exec(document: &mut JsonValue, path: &String) -> (r: Result<(), OperationError>)
    ensures
        match remove_text(old(document)@, path@) {
            Ok(d) => r is Ok && final(document)@ == d,
            Err(e) => r matches Err(x) && x@ == e && final(document)@ == old(document)@,
        },
{
    match parse(path.as_str()) {
        Some(JsonSelector::JsonSelector(sels)) => {
            if remove_at_selectors(document, &sels) {
                Ok(())
            } else {
                Err(OperationError::InvalidKey(path.clone()))
            }
        },
        _ => Err(OperationError::InvalidKey(path.clone())),
    }
}

impl Operation {
    /// Applies one operation to `document` in place, as `apply_spec` says. On failure the
    /// document is left as it was and the error names the pointer at fault.
    pub fn apply(document: &mut JsonValue, operation: &Operation) -> (r: Result<(), OperationError>)
        ensures
            match apply_spec(old(document)@, operation@) {
                Ok(d) => r is Ok && final(document)@ == d,
                Err(e) => r matches Err(x) && x@ == e && final(document)@ == old(document)@,
            },
    {
        match operation {
            Operation::Test { path, value } => match lookup_text(document, path) {
                None => Err(OperationError::InvalidKey(path.clone())),
                Some(found) => {
                    if found.equals(value) {
                        Ok(())
                    } else {
                        Err(OperationError::FailedTest(path.clone()))
                    }
                },
            },
            Operation::Replace { path, value } => match lookup_text(document, path) {
                None => Err(OperationError::InvalidKey(path.clone())),
                Some(_) => {
                    crate::json_selector::mutate_at(document, path.as_str(), value.clone());
                    Ok(())
                },
            },
            Operation::Add { path, value } => add_text_exec(document, path, value.clone()),
            Operation::Remove { path } => remove_text_exec(document, path),
            Operation::Copy { from, path } => match lookup_text(document, from) {
                None => Err(OperationError::InvalidKey(from.clone())),
                Some(found) => {
                    let v = found.clone();
                    add_text_exec(document, path, v)
                },
            },
            Operation::Move { from, path } => {
                if is_strictly_below(from, path) {
                    return Err(OperationError::DisallowedMove(path.clone()));
                }
                match lookup_text(document, from) {
                    None => Err(OperationError::InvalidKey(from.clone())),
                    Some(found) => {
                        let v = found.clone();
                        let mut work = document.clone();
                        match remove_text_exec(&mut work, from) {
                            Err(e) => Err(e),
                            Ok(()) => match add_text_exec(&mut work, path, v) {
                                Err(e) => Err(e),
                                Ok(()) => {
                                    *document = work;
                                    Ok(())
                                },
                            },
                        }
                    },
                }
            },
        }
    }
}

/// The applier's operation for a generated one: the same edit, at the pointer text of its path.
pub open spec fn as_operation(op: OpModel) -> OperationModel {
    match op {
        OpModel::Add(p, v) => OperationModel::Add(pointer_text(p), v),
        OpModel::Remove(p) => OperationModel::Remove(pointer_text(p)),
        OpModel::Replace(p, v) => OperationModel::Replace(pointer_text(p), v),
    }
}

/// The document after generated operations are applied in order, or nothing where one fails.
pub open spec fn apply_ops(doc: JsonModel, ops: Seq<OpModel>) -> Option<JsonModel>
    decreases ops.len(),
{
    if ops.len() == 0 {
        Some(doc)
    } else {
        match apply_ops(doc, ops.drop_last()) {
            Some(d) => match apply_spec(d, as_operation(ops.last())) {
                Ok(e) => Some(e),
                Err(_) => None,
            },
            None => None,
        }
    }
}

proof fn lemma_apply_ops_concat(doc: JsonModel, a: Seq<OpModel>, b: Seq<OpModel>)
    ensures
        apply_ops(doc, a + b) == match apply_ops(doc, a) {
            Some(d) => apply_ops(d, b),
            None => None,
        },
    decreases b.len(),
{
    if b.len() == 0 {
        assert(a + b =~= a);
    } else {
        lemma_apply_ops_concat(doc, a, b.drop_last());
        assert((a + b).drop_last() =~= a + b.drop_last());
        assert((a + b).last() == b.last());
        if apply_ops(doc, a) is None {
            lemma_apply_ops_none(doc, a, b);
        }
    }
}

proof fn lemma_apply_ops_none(doc: JsonModel, a: Seq<OpModel>, b: Seq<OpModel>)
    requires
        apply_ops(doc, a) is None,
    ensures
        apply_ops(doc, a + b) is None,
    decreases b.len(),
{
    if b.len() == 0 {
        assert(a + b =~= a);
    } else {
        lemma_apply_ops_none(doc, a, b.drop_last());
        assert((a + b).drop_last() =~= a + b.drop_last());
    }
}

pub open spec fn is_scalar(v: JsonModel) -> bool {
    !(v is Array) && !(v is Object)
}

pub open spec fn same_kind(a: JsonModel, b: JsonModel) -> bool {
    ||| a is Null && b is Null
    ||| a is Bool && b is Bool
    ||| a is Number && b is Number
    ||| a is Str && b is Str
}

/// Two objects with unique keys, scalar values, the same kind of value under a shared key, and
/// keys that read back as keys from a pointer.
pub open spec fn flat_pair(x: Seq<(String, JsonValue)>, y: Seq<(String, JsonValue)>) -> bool {
    let xm = entries_model(x);
    let ym = entries_model(y);
    &&& keys_unique(xm)
    &&& keys_unique(ym)
    &&& forall|i: int|
        0 <= i < xm.len() ==> is_scalar(#[trigger] xm[i].1) && segment_read_back(xm[i].0)
            == Segment::Key(xm[i].0)
    &&& forall|i: int|
        0 <= i < ym.len() ==> is_scalar(#[trigger] ym[i].1) && segment_read_back(ym[i].0)
            == Segment::Key(ym[i].0)
    &&& forall|i: int, j: int|
        0 <= i < xm.len() && 0 <= j < ym.len() && #[trigger] xm[i].0 == #[trigger] ym[j].0
            ==> same_kind(xm[i].1, ym[j].1)
}

/// The entries of the left object after the operations of its first `t` records: removed keys
/// gone, changed values replaced.
pub open spec fn left_done(x: Seq<(String, JsonValue)>, y: Seq<(String, JsonValue)>, t: nat) -> Seq<
    (Seq<char>, JsonModel),
>
    decreases t,
{
    if t == 0 || t > x.len() {
        Seq::empty()
    } else {
        let prev = left_done(x, y, (t - 1) as nat);
        let xm = entries_model(x);
        let ym = entries_model(y);
        let k = xm[t - 1].0;
        let p = key_index(ym, k);
        if p >= 0 {
            prev.push(
                (
                    k,
                    if json_eq(xm[t - 1].1, ym[p].1) {
                        xm[t - 1].1
                    } else {
                        ym[p].1
                    },
                ),
            )
        } else {
            prev
        }
    }
}

/// The entries of the right object, among its first `j`, whose keys the left object lacks.
pub open spec fn added_done(x: Seq<(String, JsonValue)>, y: Seq<(String, JsonValue)>, j: nat) -> Seq<
    (Seq<char>, JsonModel),
>
    decreases j,
{
    if j == 0 || j > y.len() {
        Seq::empty()
    } else {
        let prev = added_done(x, y, (j - 1) as nat);
        if key_index(entries_model(x), entries_model(y)[j - 1].0) < 0 {
            prev.push(entries_model(y)[j - 1])
        } else {
            prev
        }
    }
}

proof fn lemma_key_pointer(k: Seq<char>)
    requires
        segment_read_back(k) == Segment::Key(k),
    ensures
        parse_spec(pointer_text(seq![k])) == Some(PointerModel::Path(seq![Segment::Key(k)])),
{
    law_pointer_text_reads_back(seq![k]);
    assert(seq![k].map_values(|s: Seq<char>| segment_read_back(s)) =~= seq![Segment::Key(k)]);
}

proof fn lemma_key_missing_everywhere(m: Seq<(Seq<char>, JsonModel)>, k: Seq<char>)
    requires
        key_index(m, k) < 0,
    ensures
        forall|i: int| 0 <= i < m.len() ==> m[i].0 != k,
{
    assert forall|i: int| 0 <= i < m.len() implies m[i].0 != k by {
        if m[i].0 == k {
            lemma_key_index_present(m, k, i);
        }
    }
}

proof fn lemma_left_records(x: Seq<(String, JsonValue)>, y: Seq<(String, JsonValue)>, n: nat)
    requires
        n <= x.len(),
    ensures
        object_left_records(x, y, n).len() == n,
        forall|i: int| 0 <= i < n ==> object_left_records(x, y, n)[i] == left_record(x, y, i),
    decreases n,
{
    if n > 0 {
        lemma_left_records(x, y, (n - 1) as nat);
    }
}

proof fn lemma_left_done(x: Seq<(String, JsonValue)>, y: Seq<(String, JsonValue)>, t: nat)
    requires
        flat_pair(x, y),
        t <= x.len(),
    ensures
        forall|q: int|
            0 <= q < left_done(x, y, t).len() ==> exists|i: int|
                0 <= i < t && #[trigger] left_done(x, y, t)[q].0 == entries_model(x)[i].0
                    && key_index(entries_model(y), entries_model(x)[i].0) >= 0 && json_eq(
                    left_done(x, y, t)[q].1,
                    entries_model(y)[key_index(entries_model(y), entries_model(x)[i].0)].1,
                ),
        forall|i: int|
            0 <= i < t && key_index(entries_model(y), #[trigger] entries_model(x)[i].0) >= 0
                ==> exists|q: int|
                0 <= q < left_done(x, y, t).len() && left_done(x, y, t)[q].0 == entries_model(x)[i].0,
    decreases t,
{
    if t > 0 {
        lemma_left_done(x, y, (t - 1) as nat);
        let xm = entries_model(x);
        let ym = entries_model(y);
        let prev = left_done(x, y, (t - 1) as nat);
        let cur = left_done(x, y, t);
        let k = xm[t - 1].0;
        let p = key_index(ym, k);
        lemma_key_index_found(ym, k);
        if p >= 0 {
            let v = cur[prev.len() as int].1;
            if !json_eq(xm[t - 1].1, ym[p].1) {
                lemma_json_eq_reflexive(ym[p].1);
            }
            assert(json_eq(v, ym[p].1));
        }
        assert forall|q: int| 0 <= q < cur.len() implies exists|i: int|
            0 <= i < t && #[trigger] cur[q].0 == xm[i].0 && key_index(ym, xm[i].0) >= 0 && json_eq(
                cur[q].1,
                ym[key_index(ym, xm[i].0)].1,
            ) by {
            if q < prev.len() {
                assert(cur[q] == prev[q]);
                let i = choose|i: int|
                    0 <= i < t - 1 && #[trigger] prev[q].0 == xm[i].0 && key_index(ym, xm[i].0) >= 0
                        && json_eq(prev[q].1, ym[key_index(ym, xm[i].0)].1);
                assert(0 <= i < t && cur[q].0 == xm[i].0);
            } else {
                assert(0 <= t - 1 < t && cur[q].0 == xm[t - 1].0);
            }
        }
        assert forall|i: int|
            0 <= i < t && key_index(ym, #[trigger] xm[i].0) >= 0 implies exists|q: int|
            0 <= q < cur.len() && cur[q].0 == xm[i].0 by {
            if i < t - 1 {
                let q = choose|q: int| 0 <= q < prev.len() && prev[q].0 == xm[i].0;
                assert(cur[q] == prev[q]);
            } else {
                assert(cur[prev.len() as int].0 == xm[i].0);
            }
        }
    }
}

proof fn lemma_added_done(x: Seq<(String, JsonValue)>, y: Seq<(String, JsonValue)>, j: nat)
    requires
        j <= y.len(),
    ensures
        forall|q: int|
            0 <= q < added_done(x, y, j).len() ==> exists|i: int|
                0 <= i < j && #[trigger] added_done(x, y, j)[q] == entries_model(y)[i] && key_index(
                    entries_model(x),
                    entries_model(y)[i].0,
                ) < 0,
        forall|i: int|
            0 <= i < j && key_index(entries_model(x), #[trigger] entries_model(y)[i].0) < 0
                ==> exists|q: int| 0 <= q < added_done(x, y, j).len() && added_done(x, y, j)[q] == entries_model(y)[i],
    decreases j,
{
    if j > 0 {
        lemma_added_done(x, y, (j - 1) as nat);
        let xm = entries_model(x);
        let ym = entries_model(y);
        let prev = added_done(x, y, (j - 1) as nat);
        let cur = added_done(x, y, j);
        assert forall|q: int| 0 <= q < cur.len() implies exists|i: int|
            0 <= i < j && #[trigger] cur[q] == ym[i] && key_index(xm, ym[i].0) < 0 by {
            if q < prev.len() {
                assert(cur[q] == prev[q]);
                let i = choose|i: int|
                    0 <= i < j - 1 && #[trigger] prev[q] == ym[i] && key_index(xm, ym[i].0) < 0;
                assert(0 <= i < j && cur[q] == ym[i]);
            } else {
                assert(cur[q] == ym[j - 1]);
            }
        }
        assert forall|i: int|
            0 <= i < j && key_index(xm, #[trigger] ym[i].0) < 0 implies exists|q: int|
            0 <= q < cur.len() && cur[q] == ym[i] by {
            if i < j - 1 {
                let q = choose|q: int| 0 <= q < prev.len() && prev[q] == ym[i];
                assert(cur[q] == prev[q]);
            } else {
                assert(cur[prev.len() as int] == ym[i]);
            }
        }
    }
}

/// The patch of two scalars of one kind that differ is one replacement by the right one.
proof fn lemma_scalar_patch(lv: JsonValue, rv: JsonValue, pos: Seq<Seq<char>>)
    requires
        is_scalar(lv@),
        same_kind(lv@, rv@),
        !json_eq(lv@, rv@),
    ensures
        patch_ops(pos, diff_spec(lv, rv)) == seq![OpModel::Replace(pos, rv@)],
{
    match lv {
        JsonValue::String(_) => {
            assert(rv is String);
        },
        JsonValue::Number(_) => {
            assert(rv is Number);
        },
        JsonValue::Bool(_) => {
            assert(rv is Bool);
        },
        _ => {
            assert(rv is Null);
        },
    }
}

proof fn lemma_apply_one(d: JsonModel, op: OpModel)
    ensures
        apply_ops(d, seq![op]) == match apply_spec(d, as_operation(op)) {
            Ok(e) => Some(e),
            Err(_) => None::<JsonModel>,
        },
{
    assert(seq![op].drop_last() =~= Seq::<OpModel>::empty());
    assert(apply_ops(d, Seq::<OpModel>::empty()) == Some(d));
    assert(seq![op].last() == op);
}

#[verifier::rlimit(60)]
proof fn lemma_apply_left(x: Seq<(String, JsonValue)>, y: Seq<(String, JsonValue)>, t: nat)
    requires
        flat_pair(x, y),
        t <= x.len(),
    ensures
        apply_ops(
            JsonModel::Object(entries_model(x)),
            object_ops(Seq::empty(), object_left_records(x, y, x.len()), t),
        ) == Some(JsonModel::Object(left_done(x, y, t) + entries_model(x).skip(t as int))),
    decreases t,
{
    let xm = entries_model(x);
    let ym = entries_model(y);
    let recs = object_left_records(x, y, x.len());
    let pos = Seq::<Seq<char>>::empty();
    if t == 0 {
        assert(left_done(x, y, t) + xm.skip(0) =~= xm);
        assert(object_ops(pos, recs, 0) =~= Seq::<OpModel>::empty());
        assert(apply_ops(JsonModel::Object(xm), Seq::<OpModel>::empty()) == Some(JsonModel::Object(xm)));
    } else {
        lemma_apply_left(x, y, (t - 1) as nat);
        lemma_left_records(x, y, x.len());
        lemma_left_done(x, y, (t - 1) as nat);
        let prev_ops = object_ops(pos, recs, (t - 1) as nat);
        let rec = recs[t - 1];
        assert(rec == left_record(x, y, t - 1));
        let now = object_record_ops(pos, rec);
        assert(object_ops(pos, recs, t) == prev_ops + now);
        lemma_apply_ops_concat(JsonModel::Object(xm), prev_ops, now);
        let prevd = left_done(x, y, (t - 1) as nat);
        let m = prevd + xm.skip(t - 1);
        let at = prevd.len() as int;
        let k = xm[t - 1].0;
        assert(m[at] == xm[t - 1]);
        assert(xm[t - 1] == (x[t - 1].0@, x[t - 1].1@));
        assert forall|q: int| 0 <= q < at implies m[q].0 != k by {
            assert(m[q] == prevd[q]);
            let i = choose|i: int|
                0 <= i < t - 1 && #[trigger] prevd[q].0 == xm[i].0 && key_index(ym, xm[i].0) >= 0
                    && json_eq(prevd[q].1, ym[key_index(ym, xm[i].0)].1);
        }
        lemma_key_index_first(m, k, at);
        assert(pos.push(k) =~= seq![k]);
        assert(is_scalar(xm[t - 1].1));
        lemma_key_pointer(k);
        let p = key_index(ym, k);
        lemma_key_index_found(ym, k);
        let cur = left_done(x, y, t);
        if p >= 0 {
            if json_eq(xm[t - 1].1, ym[p].1) {
                assert(now =~= Seq::<OpModel>::empty());
                assert(apply_ops(JsonModel::Object(m), now) == Some(JsonModel::Object(m)));
                assert(cur + xm.skip(t as int) =~= m);
                assert(apply_ops(JsonModel::Object(xm), prev_ops + now) == Some(
                    JsonModel::Object(cur + xm.skip(t as int)),
                ));
            } else {
                assert(ym[p] == (y[p].0@, y[p].1@));
                assert(same_kind(xm[t - 1].1, ym[p].1));
                lemma_scalar_patch(x[t - 1].1, y[p].1, seq![k]);
                lemma_apply_one(JsonModel::Object(m), OpModel::Replace(seq![k], ym[p].1));
                assert(seq![Segment::Key(k)].skip(1) =~= Seq::<Segment>::empty());
                assert(lookup_path(m[at].1, Seq::<Segment>::empty()) == Some(m[at].1));
                assert(mutate_path(m[at].1, Seq::<Segment>::empty(), ym[p].1) == ym[p].1);
                assert(lookup_path(JsonModel::Object(m), seq![Segment::Key(k)]) == Some(m[at].1));
                assert(mutate_path(JsonModel::Object(m), seq![Segment::Key(k)], ym[p].1)
                    == JsonModel::Object(m.update(at, (k, ym[p].1))));
                assert(cur + xm.skip(t as int) =~= m.update(at, (k, ym[p].1)));
                assert(apply_ops(JsonModel::Object(m), now) == Some(
                    JsonModel::Object(m.update(at, (k, ym[p].1))),
                ));
                assert(apply_ops(JsonModel::Object(xm), prev_ops + now) == Some(
                    JsonModel::Object(cur + xm.skip(t as int)),
                ));
            }
        } else {
            lemma_apply_one(JsonModel::Object(m), OpModel::Remove(seq![k]));
            assert(seq![Segment::Key(k)].drop_last() =~= Seq::<Segment>::empty());
            assert(cur + xm.skip(t as int) =~= m.remove(at));
            assert(now == seq![OpModel::Remove(seq![k])]);
            assert(apply_ops(JsonModel::Object(m), now) == Some(JsonModel::Object(m.remove(at))));
            assert(apply_ops(JsonModel::Object(xm), prev_ops + now) == Some(
                JsonModel::Object(cur + xm.skip(t as int)),
            ));
        }
    }
}

#[verifier::rlimit(60)]
proof fn lemma_apply_added(x: Seq<(String, JsonValue)>, y: Seq<(String, JsonValue)>, j: nat)
    requires
        flat_pair(x, y),
        j <= y.len(),
    ensures
        apply_ops(
            JsonModel::Object(left_done(x, y, x.len())),
            object_ops(
                Seq::empty(),
                object_added_records(x, y, j),
                object_added_records(x, y, j).len(),
            ),
        ) == Some(JsonModel::Object(left_done(x, y, x.len()) + added_done(x, y, j))),
    decreases j,
{
    let xm = entries_model(x);
    let ym = entries_model(y);
    let l = left_done(x, y, x.len());
    let pos = Seq::<Seq<char>>::empty();
    if j == 0 {
        assert(l + added_done(x, y, 0) =~= l);
    } else {
        lemma_apply_added(x, y, (j - 1) as nat);
        let prev = object_added_records(x, y, (j - 1) as nat);
        let cur = object_added_records(x, y, j);
        let k = ym[j - 1].0;
        assert(ym[j - 1] == (y[j - 1].0@, y[j - 1].1@));
        if key_index(xm, k) < 0 {
            let rec = ObjectRecord::Added(k, ym[j - 1].1);
            assert(cur == prev.push(rec));
            assert(cur =~= prev + seq![rec]);
            lemma_object_ops_prefix(pos, prev, seq![rec], prev.len());
            let op = OpModel::Add(pos.push(k), ym[j - 1].1);
            assert(object_record_ops(pos, rec) == seq![op]);
            assert(object_ops(pos, cur, cur.len()) == object_ops(pos, prev, prev.len()) + seq![op]);
            let m = l + added_done(x, y, (j - 1) as nat);
            lemma_apply_ops_concat(JsonModel::Object(l), object_ops(pos, prev, prev.len()), seq![op]);
            lemma_apply_one(JsonModel::Object(m), op);
            assert(pos.push(k) =~= seq![k]);
            assert(is_scalar(ym[j - 1].1));
            lemma_key_pointer(k);
            lemma_left_done(x, y, x.len());
            lemma_added_done(x, y, (j - 1) as nat);
            lemma_key_missing_everywhere(xm, k);
            let ad = added_done(x, y, (j - 1) as nat);
            assert forall|q: int| 0 <= q < m.len() implies m[q].0 != k by {
                if q < l.len() {
                    assert(m[q] == l[q]);
                    let i = choose|i: int|
                        0 <= i < x.len() && #[trigger] l[q].0 == xm[i].0 && key_index(ym, xm[i].0)
                            >= 0 && json_eq(l[q].1, ym[key_index(ym, xm[i].0)].1);
                } else {
                    assert(m[q] == ad[q - l.len()]);
                    let i = choose|i: int|
                        0 <= i < j - 1 && #[trigger] ad[q - l.len()] == ym[i] && key_index(xm, ym[i].0)
                            < 0;
                    assert(ym[i].0 != ym[j - 1].0);
                }
            }
            lemma_key_index_absent(m, k);
            assert(seq![Segment::Key(k)].drop_last() =~= Seq::<Segment>::empty());
            assert(l + added_done(x, y, j) =~= m.push((k, ym[j - 1].1)));
        } else {
            assert(cur == prev);
            assert(added_done(x, y, j) == added_done(x, y, (j - 1) as nat));
        }
    }
}

/// Patch round trip, one level deep: take two objects with unique keys and scalar values, whose
/// shared keys hold values of one kind, and whose keys read back as keys from a pointer (neither
/// `-` nor a run of digits). Applying the operations of their comparison to the first, in order,
/// succeeds and gives a document equal to the second.
#[verifier::rlimit(60)]
pub proof fn law_patch_round_trip_flat(
    x: Vec<(String, JsonValue)>,
    y: Vec<(String, JsonValue)>,
    c: Comparison,
)
    requires
        flat_pair(x@, y@),
        compare_result(JsonValue::Object(x), JsonValue::Object(y), c),
    ensures
        apply_ops(JsonValue::Object(x)@, comparison_ops(c)) matches Some(d) && json_eq(
            d,
            JsonValue::Object(y)@,
        ),
{
    let xv = JsonValue::Object(x);
    let yv = JsonValue::Object(y);
    let xm = entries_model(x@);
    let ym = entries_model(y@);
    let empty = Seq::<Seq<char>>::empty();
    assert(xv@ == JsonModel::Object(xm));
    assert(yv@ == JsonModel::Object(ym));
    match c {
        Comparison::Same(_, _) => {
            assert(comparison_ops(c) =~= Seq::<OpModel>::empty());
            assert(apply_ops(xv@, Seq::<OpModel>::empty()) == Some(xv@));
        },
        Comparison::Different(_, _, d) => {
            let lr = object_left_records(x@, y@, x@.len());
            let ar = object_added_records(x@, y@, y@.len());
            assert(diff_model(d) == DifferenceModel::MismatchedObject(lr + ar));
            lemma_left_records(x@, y@, x@.len());
            lemma_object_ops_concat(empty, lr, ar, ar.len());
            assert(comparison_ops(c) == object_ops(empty, lr, lr.len()) + object_ops(
                empty,
                ar,
                ar.len(),
            ));
            lemma_apply_ops_concat(xv@, object_ops(empty, lr, lr.len()), object_ops(empty, ar, ar.len()));
            lemma_apply_left(x@, y@, x@.len());
            let l = left_done(x@, y@, x@.len());
            assert(l + xm.skip(x@.len() as int) =~= l);
            lemma_apply_added(x@, y@, y@.len());
            let a = added_done(x@, y@, y@.len());
            let f = l + a;
            lemma_left_done(x@, y@, x@.len());
            lemma_added_done(x@, y@, y@.len());
            assert forall|q: int| 0 <= q < f.len() implies key_index(ym, f[q].0) >= 0 && json_eq(
                f[q].1,
                ym[key_index(ym, f[q].0)].1,
            ) by {
                if q < l.len() {
                    assert(f[q] == l[q]);
                    let i = choose|i: int|
                        0 <= i < x@.len() && #[trigger] l[q].0 == xm[i].0 && key_index(ym, xm[i].0)
                            >= 0 && json_eq(l[q].1, ym[key_index(ym, xm[i].0)].1);
                } else {
                    assert(f[q] == a[q - l.len()]);
                    let i = choose|i: int|
                        0 <= i < y@.len() && #[trigger] a[q - l.len()] == ym[i] && key_index(
                            xm,
                            ym[i].0,
                        ) < 0;
                    lemma_key_index_unique(ym, i);
                    assert(is_scalar(ym[i].1));
                    lemma_json_eq_reflexive(ym[i].1);
                }
            }
            assert forall|j: int| 0 <= j < ym.len() implies key_index(f, ym[j].0) >= 0 by {
                let k = ym[j].0;
                lemma_key_index_found(xm, k);
                if key_index(xm, k) >= 0 {
                    let i = key_index(xm, k);
                    lemma_key_index_unique(ym, j);
                    assert(key_index(ym, xm[i].0) >= 0);
                    let q = choose|q: int| 0 <= q < l.len() && l[q].0 == xm[i].0;
                    assert(f[q] == l[q]);
                    lemma_key_index_present(f, k, q);
                } else {
                    let q = choose|q: int| 0 <= q < a.len() && a[q] == ym[j];
                    assert(f[l.len() + q] == a[q]);
                    lemma_key_index_present(f, k, l.len() + q);
                }
            }
            assert(json_eq(JsonModel::Object(f), JsonModel::Object(ym)));
        },
    }
}

} // verus!
