use vstd::prelude::*;

verus! {

/// A JSON number, held the way serde_json holds it.
#[derive(Debug, Clone, Copy)]
pub enum JsonNumber {
    /// A non-negative integer.
    PosInt(u64),
    /// A negative integer.
    NegInt(i64),
    /// A finite floating-point number, held as its IEEE-754 bit pattern.
    Float(u64),
}

/// Mask of every bit of an IEEE-754 double but its sign.
pub const MAGNITUDE_MASK: u64 = 0x7fff_ffff_ffff_ffff;

/// Whether a bit pattern is positive or negative zero.
pub open spec fn float_bits_zero(bits: u64) -> bool {
    bits & MAGNITUDE_MASK == 0
}

impl JsonNumber {
    /// A number as serde_json builds one: `NegInt` holds only negative values.
    pub open spec fn wf(self) -> bool {
        self matches JsonNumber::NegInt(i) ==> i < 0
    }

    /// Numeric equality: integers of the same sign compare by value, finite floats by IEEE-754
    /// equality (equal bit patterns, or two zeros of either sign); an integer never equals a float.
    pub open spec fn same(self, other: JsonNumber) -> bool {
        match self {
            JsonNumber::PosInt(a) => other matches JsonNumber::PosInt(b) && a == b,
            JsonNumber::NegInt(a) => other matches JsonNumber::NegInt(b) && a == b,
            JsonNumber::Float(a) => other matches JsonNumber::Float(b) && (a == b || (
            float_bits_zero(a) && float_bits_zero(b))),
        }
    }

    pub fn equals(&self, other: &JsonNumber) -> (r: bool)
        ensures
            r == self.same(*other),
    {
        match (self, other) {
            (JsonNumber::PosInt(a), JsonNumber::PosInt(b)) => *a == *b,
            (JsonNumber::NegInt(a), JsonNumber::NegInt(b)) => *a == *b,
            (JsonNumber::Float(a), JsonNumber::Float(b)) => *a == *b || ((*a & MAGNITUDE_MASK) == 0
                && (*b & MAGNITUDE_MASK) == 0),
            _ => false,
        }
    }
}

impl PartialEq for JsonNumber {
    fn eq(&self, other: &JsonNumber) -> (r: bool) {
        self.equals(other)
    }
}

impl vstd::std_specs::cmp::PartialEqSpecImpl for JsonNumber {
    open spec fn obeys_eq_spec() -> bool {
        true
    }

    open spec fn eq_spec(&self, other: &JsonNumber) -> bool {
        self.same(*other)
    }
}

/// A JSON document or a node of one. An object is a sequence of key/value entries in their
/// written order.
#[derive(Debug)]
pub enum JsonValue {
    Null,
    Bool(bool),
    Number(JsonNumber),
    String(String),
    Array(Vec<JsonValue>),
    Object(Vec<(String, JsonValue)>),
}

/// The mathematical content of a JSON value.
pub enum JsonModel {
    Null,
    Bool(bool),
    Number(JsonNumber),
    Str(Seq<char>),
    Array(Seq<JsonModel>),
    Object(Seq<(Seq<char>, JsonModel)>),
}

/// The model of an array's elements.
pub open spec fn elements_model(v: Seq<JsonValue>) -> Seq<JsonModel>
    decreases v, 0int,
{
    Seq::new(
        v.len(),
        |i: int|
            if 0 <= i < v.len() {
                model_of(v[i])
            } else {
                JsonModel::Null
            },
    )
}

/// The model of an object's entries.
pub open spec fn entries_model(m: Seq<(String, JsonValue)>) -> Seq<(Seq<char>, JsonModel)>
    decreases m, 0int,
{
    Seq::new(
        m.len(),
        |i: int|
            if 0 <= i < m.len() {
                (m[i].0@, model_of(m[i].1))
            } else {
                (Seq::empty(), JsonModel::Null)
            },
    )
}

/// The model of a value.
pub open spec fn model_of(v: JsonValue) -> JsonModel
    decreases v, 1int,
{
    match v {
        JsonValue::Null => JsonModel::Null,
        JsonValue::Bool(b) => JsonModel::Bool(b),
        JsonValue::Number(n) => JsonModel::Number(n),
        JsonValue::String(s) => JsonModel::Str(s@),
        JsonValue::Array(x) => JsonModel::Array(elements_model(x@)),
        JsonValue::Object(m) => JsonModel::Object(entries_model(m@)),
    }
}

impl View for JsonValue {
    type V = JsonModel;

    open spec fn view(&self) -> JsonModel {
        model_of(*self)
    }
}

/// The position of the first entry of `m` whose key is `k`, or -1 where there is none.
#[verifier::opaque]
pub open spec fn key_index(m: Seq<(Seq<char>, JsonModel)>, k: Seq<char>) -> int {
    if exists|i: int| 0 <= i < m.len() && m[i].0 == k {
        choose|i: int|
            0 <= i < m.len() && m[i].0 == k && forall|j: int| 0 <= j < i ==> m[j].0 != k
    } else {
        -1
    }
}

/// Deep equality of JSON values: arrays element by element in order; objects by key regardless
/// of entry order, with the same set of keys and, under each key, values equal at the key's first
/// entry on both sides (as a lookup by key finds them).
pub open spec fn json_eq(a: JsonModel, b: JsonModel) -> bool
    decreases a,
{
    match a {
        JsonModel::Null => b is Null,
        JsonModel::Bool(x) => b matches JsonModel::Bool(y) && x == y,
        JsonModel::Number(x) => b matches JsonModel::Number(y) && x.same(y),
        JsonModel::Str(x) => b matches JsonModel::Str(y) && x == y,
        JsonModel::Array(x) => b matches JsonModel::Array(y) && x.len() == y.len() && forall|i: int|
            #![trigger x[i]]
            0 <= i < x.len() ==> json_eq(x[i], y[i]),
        JsonModel::Object(x) => match b {
            JsonModel::Object(y) => {
                &&& keys_in(y, x)
                &&& keys_in(x, y)
                &&& forall|i: int|
                    #![trigger x[i]]
                    0 <= i < x.len() && key_index(x, x[i].0) == i ==> json_eq(
                        x[i].1,
                        y[key_index(y, x[i].0)].1,
                    )
            },
            _ => false,
        },
    }
}

/// Every key of `y` is a key of `x`.
pub open spec fn keys_in(x: Seq<(Seq<char>, JsonModel)>, y: Seq<(Seq<char>, JsonModel)>) -> bool {
    forall|j: int| #![trigger y[j]] 0 <= j < y.len() ==> key_index(x, y[j].0) >= 0
}

/// No two entries of `m` share a key.
pub open spec fn keys_unique(m: Seq<(Seq<char>, JsonModel)>) -> bool {
    forall|i: int, j: int| 0 <= i < j < m.len() ==> m[i].0 != m[j].0
}

/// A well-formed value: every object in it, at any depth, has unique keys, and every number is
/// well formed.
pub open spec fn json_wf(a: JsonModel) -> bool
    decreases a,
{
    match a {
        JsonModel::Array(x) => forall|i: int| #![trigger x[i]] 0 <= i < x.len() ==> json_wf(x[i]),
        JsonModel::Object(x) => keys_unique(x) && forall|i: int|
            #![trigger x[i]]
            0 <= i < x.len() ==> json_wf(x[i].1),
        JsonModel::Number(n) => n.wf(),
        _ => true,
    }
}

/// The key of a present entry is found at its position when keys are unique.
pub proof fn lemma_key_index_unique(m: Seq<(Seq<char>, JsonModel)>, i: int)
    requires
        keys_unique(m),
        0 <= i < m.len(),
    ensures
        key_index(m, m[i].0) == i,
{
    reveal(key_index);
    let k = m[i].0;
    assert(exists|x: int| 0 <= x < m.len() && m[x].0 == k);
    let c = key_index(m, k);
    if c != i {
        if c < i {
            assert(m[c].0 == k);
        } else {
            assert(m[i].0 == k);
        }
    }
}

/// Finds the first entry of `m` whose key is `k`.
pub fn find_key(m: &Vec<(String, JsonValue)>, k: &String) -> (r: Option<usize>)
    ensures
        match r {
            Some(i) => i < m.len() && m@[i as int].0@ == k@ && forall|j: int|
                0 <= j < i ==> m@[j].0@ != k@,
            None => forall|j: int| 0 <= j < m.len() ==> m@[j].0@ != k@,
        },
{
    let mut i: usize = 0;
    while i < m.len()
        invariant
            i <= m.len(),
            forall|j: int| 0 <= j < i ==> m@[j].0@ != k@,
        decreases m.len() - i,
    {
        if m[i].0 == *k {
            return Some(i);
        }
        i = i + 1;
    }
    None
}

/// Where no entry has key `k`, `key_index` says so.
pub proof fn lemma_key_index_absent(m: Seq<(Seq<char>, JsonModel)>, k: Seq<char>)
    requires
        forall|j: int| 0 <= j < m.len() ==> m[j].0 != k,
    ensures
        key_index(m, k) == -1,
{
    reveal(key_index);
}

/// The first entry with key `k` is at `i`, so that is where `key_index` finds it.
pub proof fn lemma_key_index_first(m: Seq<(Seq<char>, JsonModel)>, k: Seq<char>, i: int)
    requires
        0 <= i < m.len(),
        m[i].0 == k,
        forall|j: int| 0 <= j < i ==> m[j].0 != k,
    ensures
        key_index(m, k) == i,
{
    reveal(key_index);
    assert(exists|x: int| 0 <= x < m.len() && m[x].0 == k);
    let c = key_index(m, k);
    if c != i {
        if c < i {
            assert(m[c].0 == k);
        } else {
            assert(m[i].0 == k);
        }
    }
}

/// How the model of an array or object is read entry by entry.
pub proof fn lemma_view_entries(v: &JsonValue)
    ensures
        v matches JsonValue::Array(x) ==> (v@ matches JsonModel::Array(s) && s.len() == x.len()
            && forall|i: int| 0 <= i < x.len() ==> s[i] == #[trigger] x@[i]@),
        v matches JsonValue::Object(m) ==> (v@ matches JsonModel::Object(s) && s.len() == m.len()
            && forall|i: int|
            0 <= i < m.len() ==> s[i].0 == (#[trigger] m@[i]).0@ && s[i].1 == m@[i].1@),
{
}

/// Two objects differ where an entry of the first has no equal counterpart in the second.
proof fn lemma_entry_mismatch(
    x: Seq<(Seq<char>, JsonModel)>,
    y: Seq<(Seq<char>, JsonModel)>,
    i: int,
)
    requires
        0 <= i < x.len(),
        key_index(y, x[i].0) < 0 || (key_index(x, x[i].0) == i && !json_eq(
            x[i].1,
            y[key_index(y, x[i].0)].1,
        )),
    ensures
        !json_eq(JsonModel::Object(x), JsonModel::Object(y)),
{
}

/// Two objects differ where a key of the second is missing from the first.
proof fn lemma_key_missing(x: Seq<(Seq<char>, JsonModel)>, y: Seq<(Seq<char>, JsonModel)>, j: int)
    requires
        0 <= j < y.len(),
        key_index(x, y[j].0) < 0,
    ensures
        !json_eq(JsonModel::Object(x), JsonModel::Object(y)),
{
}

/// Finds the entry of an object whose key is `k`, as `key_index` places it.
pub fn object_find(m: &Vec<(String, JsonValue)>, k: &String) -> (r: Option<usize>)
    ensures
        match r {
            Some(i) => i < m.len() && i == key_index(entries_model(m@), k@),
            None => key_index(entries_model(m@), k@) == -1,
        },
{
    let r = find_key(m, k);
    proof {
        let em = entries_model(m@);
        match r {
            Some(i) => {
                assert forall|t: int| 0 <= t < i implies em[t].0 != k@ by {
                    assert(em[t].0 == m@[t].0@);
                }
                lemma_key_index_first(em, k@, i as int);
            },
            None => {
                assert forall|t: int| 0 <= t < em.len() implies em[t].0 != k@ by {
                    assert(em[t].0 == m@[t].0@);
                }
                lemma_key_index_absent(em, k@);
            },
        }
    }
    r
}

/// Element-by-element equality of two arrays.
#[verifier::loop_isolation(false)]
fn arrays_equal(x: &Vec<JsonValue>, y: &Vec<JsonValue>) -> (r: bool)
    ensures
        r == json_eq(JsonModel::Array(elements_model(x@)), JsonModel::Array(elements_model(y@))),
    decreases x, 0int,
{
    let ghost xs = elements_model(x@);
    let ghost ys = elements_model(y@);
    if x.len() != y.len() {
        return false;
    }
    let mut i: usize = 0;
    while i < x.len()
        invariant
            i <= x.len(),
            forall|k: int| 0 <= k < i ==> json_eq(xs[k], ys[k]),
        decreases x.len() - i,
    {
        proof {
            assert(decreases_to!(x => x@[i as int]));
        }
        if !x[i].equals(&y[i]) {
            assert(!json_eq(xs[i as int], ys[i as int]));
            return false;
        }
        i = i + 1;
    }
    true
}

/// Key-by-key equality of two objects.
#[verifier::loop_isolation(false)]
#[verifier::rlimit(60)]
fn objects_equal(x: &Vec<(String, JsonValue)>, y: &Vec<(String, JsonValue)>) -> (r: bool)
    ensures
        r == json_eq(JsonModel::Object(entries_model(x@)), JsonModel::Object(entries_model(y@))),
    decreases x, 0int,
{
    let ghost xm = entries_model(x@);
    let ghost ym = entries_model(y@);
    let mut i: usize = 0;
    while i < x.len()
        invariant
            i <= x.len(),
            forall|k: int|
                0 <= k < i ==> key_index(ym, xm[k].0) >= 0 && (key_index(xm, xm[k].0) == k
                    ==> json_eq(xm[k].1, ym[key_index(ym, xm[k].0)].1)),
        decreases x.len() - i,
    {
        let is_first = match object_find(x, &x[i].0) {
            Some(p) => p == i,
            None => false,
        };
        proof {
            assert(xm[i as int].0 == x@[i as int].0@);
            lemma_key_index_present(xm, xm[i as int].0, i as int);
            lemma_key_index_found(xm, xm[i as int].0);
        }
        if !is_first {
            proof {
                let p = key_index(xm, xm[i as int].0);
                assert(p < i);
                assert(xm[p].0 == xm[i as int].0);
            }
        } else {
            match find_key(y, &x[i].0) {
                None => {
                    proof {
                        assert forall|t: int| 0 <= t < ym.len() implies ym[t].0 != xm[i as int].0 by {
                            assert(ym[t].0 == y@[t].0@);
                        }
                        lemma_key_index_absent(ym, xm[i as int].0);
                        lemma_entry_mismatch(xm, ym, i as int);
                    }
                    return false;
                },
                Some(j) => {
                    proof {
                        assert forall|t: int| 0 <= t < j implies ym[t].0 != xm[i as int].0 by {
                            assert(ym[t].0 == y@[t].0@);
                        }
                        lemma_key_index_first(ym, xm[i as int].0, j as int);
                        assert(decreases_to!(x => x@[i as int].1));
                    }
                    if !x[i].1.equals(&y[j].1) {
                        proof {
                            lemma_entry_mismatch(xm, ym, i as int);
                        }
                        return false;
                    }
                },
            }
        }
        i = i + 1;
    }
    let mut j: usize = 0;
    while j < y.len()
        invariant
            j <= y.len(),
            forall|k: int|
                0 <= k < x.len() ==> key_index(ym, xm[k].0) >= 0 && (key_index(xm, xm[k].0) == k
                    ==> json_eq(xm[k].1, ym[key_index(ym, xm[k].0)].1)),
            forall|k: int| 0 <= k < j ==> key_index(xm, ym[k].0) >= 0,
        decreases y.len() - j,
    {
        match find_key(x, &y[j].0) {
            None => {
                proof {
                    assert forall|t: int| 0 <= t < xm.len() implies xm[t].0 != ym[j as int].0 by {
                        assert(xm[t].0 == x@[t].0@);
                    }
                    lemma_key_index_absent(xm, ym[j as int].0);
                    lemma_key_missing(xm, ym, j as int);
                }
                return false;
            },
            Some(t) => {
                proof {
                    assert forall|u: int| 0 <= u < t implies xm[u].0 != ym[j as int].0 by {
                        assert(xm[u].0 == x@[u].0@);
                    }
                    lemma_key_index_first(xm, ym[j as int].0, t as int);
                }
            },
        }
        j = j + 1;
    }
    assert(json_eq(JsonModel::Object(xm), JsonModel::Object(ym)));
    true
}

impl JsonValue {
    /// Deep equality, as `json_eq` states it.
    pub fn equals(&self, other: &JsonValue) -> (r: bool)
        ensures
            r == json_eq(self@, other@),
        decreases self, 1int,
    {
        match self {
            JsonValue::Null => matches!(other, JsonValue::Null),
            JsonValue::Bool(x) => match other {
                JsonValue::Bool(y) => *x == *y,
                _ => false,
            },
            JsonValue::Number(x) => match other {
                JsonValue::Number(y) => x.equals(y),
                _ => false,
            },
            JsonValue::String(x) => match other {
                JsonValue::String(y) => *x == *y,
                _ => false,
            },
            JsonValue::Array(x) => match other {
                JsonValue::Array(y) => arrays_equal(x, y),
                _ => false,
            },
            JsonValue::Object(x) => match other {
                JsonValue::Object(y) => objects_equal(x, y),
                _ => false,
            },
        }
    }
}

impl PartialEq for JsonValue {
    fn eq(&self, other: &JsonValue) -> (r: bool)
        ensures
            r == json_eq(self@, other@),
    {
        self.equals(other)
    }
}

impl vstd::std_specs::cmp::PartialEqSpecImpl for JsonValue {
    open spec fn obeys_eq_spec() -> bool {
        true
    }

    open spec fn eq_spec(&self, other: &JsonValue) -> bool {
        json_eq(self@, other@)
    }
}

impl Clone for JsonValue {
    #[verifier::loop_isolation(false)]
    fn clone(&self) -> (r: Self)
        ensures
            r@ == self@,
        decreases self,
    {
        proof {
            lemma_view_entries(self);
        }
        let r = match self {
            JsonValue::Null => JsonValue::Null,
            JsonValue::Bool(b) => JsonValue::Bool(*b),
            JsonValue::Number(n) => JsonValue::Number(*n),
            JsonValue::String(s) => JsonValue::String(s.clone()),
            JsonValue::Array(v) => {
                let mut out: Vec<JsonValue> = Vec::new();
                let mut i: usize = 0;
                while i < v.len()
                    invariant
                        i <= v.len(),
                        out.len() == i,
                        forall|k: int| 0 <= k < i ==> (#[trigger] out@[k])@ == v@[k]@,
                    decreases v.len() - i,
                {
                    out.push(v[i].clone());
                    i = i + 1;
                }
                JsonValue::Array(out)
            },
            JsonValue::Object(m) => {
                let mut out: Vec<(String, JsonValue)> = Vec::new();
                let mut i: usize = 0;
                while i < m.len()
                    invariant
                        i <= m.len(),
                        out.len() == i,
                        forall|k: int|
                            0 <= k < i ==> (#[trigger] out@[k]).0@ == m@[k].0@ && out@[k].1@
                                == m@[k].1@,
                    decreases m.len() - i,
                {
                    out.push((m[i].0.clone(), m[i].1.clone()));
                    i = i + 1;
                }
                JsonValue::Object(out)
            },
        };
        proof {
            lemma_view_entries(&r);
            if r is Array {
                assert(r@->Array_0 =~= self@->Array_0);
            }
            if r is Object {
                assert(r@->Object_0 =~= self@->Object_0);
            }
        }
        r
    }
}

/// Where `key_index` finds a key, the entry there holds it.
pub proof fn lemma_key_index_found(m: Seq<(Seq<char>, JsonModel)>, k: Seq<char>)
    ensures
        key_index(m, k) >= -1,
        key_index(m, k) >= 0 ==> key_index(m, k) < m.len() && m[key_index(m, k)].0 == k,
        forall|j: int| 0 <= j < key_index(m, k) ==> m[j].0 != k,
{
    reveal(key_index);
    if exists|i: int| 0 <= i < m.len() && m[i].0 == k {
        let w = choose|i: int| 0 <= i < m.len() && m[i].0 == k;
        lemma_first_key(m, k, w);
    }
}

/// A key that occurs has a first occurrence.
proof fn lemma_first_key(m: Seq<(Seq<char>, JsonModel)>, k: Seq<char>, w: int)
    requires
        0 <= w < m.len(),
        m[w].0 == k,
    ensures
        exists|f: int| 0 <= f < m.len() && m[f].0 == k && forall|j: int| 0 <= j < f ==> m[j].0 != k,
    decreases w,
{
    if exists|j: int| 0 <= j < w && m[j].0 == k {
        let j = choose|j: int| 0 <= j < w && m[j].0 == k;
        lemma_first_key(m, k, j);
    } else {
        assert(forall|j: int| 0 <= j < w ==> m[j].0 != k);
    }
}

/// Deep equality is reflexive.
pub proof fn lemma_json_eq_reflexive(a: JsonModel)
    ensures
        json_eq(a, a),
    decreases a,
{
    match a {
        JsonModel::Array(x) => {
            assert forall|i: int| 0 <= i < x.len() implies json_eq(x[i], x[i]) by {
                lemma_json_eq_reflexive(x[i]);
            }
        },
        JsonModel::Object(x) => {
            assert forall|i: int|
                0 <= i < x.len() && key_index(x, x[i].0) == i implies json_eq(
                x[i].1,
                x[key_index(x, x[i].0)].1,
            ) by {
                lemma_json_eq_reflexive(x[i].1);
            }
            assert forall|j: int| 0 <= j < x.len() implies key_index(x, x[j].0) >= 0 by {
                lemma_key_index_present(x, x[j].0, j);
            }
        },
        _ => {},
    }
}

/// Where `key_index` finds a key, that entry is the key's first, so looking its key up again
/// finds it there.
proof fn lemma_key_index_again(m: Seq<(Seq<char>, JsonModel)>, k: Seq<char>)
    requires
        key_index(m, k) >= 0,
    ensures
        0 <= key_index(m, k) < m.len(),
        m[key_index(m, k)].0 == k,
        key_index(m, m[key_index(m, k)].0) == key_index(m, k),
{
    lemma_key_index_found(m, k);
}

/// Deep equality is symmetric.
pub proof fn lemma_json_eq_symmetric(a: JsonModel, b: JsonModel)
    ensures
        json_eq(a, b) == json_eq(b, a),
    decreases a,
{
    match a {
        JsonModel::Array(x) => {
            if let JsonModel::Array(y) = b {
                if x.len() == y.len() {
                    assert forall|i: int| 0 <= i < x.len() implies json_eq(x[i], y[i]) == json_eq(
                        y[i],
                        x[i],
                    ) by {
                        lemma_json_eq_symmetric(x[i], y[i]);
                    }
                }
            }
        },
        JsonModel::Object(x) => {
            if let JsonModel::Object(y) = b {
                if keys_in(y, x) && keys_in(x, y) {
                    if json_eq(a, b) {
                        assert forall|j: int|
                            0 <= j < y.len() && key_index(y, y[j].0) == j implies json_eq(
                            y[j].1,
                            x[key_index(x, y[j].0)].1,
                        ) by {
                            let i = key_index(x, y[j].0);
                            lemma_key_index_again(x, y[j].0);
                            assert(json_eq(x[i].1, y[key_index(y, x[i].0)].1));
                            lemma_json_eq_symmetric(x[i].1, y[j].1);
                        }
                        assert(json_eq(b, a));
                    }
                    if json_eq(b, a) {
                        assert forall|i: int|
                            0 <= i < x.len() && key_index(x, x[i].0) == i implies json_eq(
                            x[i].1,
                            y[key_index(y, x[i].0)].1,
                        ) by {
                            let j = key_index(y, x[i].0);
                            lemma_key_index_again(y, x[i].0);
                            assert(json_eq(y[j].1, x[key_index(x, y[j].0)].1));
                            lemma_json_eq_symmetric(x[i].1, y[j].1);
                        }
                        assert(json_eq(a, b));
                    }
                }
            }
        },
        _ => {},
    }
}

/// A key that occurs is found.
pub proof fn lemma_key_index_present(m: Seq<(Seq<char>, JsonModel)>, k: Seq<char>, i: int)
    requires
        0 <= i < m.len(),
        m[i].0 == k,
    ensures
        key_index(m, k) >= 0,
{
    reveal(key_index);
    lemma_first_key(m, k, i);
}

} // verus!
