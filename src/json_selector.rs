use vstd::prelude::*;
use vstd::string::StrSliceExecFns;
use crate::json::{
    JsonModel, JsonValue, elements_model, entries_model, json_wf, key_index, keys_unique,
    lemma_key_index_first,
    lemma_key_index_found, object_find,
};

verus! {

/// One segment of a pointer.
#[derive(Debug, PartialEq)]
pub enum Selector {
    ArrayIndex(usize),
    LastElementInArray,
    Key(String),
}

/// A parsed pointer: the whole document, or a path of segments from its root.
#[derive(Debug, PartialEq)]
pub enum JsonSelector {
    FullDocument,
    JsonSelector(Vec<Selector>),
}

/// The content of a segment.
pub enum Segment {
    Index(int),
    Last,
    Key(Seq<char>),
}

/// The content of a parsed pointer.
pub enum PointerModel {
    Whole,
    Path(Seq<Segment>),
}

impl View for Selector {
    type V = Segment;

    open spec fn view(&self) -> Segment {
        match self {
            Selector::ArrayIndex(i) => Segment::Index(*i as int),
            Selector::LastElementInArray => Segment::Last,
            Selector::Key(k) => Segment::Key(k@),
        }
    }
}

pub open spec fn path_model(s: Seq<Selector>) -> Seq<Segment> {
    s.map_values(|x: Selector| x@)
}

impl View for JsonSelector {
    type V = PointerModel;

    open spec fn view(&self) -> PointerModel {
        match self {
            JsonSelector::FullDocument => PointerModel::Whole,
            JsonSelector::JsonSelector(v) => PointerModel::Path(path_model(v@)),
        }
    }
}

/// The text between slashes, in order: a text without slashes is one piece, and each slash
/// starts a new piece.
pub open spec fn split_slashes(s: Seq<char>) -> Seq<Seq<char>>
    decreases s.len(),
{
    if s.len() == 0 {
        seq![Seq::empty()]
    } else {
        let prev = split_slashes(s.drop_last());
        if s.last() == '/' {
            prev.push(Seq::empty())
        } else {
            prev.update(prev.len() - 1, prev.last().push(s.last()))
        }
    }
}

/// A segment's text with `~1` read as `/` and `~0` as `~`, left to right in one pass.
pub open spec fn unescape(s: Seq<char>) -> Seq<char>
    decreases s.len(),
{
    if s.len() >= 2 && s[0] == '~' && s[1] == '1' {
        seq!['/'] + unescape(s.skip(2))
    } else if s.len() >= 2 && s[0] == '~' && s[1] == '0' {
        seq!['~'] + unescape(s.skip(2))
    } else if s.len() == 0 {
        Seq::empty()
    } else {
        seq![s[0]] + unescape(s.skip(1))
    }
}

pub open spec fn is_digit(c: char) -> bool {
    '0' <= c <= '9'
}

pub open spec fn all_digits(s: Seq<char>) -> bool {
    forall|i: int| 0 <= i < s.len() ==> is_digit(#[trigger] s[i])
}

/// The number that a string of decimal digits writes.
pub open spec fn digits_value(s: Seq<char>) -> nat
    decreases s.len(),
{
    if s.len() == 0 {
        0
    } else {
        digits_value(s.drop_last()) * 10 + ((s.last() as int) - ('0' as int)) as nat
    }
}

/// What a segment's text selects: `-` the last element, a number that fits in `usize` an
/// index, anything else a key.
pub open spec fn segment_spec(raw: Seq<char>) -> Segment {
    if raw == seq!['-'] {
        Segment::Last
    } else if raw.len() > 0 && all_digits(raw) && digits_value(raw) <= usize::MAX {
        Segment::Index(digits_value(raw) as int)
    } else {
        Segment::Key(unescape(raw))
    }
}

/// What a pointer's text selects: the empty text the whole document, a text starting with `/`
/// the path of its segments; any other text is no pointer.
pub open spec fn parse_spec(t: Seq<char>) -> Option<PointerModel> {
    if t.len() == 0 {
        Some(PointerModel::Whole)
    } else if t[0] != '/' {
        None
    } else {
        Some(
            PointerModel::Path(
                split_slashes(t.skip(1)).map_values(|raw: Seq<char>| segment_spec(raw)),
            ),
        )
    }
}

/// The node that `path` reaches from `doc`, if any.
pub open spec fn lookup_path(doc: JsonModel, path: Seq<Segment>) -> Option<JsonModel>
    decreases path.len(),
{
    if path.len() == 0 {
        Some(doc)
    } else {
        let rest = path.skip(1);
        match path[0] {
            Segment::Index(i) => match doc {
                JsonModel::Array(x) => if 0 <= i < x.len() {
                    lookup_path(x[i], rest)
                } else {
                    None
                },
                _ => None,
            },
            Segment::Last => match doc {
                JsonModel::Array(x) => if x.len() > 0 {
                    lookup_path(x.last(), rest)
                } else {
                    None
                },
                _ => None,
            },
            Segment::Key(k) => match doc {
                JsonModel::Object(m) => {
                    let p = key_index(m, k);
                    if p >= 0 {
                        lookup_path(m[p].1, rest)
                    } else {
                        None
                    }
                },
                _ => None,
            },
        }
    }
}

/// `doc` with the node that `path` reaches replaced by `v`; an index equal to an array's length
/// as the last segment appends; a path that cannot be followed leaves `doc` as it is.
pub open spec fn mutate_path(doc: JsonModel, path: Seq<Segment>, v: JsonModel) -> JsonModel
    decreases path.len(),
{
    if path.len() == 0 {
        v
    } else {
        let rest = path.skip(1);
        match path[0] {
            Segment::Index(i) => match doc {
                JsonModel::Array(x) => if i == x.len() && path.len() == 1 {
                    JsonModel::Array(x.push(v))
                } else if 0 <= i < x.len() {
                    JsonModel::Array(x.update(i, mutate_path(x[i], rest, v)))
                } else {
                    doc
                },
                _ => doc,
            },
            Segment::Last => match doc {
                JsonModel::Array(x) => if x.len() > 0 {
                    JsonModel::Array(x.update(x.len() - 1, mutate_path(x.last(), rest, v)))
                } else {
                    doc
                },
                _ => doc,
            },
            Segment::Key(k) => match doc {
                JsonModel::Object(m) => {
                    let p = key_index(m, k);
                    if p >= 0 {
                        JsonModel::Object(m.update(p, (m[p].0, mutate_path(m[p].1, rest, v))))
                    } else {
                        doc
                    }
                },
                _ => doc,
            },
        }
    }
}

/// The characters of the text, in order.
pub(crate) fn chars_of(s: &str) -> (r: Vec<char>)
    ensures
        r@ == s@,
{
    let n = s.unicode_len();
    let mut out: Vec<char> = Vec::new();
    let mut i: usize = 0;
    while i < n
        invariant
            i <= n,
            n == s@.len(),
            out@ == s@.take(i as int),
        decreases n - i,
    {
        out.push(s.get_char(i));
        proof {
            assert(out@ =~= s@.take(i + 1));
        }
        i = i + 1;
    }
    proof {
        assert(s@.take(n as int) =~= s@);
    }
    out
}

/// Relies on `String::push`: appends one character.
#[verifier::external_body]
pub(crate) fn push_char(s: &mut String, c: char)
    ensures
        final(s)@ == old(s)@.push(c),
{
    s.push(c)
}

/// What a pointer's text reaches in `doc`: nothing where the text is no pointer.
pub open spec fn pointer_lookup(doc: JsonModel, text: Seq<char>) -> Option<JsonModel> {
    match parse_spec(text) {
        Some(PointerModel::Whole) => Some(doc),
        Some(PointerModel::Path(p)) => lookup_path(doc, p),
        None => None,
    }
}

/// `doc` after `v` is written where a pointer's text points; text that is no pointer changes
/// nothing.
pub open spec fn pointer_mutate(doc: JsonModel, text: Seq<char>, v: JsonModel) -> JsonModel {
    match parse_spec(text) {
        Some(PointerModel::Whole) => v,
        Some(PointerModel::Path(p)) => mutate_path(doc, p, v),
        None => doc,
    }
}

proof fn lemma_digits_prefix(s: Seq<char>, k: int)
    requires
        all_digits(s),
        0 <= k <= s.len(),
    ensures
        digits_value(s.take(k)) <= digits_value(s),
    decreases s.len(),
{
    if k < s.len() {
        let d = s.drop_last();
        assert(all_digits(d)) by {
            assert forall|i: int| 0 <= i < d.len() implies is_digit(#[trigger] d[i]) by {
                assert(d[i] == s[i]);
            }
        }
        lemma_digits_prefix(d, k);
        assert(d.take(k) =~= s.take(k));
    } else {
        assert(s.take(k) =~= s);
    }
}

/// Reads `~1` as `/` and `~0` as `~` in a segment's text.
fn unescape_segment(raw: &Vec<char>) -> (r: String)
    ensures
        r@ == unescape(raw@),
{
    let mut out = String::new();
    let mut k: usize = 0;
    proof {
        assert(raw@.skip(0) =~= raw@);
        assert(out@ + unescape(raw@) =~= unescape(raw@));
    }
    while k < raw.len()
        invariant
            k <= raw.len(),
            out@ + unescape(raw@.skip(k as int)) == unescape(raw@),
        decreases raw.len() - k,
    {
        let ghost rest = raw@.skip(k as int);
        if raw[k] == '~' && k + 1 < raw.len() && (raw[k + 1] == '1' || raw[k + 1] == '0') {
            let c = if raw[k + 1] == '1' {
                '/'
            } else {
                '~'
            };
            let ghost before = out@;
            push_char(&mut out, c);
            proof {
                assert(rest.skip(2) =~= raw@.skip(k + 2));
                assert(unescape(rest) == seq![c] + unescape(rest.skip(2)));
                assert(out@ + unescape(raw@.skip(k + 2)) =~= before + unescape(rest));
            }
            k = k + 2;
        } else {
            let c = raw[k];
            let ghost before = out@;
            push_char(&mut out, c);
            proof {
                assert(rest.skip(1) =~= raw@.skip(k + 1));
                assert(unescape(rest) == seq![c] + unescape(rest.skip(1)));
                assert(out@ + unescape(raw@.skip(k + 1)) =~= before + unescape(rest));
            }
            k = k + 1;
        }
    }
    proof {
        assert(raw@.skip(k as int) =~= Seq::<char>::empty());
        assert(out@ + Seq::<char>::empty() =~= out@);
    }
    out
}

/// The index a segment's text writes, where it is a run of decimal digits whose value fits.
fn parse_usize(raw: &Vec<char>) -> (r: Option<usize>)
    ensures
        match r {
            Some(n) => raw@.len() > 0 && all_digits(raw@) && digits_value(raw@) == n,
            None => !(raw@.len() > 0 && all_digits(raw@) && digits_value(raw@) <= usize::MAX),
        },
{
    if raw.len() == 0 {
        return None;
    }
    let mut value: usize = 0;
    let mut k: usize = 0;
    while k < raw.len()
        invariant
            k <= raw.len(),
            value == digits_value(raw@.take(k as int)),
            all_digits(raw@.take(k as int)),
        decreases raw.len() - k,
    {
        let c = raw[k];
        if !('0' <= c && c <= '9') {
            proof {
                assert(!is_digit(raw@[k as int]));
            }
            return None;
        }
        let d: usize = ((c as u32) - ('0' as u32)) as usize;
        let ghost next = raw@.take(k + 1);
        proof {
            assert(next.drop_last() =~= raw@.take(k as int));
            assert(next.last() == c);
        }
        if value > (usize::MAX - d) / 10 {
            proof {
                assert(value * 10 + d > usize::MAX) by (nonlinear_arith)
                    requires
                        value > (usize::MAX - d) / 10,
                        d <= 9,
                ;
                if all_digits(raw@) {
                    lemma_digits_prefix(raw@, k + 1);
                }
            }
            return None;
        }
        proof {
            assert(value * 10 + d <= usize::MAX) by (nonlinear_arith)
                requires
                    value <= (usize::MAX - d) / 10,
                    d <= 9,
            ;
            assert(all_digits(next)) by {
                assert forall|i: int| 0 <= i < next.len() implies is_digit(#[trigger] next[i]) by {
                    if i < k {
                        assert(next[i] == raw@.take(k as int)[i]);
                    }
                }
            }
        }
        value = value * 10 + d;
        k = k + 1;
    }
    proof {
        assert(raw@.take(k as int) =~= raw@);
    }
    Some(value)
}

/// What a segment's text selects.
fn segment_of(raw: &Vec<char>) -> (r: Selector)
    ensures
        r@ == segment_spec(raw@),
{
    if raw.len() == 1 && raw[0] == '-' {
        proof {
            assert(raw@ =~= seq!['-']);
        }
        return Selector::LastElementInArray;
    }
    proof {
        if raw@.len() == 1 {
            assert(raw@[0] != seq!['-'][0]);
        }
        assert(raw@ != seq!['-']);
    }
    match parse_usize(raw) {
        Some(n) => Selector::ArrayIndex(n),
        None => Selector::Key(unescape_segment(raw)),
    }
}

/// Parses a pointer's text. The empty text is the whole document; a text that starts with `/`
/// is the path of the segments between slashes; any other text is no pointer.
pub fn parse(input: &str) -> (r: Option<JsonSelector>)
    ensures
        match r {
            Some(p) => parse_spec(input@) == Some(p@),
            None => parse_spec(input@) is None,
        },
{
    let t = chars_of(input);
    if t.len() == 0 {
        return Some(JsonSelector::FullDocument);
    }
    if t[0] != '/' {
        return None;
    }
    let mut sels: Vec<Selector> = Vec::new();
    let mut raw: Vec<char> = Vec::new();
    let mut k: usize = 1;
    while k < t.len()
        invariant
            1 <= k <= t.len(),
            sels@.len() + 1 == split_slashes(t@.subrange(1, k as int)).len(),
            forall|q: int|
                0 <= q < sels@.len() ==> (#[trigger] sels@[q])@ == segment_spec(
                    split_slashes(t@.subrange(1, k as int))[q],
                ),
            raw@ == split_slashes(t@.subrange(1, k as int)).last(),
        decreases t.len() - k,
    {
        let ghost prev = split_slashes(t@.subrange(1, k as int));
        proof {
            assert(t@.subrange(1, k + 1).drop_last() =~= t@.subrange(1, k as int));
        }
        if t[k] == '/' {
            let sel = segment_of(&raw);
            sels.push(sel);
            raw = Vec::new();
            proof {
                assert(raw@ =~= Seq::<char>::empty());
            }
        } else {
            raw.push(t[k]);
        }
        k = k + 1;
    }
    let sel = segment_of(&raw);
    sels.push(sel);
    let r = JsonSelector::JsonSelector(sels);
    proof {
        assert(t@.subrange(1, k as int) =~= t@.skip(1));
        let pieces = split_slashes(t@.skip(1));
        assert(path_model(sels@) =~= pieces.map_values(|raw: Seq<char>| segment_spec(raw)));
    }
    Some(r)
}

/// Follows the segments of `selectors` from position `k` on.
pub(crate) fn value_at_selector<'a>(document: &'a JsonValue, selectors: &Vec<Selector>, k: usize) -> (r:
    Option<&'a JsonValue>)
    requires
        k <= selectors@.len(),
    ensures
        match r {
            Some(v) => lookup_path(document@, path_model(selectors@).skip(k as int)) == Some(v@),
            None => lookup_path(document@, path_model(selectors@).skip(k as int)) is None,
        },
    decreases selectors@.len() - k,
{
    let ghost path = path_model(selectors@).skip(k as int);
    if k == selectors.len() {
        assert(path.len() == 0);
        return Some(document);
    }
    proof {
        assert(path[0] == selectors@[k as int]@);
        assert(path.skip(1) =~= path_model(selectors@).skip(k + 1));
    }
    match document {
        JsonValue::Array(x) => match &selectors[k] {
            Selector::ArrayIndex(idx) => {
                if *idx < x.len() {
                    proof {
                        assert(elements_model(x@)[*idx as int] == x@[*idx as int]@);
                    }
                    value_at_selector(&x[*idx], selectors, k + 1)
                } else {
                    None
                }
            },
            Selector::LastElementInArray => {
                if x.len() > 0 {
                    proof {
                        assert(elements_model(x@).last() == x@[x.len() - 1]@);
                    }
                    value_at_selector(&x[x.len() - 1], selectors, k + 1)
                } else {
                    None
                }
            },
            Selector::Key(_) => None,
        },
        JsonValue::Object(m) => match &selectors[k] {
            Selector::Key(key) => match object_find(m, key) {
                Some(p) => {
                    proof {
                        assert(entries_model(m@)[p as int].1 == m@[p as int].1@);
                    }
                    value_at_selector(&m[p].1, selectors, k + 1)
                },
                None => None,
            },
            _ => None,
        },
        _ => None,
    }
}

/// The node that a pointer's text reaches in `document`, copied out.
pub fn value_at(document: &JsonValue, selector: &str) -> (r: Result<JsonValue, String>)
    ensures
        match r {
            Ok(v) => pointer_lookup(document@, selector@) == Some(v@),
            Err(_) => pointer_lookup(document@, selector@) is None,
        },
{
    match parse(selector) {
        None => Err("Not a pointer".to_string()),
        Some(JsonSelector::FullDocument) => Ok(document.clone()),
        Some(JsonSelector::JsonSelector(values)) => {
            proof {
                assert(path_model(values@).skip(0) =~= path_model(values@));
            }
            match value_at_selector(document, &values, 0) {
                Some(v) => Ok(v.clone()),
                None => Err("Unable to find".to_string()),
            }
        },
    }
}

/// `document` with the node that the segments of `selectors` from position `k` on reach
/// replaced by `new_value`.
#[verifier::rlimit(40)]
pub(crate) fn mutate_at_selector(document: JsonValue, selectors: &Vec<Selector>, k: usize, new_value: JsonValue) -> (r:
    JsonValue)
    requires
        k <= selectors@.len(),
    ensures
        r@ == mutate_path(document@, path_model(selectors@).skip(k as int), new_value@),
    decreases selectors@.len() - k,
{
    let ghost path = path_model(selectors@).skip(k as int);
    let ghost before = document@;
    if k == selectors.len() {
        assert(path.len() == 0);
        return new_value;
    }
    proof {
        assert(path[0] == selectors@[k as int]@);
        assert(path.skip(1) =~= path_model(selectors@).skip(k + 1));
    }
    match document {
        JsonValue::Array(mut x) => {
            let ghost xs = x@;
            match &selectors[k] {
                Selector::ArrayIndex(idx) => {
                    let idx = *idx;
                    if idx == x.len() && k + 1 == selectors.len() {
                        x.push(new_value);
                        proof {
                            assert(elements_model(x@) =~= elements_model(xs).push(new_value@));
                        }
                        JsonValue::Array(x)
                    } else if idx < x.len() {
                        let e = x.remove(idx);
                        let ne = mutate_at_selector(e, selectors, k + 1, new_value);
                        x.insert(idx, ne);
                        proof {
                            assert(x@ =~= xs.update(idx as int, ne));
                            assert(elements_model(xs)[idx as int] == xs[idx as int]@);
                            assert(elements_model(x@) =~= elements_model(xs).update(
                                idx as int,
                                ne@,
                            ));
                        }
                        JsonValue::Array(x)
                    } else {
                        JsonValue::Array(x)
                    }
                },
                Selector::LastElementInArray => {
                    if x.len() > 0 {
                        let e = x.pop().unwrap();
                        let ne = mutate_at_selector(e, selectors, k + 1, new_value);
                        x.push(ne);
                        proof {
                            assert(x@ =~= xs.update(xs.len() - 1, ne));
                            assert(elements_model(xs).last() == xs.last()@);
                            assert(elements_model(x@) =~= elements_model(xs).update(
                                xs.len() - 1,
                                ne@,
                            ));
                        }
                        JsonValue::Array(x)
                    } else {
                        JsonValue::Array(x)
                    }
                },
                Selector::Key(_) => JsonValue::Array(x),
            }
        },
        JsonValue::Object(mut m) => {
            let ghost ms = m@;
            match &selectors[k] {
                Selector::Key(key) => match object_find(&m, key) {
                    Some(p) => {
                        let (kk, e) = m.remove(p);
                        let ne = mutate_at_selector(e, selectors, k + 1, new_value);
                        m.insert(p, (kk, ne));
                        proof {
                            assert(m@ =~= ms.update(p as int, (kk, ne)));
                            assert(entries_model(ms)[p as int] == (ms[p as int].0@, ms[p as int].1@));
                            assert(entries_model(m@) =~= entries_model(ms).update(
                                p as int,
                                (entries_model(ms)[p as int].0, ne@),
                            ));
                        }
                        JsonValue::Object(m)
                    },
                    None => JsonValue::Object(m),
                },
                _ => JsonValue::Object(m),
            }
        },
        other => other,
    }
}

/// Writes `new_value` where a pointer's text points in `document`. An index equal to an array's
/// length as the last segment appends; a path that cannot be followed, or text that is no
/// pointer, leaves the document as it is.
pub fn mutate_at(document: &mut JsonValue, selector: &str, new_value: JsonValue)
    ensures
        final(document)@ == pointer_mutate(old(document)@, selector@, new_value@),
{
    match parse(selector) {
        None => {},
        Some(JsonSelector::FullDocument) => {
            *document = new_value;
        },
        Some(JsonSelector::JsonSelector(values)) => {
            let mut doc = JsonValue::Null;
            std::mem::swap(document, &mut doc);
            proof {
                assert(path_model(values@).skip(0) =~= path_model(values@));
            }
            *document = mutate_at_selector(doc, &values, 0, new_value);
        },
    }
}

proof fn lemma_lookup_after_mutate(doc: JsonModel, p: Seq<Segment>, v: JsonModel)
    requires
        lookup_path(doc, p) is Some,
    ensures
        lookup_path(mutate_path(doc, p, v), p) == Some(v),
    decreases p.len(),
{
    if p.len() > 0 {
        let rest = p.skip(1);
        lemma_lookup_after_mutate(
            match p[0] {
                Segment::Index(i) => doc->Array_0[i],
                Segment::Last => doc->Array_0.last(),
                Segment::Key(k) => doc->Object_0[key_index(doc->Object_0, k)].1,
            },
            rest,
            v,
        );
        if let Segment::Key(k) = p[0] {
            let m = doc->Object_0;
            let i = key_index(m, k);
            lemma_key_index_found(m, k);
            let m2 = m.update(i, (m[i].0, mutate_path(m[i].1, rest, v)));
            lemma_key_index_first(m2, k, i);
        }
    }
}

/// Where a pointer reaches a node, writing `v` there and reading it back gives `v`.
pub proof fn law_pointer_round_trip(doc: JsonModel, text: Seq<char>, v: JsonModel)
    requires
        pointer_lookup(doc, text) is Some,
    ensures
        pointer_lookup(pointer_mutate(doc, text, v), text) == Some(v),
{
    if let Some(PointerModel::Path(p)) = parse_spec(text) {
        lemma_lookup_after_mutate(doc, p, v);
    }
}

/// A node reached in a well-formed document is well formed.
pub proof fn lemma_lookup_wf(doc: JsonModel, p: Seq<Segment>)
    requires
        json_wf(doc),
        lookup_path(doc, p) is Some,
    ensures
        json_wf(lookup_path(doc, p)->Some_0),
    decreases p.len(),
{
    if p.len() > 0 {
        let rest = p.skip(1);
        match p[0] {
            Segment::Index(i) => {
                let x = doc->Array_0;
                assert(json_wf(x[i]));
                lemma_lookup_wf(x[i], rest);
            },
            Segment::Last => {
                let x = doc->Array_0;
                assert(json_wf(x[x.len() - 1]));
                lemma_lookup_wf(x.last(), rest);
            },
            Segment::Key(k) => {
                let m = doc->Object_0;
                lemma_key_index_found(m, k);
                let q = key_index(m, k);
                assert(json_wf(m[q].1));
                lemma_lookup_wf(m[q].1, rest);
            },
        }
    }
}

/// Writing a well-formed value into a well-formed document keeps it well formed.
pub proof fn lemma_mutate_wf(doc: JsonModel, p: Seq<Segment>, v: JsonModel)
    requires
        json_wf(doc),
        json_wf(v),
    ensures
        json_wf(mutate_path(doc, p, v)),
    decreases p.len(),
{
    if p.len() > 0 {
        let rest = p.skip(1);
        let r = mutate_path(doc, p, v);
        match p[0] {
            Segment::Index(i) => {
                if let JsonModel::Array(x) = doc {
                    if i == x.len() && p.len() == 1 {
                        let y = x.push(v);
                        assert forall|q: int| 0 <= q < y.len() implies json_wf(#[trigger] y[q]) by {
                            if q < x.len() {
                                assert(json_wf(x[q]));
                            }
                        }
                    } else if 0 <= i < x.len() {
                        assert(json_wf(x[i]));
                        lemma_mutate_wf(x[i], rest, v);
                        let y = x.update(i, mutate_path(x[i], rest, v));
                        assert forall|q: int| 0 <= q < y.len() implies json_wf(#[trigger] y[q]) by {
                            if q != i {
                                assert(json_wf(x[q]));
                            }
                        }
                    }
                }
            },
            Segment::Last => {
                if let JsonModel::Array(x) = doc {
                    if x.len() > 0 {
                        let i = x.len() - 1;
                        assert(json_wf(x[i]));
                        lemma_mutate_wf(x[i], rest, v);
                        let y = x.update(i, mutate_path(x[i], rest, v));
                        assert forall|q: int| 0 <= q < y.len() implies json_wf(#[trigger] y[q]) by {
                            if q != i {
                                assert(json_wf(x[q]));
                            }
                        }
                    }
                }
            },
            Segment::Key(k) => {
                if let JsonModel::Object(m) = doc {
                    let q = key_index(m, k);
                    lemma_key_index_found(m, k);
                    if q >= 0 {
                        assert(json_wf(m[q].1));
                        lemma_mutate_wf(m[q].1, rest, v);
                        let y = m.update(q, (m[q].0, mutate_path(m[q].1, rest, v)));
                        assert(keys_unique(y)) by {
                            assert forall|a: int, b: int| 0 <= a < b < y.len() implies y[a].0
                                != y[b].0 by {
                                assert(y[a].0 == m[a].0 && y[b].0 == m[b].0);
                            }
                        }
                        assert forall|t: int| 0 <= t < y.len() implies json_wf(#[trigger] y[t].1) by {
                            if t != q {
                                assert(json_wf(m[t].1));
                            }
                        }
                    }
                }
            },
        }
    }
}

/// What a pointer reaches in a well-formed document is well formed.
pub proof fn lemma_pointer_lookup_wf(doc: JsonModel, text: Seq<char>)
    requires
        json_wf(doc),
        pointer_lookup(doc, text) is Some,
    ensures
        json_wf(pointer_lookup(doc, text)->Some_0),
{
    if let Some(PointerModel::Path(p)) = parse_spec(text) {
        lemma_lookup_wf(doc, p);
    }
}

/// Writing a well-formed value at a pointer keeps a well-formed document well formed: its
/// objects keep unique keys.
pub proof fn law_mutate_keeps_wf(doc: JsonModel, text: Seq<char>, v: JsonModel)
    requires
        json_wf(doc),
        json_wf(v),
    ensures
        json_wf(pointer_mutate(doc, text, v)),
{
    if let Some(PointerModel::Path(p)) = parse_spec(text) {
        lemma_mutate_wf(doc, p, v);
    }
}

} // verus!
