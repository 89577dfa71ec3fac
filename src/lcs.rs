use vstd::prelude::*;
use crate::json::{JsonValue, json_eq};

verus! {

/// Longest-common-subsequence alignment of two sequences. The table of prefix lengths is built
/// once; the alignment is read back from it.
#[derive(Debug)]
pub struct LcsTable<'a, T: 'a> {
    lengths: Vec<Vec<usize>>,
    a: &'a [T],
    b: &'a [T],
}

/// Items that an alignment can compare, with the equality it compares them by.
pub trait Item {
    spec fn same_item(&self, other: &Self) -> bool;

    fn equal(&self, other: &Self) -> (r: bool)
        ensures
            r == self.same_item(other),
    ;
}

impl Item for char {
    open spec fn same_item(&self, other: &char) -> bool {
        *self == *other
    }

    fn equal(&self, other: &char) -> (r: bool) {
        *self == *other
    }
}

impl Item for JsonValue {
    open spec fn same_item(&self, other: &JsonValue) -> bool {
        json_eq(self@, other@)
    }

    fn equal(&self, other: &JsonValue) -> (r: bool) {
        self.equals(other)
    }
}

/// One step of an alignment.
#[derive(Debug, PartialEq, Eq)]
pub enum DiffComponent<T> {
    Insertion(T),
    Unchanged(T, T),
    Deletion(T),
}

/// One step of an alignment, by position: an element of the second sequence inserted, one of
/// the first deleted, or a pair kept.
pub enum Edit {
    Insert(int),
    Delete(int),
    Keep(int, int),
}

/// The table entry for prefixes of lengths `i` and `j`: the length of their longest common
/// subsequence, built by the usual recurrence.
pub open spec fn lcs_len<T: Item>(a: Seq<T>, b: Seq<T>, i: nat, j: nat) -> nat
    decreases i + j,
{
    if i == 0 || j == 0 {
        0
    } else if a[i - 1].same_item(&b[j - 1]) {
        1 + lcs_len(a, b, (i - 1) as nat, (j - 1) as nat)
    } else {
        let up = lcs_len(a, b, (i - 1) as nat, j);
        let left = lcs_len(a, b, i, (j - 1) as nat);
        if up >= left {
            up
        } else {
            left
        }
    }
}

/// The alignment of the prefixes of lengths `i` and `j`, in left-to-right order, read back from
/// the table: a matching pair is kept; otherwise the step goes towards the larger neighbour, and
/// on a tie towards a deletion.
pub open spec fn lcs_script<T: Item>(a: Seq<T>, b: Seq<T>, i: nat, j: nat) -> Seq<Edit>
    decreases i + j,
{
    if i == 0 && j == 0 {
        Seq::empty()
    } else if i == 0 {
        lcs_script(a, b, i, (j - 1) as nat).push(Edit::Insert(j - 1))
    } else if j == 0 {
        lcs_script(a, b, (i - 1) as nat, j).push(Edit::Delete(i - 1))
    } else if a[i - 1].same_item(&b[j - 1]) {
        lcs_script(a, b, (i - 1) as nat, (j - 1) as nat).push(Edit::Keep(i - 1, j - 1))
    } else if lcs_len(a, b, i, (j - 1) as nat) > lcs_len(a, b, (i - 1) as nat, j) {
        lcs_script(a, b, i, (j - 1) as nat).push(Edit::Insert(j - 1))
    } else {
        lcs_script(a, b, (i - 1) as nat, j).push(Edit::Delete(i - 1))
    }
}

/// The component `c` is the step `e` over `a` and `b`, holding the elements it names.
pub open spec fn component_is<T>(c: DiffComponent<&T>, e: Edit, a: Seq<T>, b: Seq<T>) -> bool {
    match e {
        Edit::Insert(j) => c matches DiffComponent::Insertion(y) && *y == b[j],
        Edit::Delete(i) => c matches DiffComponent::Deletion(x) && *x == a[i],
        Edit::Keep(i, j) => c matches DiffComponent::Unchanged(x, y) && *x == a[i] && *y == b[j],
    }
}

/// The number of pairs an alignment keeps.
pub open spec fn kept(s: Seq<Edit>) -> nat
    decreases s.len(),
{
    if s.len() == 0 {
        0
    } else {
        kept(s.drop_last()) + if s.last() is Keep {
            1nat
        } else {
            0nat
        }
    }
}

/// A table entry never exceeds the length of either prefix.
pub proof fn lemma_lcs_len_bounded<T: Item>(a: Seq<T>, b: Seq<T>, i: nat, j: nat)
    ensures
        lcs_len(a, b, i, j) <= i,
        lcs_len(a, b, i, j) <= j,
    decreases i + j,
{
    if i > 0 && j > 0 {
        lemma_lcs_len_bounded(a, b, (i - 1) as nat, (j - 1) as nat);
        lemma_lcs_len_bounded(a, b, (i - 1) as nat, j);
        lemma_lcs_len_bounded(a, b, i, (j - 1) as nat);
    }
}

/// Every step of an alignment consumes an element of one side or both, so it has exactly
/// `i + j - kept` steps, never more than `i + j`, and its positions lie within the prefixes.
pub proof fn lemma_script_shape<T: Item>(a: Seq<T>, b: Seq<T>, i: nat, j: nat)
    ensures
        lcs_script(a, b, i, j).len() + kept(lcs_script(a, b, i, j)) == i + j,
        lcs_script(a, b, i, j).len() <= i + j,
        forall|k: int|
            0 <= k < lcs_script(a, b, i, j).len() ==> match #[trigger] lcs_script(a, b, i, j)[k] {
                Edit::Insert(y) => 0 <= y < j,
                Edit::Delete(x) => 0 <= x < i,
                Edit::Keep(x, y) => 0 <= x < i && 0 <= y < j,
            },
    decreases i + j,
{
    let s = lcs_script(a, b, i, j);
    if i == 0 && j == 0 {
    } else if i == 0 {
        lemma_script_shape(a, b, i, (j - 1) as nat);
        assert(s.drop_last() =~= lcs_script(a, b, i, (j - 1) as nat));
    } else if j == 0 {
        lemma_script_shape(a, b, (i - 1) as nat, j);
        assert(s.drop_last() =~= lcs_script(a, b, (i - 1) as nat, j));
    } else if a[i - 1].same_item(&b[j - 1]) {
        lemma_script_shape(a, b, (i - 1) as nat, (j - 1) as nat);
        assert(s.drop_last() =~= lcs_script(a, b, (i - 1) as nat, (j - 1) as nat));
    } else if lcs_len(a, b, i, (j - 1) as nat) > lcs_len(a, b, (i - 1) as nat, j) {
        lemma_script_shape(a, b, i, (j - 1) as nat);
        assert(s.drop_last() =~= lcs_script(a, b, i, (j - 1) as nat));
    } else {
        lemma_script_shape(a, b, (i - 1) as nat, j);
        assert(s.drop_last() =~= lcs_script(a, b, (i - 1) as nat, j));
    }
}

/// The positions of the first sequence that an alignment consumes, in order.
pub open spec fn lefts(s: Seq<Edit>) -> Seq<int>
    decreases s.len(),
{
    if s.len() == 0 {
        Seq::empty()
    } else {
        let p = lefts(s.drop_last());
        match s.last() {
            Edit::Delete(x) => p.push(x),
            Edit::Keep(x, _) => p.push(x),
            Edit::Insert(_) => p,
        }
    }
}

/// The positions of the second sequence that an alignment consumes, in order.
pub open spec fn rights(s: Seq<Edit>) -> Seq<int>
    decreases s.len(),
{
    if s.len() == 0 {
        Seq::empty()
    } else {
        let p = rights(s.drop_last());
        match s.last() {
            Edit::Insert(y) => p.push(y),
            Edit::Keep(_, y) => p.push(y),
            Edit::Delete(_) => p,
        }
    }
}

/// The alignment read back from the table is an alignment of the two prefixes: it consumes every
/// position of each, once and in order, it keeps only pairs of equal items, and it keeps as many
/// pairs as the table entry says.
pub proof fn lemma_script_is_alignment<T: Item>(a: Seq<T>, b: Seq<T>, i: nat, j: nat)
    ensures
        lefts(lcs_script(a, b, i, j)) =~= Seq::new(i, |k: int| k),
        rights(lcs_script(a, b, i, j)) =~= Seq::new(j, |k: int| k),
        kept(lcs_script(a, b, i, j)) == lcs_len(a, b, i, j),
        forall|k: int|
            0 <= k < lcs_script(a, b, i, j).len() ==> (#[trigger] lcs_script(a, b, i, j)[k] matches Edit::Keep(
                x,
                y,
            ) ==> a[x].same_item(&b[y])),
    decreases i + j,
{
    let s = lcs_script(a, b, i, j);
    if i == 0 && j == 0 {
    } else {
        let (pi, pj) = if i == 0 {
            (i, (j - 1) as nat)
        } else if j == 0 {
            ((i - 1) as nat, j)
        } else if a[i - 1].same_item(&b[j - 1]) {
            ((i - 1) as nat, (j - 1) as nat)
        } else if lcs_len(a, b, i, (j - 1) as nat) > lcs_len(a, b, (i - 1) as nat, j) {
            (i, (j - 1) as nat)
        } else {
            ((i - 1) as nat, j)
        };
        lemma_script_is_alignment(a, b, pi, pj);
        assert(s.drop_last() =~= lcs_script(a, b, pi, pj));
    }
}

impl<'a, T: Item> LcsTable<'a, T> {
    /// The table holds, for every pair of prefix lengths, the entry `lcs_len` gives.
    pub closed spec fn wf(&self) -> bool {
        &&& self.lengths@.len() == self.a@.len() + 1
        &&& forall|i: int|
            0 <= i <= self.a@.len() ==> (#[trigger] self.lengths@[i])@.len() == self.b@.len() + 1
        &&& forall|i: int, j: int|
            0 <= i <= self.a@.len() && 0 <= j <= self.b@.len() ==> #[trigger] self.lengths@[i]@[j]
                == lcs_len(self.a@, self.b@, i as nat, j as nat)
    }

    pub closed spec fn first(&self) -> Seq<T> {
        self.a@
    }

    pub closed spec fn second(&self) -> Seq<T> {
        self.b@
    }

    /// Constructs a LcsTable for matching between two sequences `a` and `b`.
    pub fn new(a: &'a [T], b: &'a [T]) -> (r: LcsTable<'a, T>)
        ensures
            r.wf(),
            r.first() == a@,
            r.second() == b@,
    {
        let n = a.len();
        let m = b.len();
        let mut lengths: Vec<Vec<usize>> = Vec::new();
        let mut row0: Vec<usize> = Vec::new();
        row0.push(0);
        let mut j: usize = 0;
        while j < m
            invariant
                j <= m,
                m == b@.len(),
                row0@.len() == j + 1,
                forall|c: int| 0 <= c <= j ==> row0@[c] == 0,
            decreases m - j,
        {
            row0.push(0);
            j = j + 1;
        }
        lengths.push(row0);
        let mut i: usize = 0;
        while i < n
            invariant
                i <= n,
                n == a@.len(),
                m == b@.len(),
                lengths@.len() == i + 1,
                forall|r: int| 0 <= r <= i ==> (#[trigger] lengths@[r])@.len() == m + 1,
                forall|r: int, c: int|
                    0 <= r <= i && 0 <= c <= m ==> #[trigger] lengths@[r]@[c] == lcs_len(
                        a@,
                        b@,
                        r as nat,
                        c as nat,
                    ),
            decreases n - i,
        {
            let mut cur: Vec<usize> = Vec::new();
            cur.push(0);
            let mut j: usize = 0;
            while j < m
                invariant
                    i < n,
                    j <= m,
                    n == a@.len(),
                    m == b@.len(),
                        lengths@.len() == i + 1,
                    forall|r: int| 0 <= r <= i ==> (#[trigger] lengths@[r])@.len() == m + 1,
                    forall|r: int, c: int|
                        0 <= r <= i && 0 <= c <= m ==> #[trigger] lengths@[r]@[c] == lcs_len(
                            a@,
                            b@,
                            r as nat,
                            c as nat,
                        ),
                    cur@.len() == j + 1,
                    forall|c: int|
                        0 <= c <= j ==> cur@[c] == lcs_len(a@, b@, (i + 1) as nat, c as nat),
                decreases m - j,
            {
                let prev = &lengths[i];
                let v = if a[i].equal(&b[j]) {
                    proof {
                        lemma_lcs_len_bounded(a@, b@, i as nat, j as nat);
                    }
                    1 + prev[j]
                } else {
                    let up = prev[j + 1];
                    let left = cur[j];
                    if up >= left {
                        up
                    } else {
                        left
                    }
                };
                cur.push(v);
                j = j + 1;
            }
            lengths.push(cur);
            i = i + 1;
        }
        LcsTable { lengths, a, b }
    }

    /// The table of prefix lengths, one row per prefix of the first sequence.
    pub fn lengths(&self) -> (r: &Vec<Vec<usize>>)
        ensures
            self.wf() ==> r@.len() == self.first().len() + 1 && forall|i: int, j: int|
                0 <= i <= self.first().len() && 0 <= j <= self.second().len() ==> r@[i]@.len()
                    == self.second().len() + 1 && #[trigger] r@[i]@[j] == lcs_len(self.first(), self.second(), i as nat, j as nat),
    {
        &self.lengths
    }

    /// The alignment of the two whole sequences.
    pub fn diff(&self) -> (r: Vec<DiffComponent<&'a T>>)
        requires
            self.wf(),
        ensures
            r@.len() == lcs_script(self.first(), self.second(), self.first().len(), self.second().len()).len(),
            forall|k: int|
                0 <= k < r@.len() ==> component_is(
                    #[trigger] r@[k],
                    lcs_script(self.first(), self.second(), self.first().len(), self.second().len())[k],
                    self.first(),
                    self.second(),
                ),
    {
        self.compute_diff(self.a.len(), self.b.len())
    }

    fn compute_diff(&self, i: usize, j: usize) -> (r: Vec<DiffComponent<&'a T>>)
        requires
            self.wf(),
            i <= self.a@.len(),
            j <= self.b@.len(),
        ensures
            r@.len() == lcs_script(self.a@, self.b@, i as nat, j as nat).len(),
            forall|k: int|
                0 <= k < r@.len() ==> component_is(
                    #[trigger] r@[k],
                    lcs_script(self.a@, self.b@, i as nat, j as nat)[k],
                    self.a@,
                    self.b@,
                ),
        decreases i + j,
    {
        if i == 0 && j == 0 {
            return Vec::new();
        }
        let ghost s = lcs_script(self.a@, self.b@, i as nat, j as nat);
        let mut rest_diff;
        if i == 0 {
            rest_diff = self.compute_diff(i, j - 1);
            rest_diff.push(DiffComponent::Insertion(&self.b[j - 1]));
        } else if j == 0 {
            rest_diff = self.compute_diff(i - 1, j);
            rest_diff.push(DiffComponent::Deletion(&self.a[i - 1]));
        } else if self.a[i - 1].equal(&self.b[j - 1]) {
            rest_diff = self.compute_diff(i - 1, j - 1);
            rest_diff.push(DiffComponent::Unchanged(&self.a[i - 1], &self.b[j - 1]));
        } else if self.lengths[i][j - 1] > self.lengths[i - 1][j] {
            rest_diff = self.compute_diff(i, j - 1);
            rest_diff.push(DiffComponent::Insertion(&self.b[j - 1]));
        } else {
            rest_diff = self.compute_diff(i - 1, j);
            rest_diff.push(DiffComponent::Deletion(&self.a[i - 1]));
        }
        rest_diff
    }
}

} // verus!
