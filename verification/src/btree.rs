//! B-tree index from keys to row ids.

use vstd::prelude::*;
use crate::keys::{key_lt, key_le, key_less, key_equal, lemma_key_order};

verus! {

/// An index entry: a key and the row id stored under it.
pub type Entry = (Seq<char>, usize);

/// The entries are in non-decreasing key order.
pub open spec fn sorted(s: Seq<Entry>) -> bool {
    forall|i: int, j: int| #![trigger s[i], s[j]] 0 <= i < j < s.len() ==> key_le(s[i].0, s[j].0)
}

/// Some entry of `s` has key `k`.
pub open spec fn has_key(s: Seq<Entry>, k: Seq<char>) -> bool {
    exists|j: int| 0 <= j < s.len() && s[j].0 == k
}

/// The entries that a list of key and row id pairs holds.
pub open spec fn entries_of(pairs: Seq<(String, usize)>) -> Seq<Entry> {
    pairs.map_values(|p: (String, usize)| (p.0@, p.1))
}

/// `k` lies in the closed range from `start` to `end`.
pub open spec fn in_range(k: Seq<char>, start: Seq<char>, end: Seq<char>) -> bool {
    key_le(start, k) && key_le(k, end)
}

/// The row ids of the entries of `s` whose keys lie in the range, in order.
pub open spec fn range_values(s: Seq<Entry>, start: Seq<char>, end: Seq<char>) -> Seq<usize>
    decreases s.len(),
{
    if s.len() == 0 {
        Seq::empty()
    } else {
        range_values(s.drop_last(), start, end) + if in_range(s.last().0, start, end) {
            seq![s.last().1]
        } else {
            Seq::empty()
        }
    }
}

/// No entry of `s` lies in the range: there are no range values.
pub proof fn lemma_range_values_none(s: Seq<Entry>, start: Seq<char>, end: Seq<char>)
    requires
        forall|j: int| 0 <= j < s.len() ==> !in_range(#[trigger] s[j].0, start, end),
    ensures
        range_values(s, start, end) == Seq::<usize>::empty(),
    decreases s.len(),
{
    if s.len() > 0 {
        lemma_range_values_none(s.drop_last(), start, end);
        assert(range_values(s, start, end) =~= Seq::<usize>::empty());
    }
}

/// The range values are the row ids of the entries in the range: an id is
/// among them exactly when some entry in the range has it, and there are none
/// exactly when no entry lies in the range.
pub proof fn lemma_range_values_members(s: Seq<Entry>, start: Seq<char>, end: Seq<char>)
    ensures
        forall|v: usize| range_values(s, start, end).contains(v) <==>
            exists|j: int| 0 <= j < s.len() && in_range(#[trigger] s[j].0, start, end) && s[j].1 == v,
        range_values(s, start, end).len() == 0 <==> forall|j: int| 0 <= j < s.len() ==> !in_range(#[trigger] s[j].0, start, end),
    decreases s.len(),
{
    if s.len() > 0 {
        let t = s.drop_last();
        lemma_range_values_members(t, start, end);
        let r = range_values(s, start, end);
        let rt = range_values(t, start, end);
        assert forall|v: usize| r.contains(v) <==>
            exists|j: int| 0 <= j < s.len() && in_range(#[trigger] s[j].0, start, end) && s[j].1 == v by {
            if r.contains(v) {
                let i = choose|i: int| 0 <= i < r.len() && r[i] == v;
                let last = if in_range(s.last().0, start, end) { seq![s.last().1] } else { Seq::<usize>::empty() };
                assert(r == rt + last);
                if i < rt.len() {
                    assert(rt[i] == v);
                    assert(rt.contains(v));
                    let j = choose|j: int| 0 <= j < t.len() && in_range(#[trigger] t[j].0, start, end) && t[j].1 == v;
                    assert(s[j] == t[j]);
                } else {
                    assert(s[s.len() - 1] == s.last());
                    assert(last[i - rt.len()] == v);
                    assert(in_range(s[s.len() - 1].0, start, end) && s[s.len() - 1].1 == v);
                }
            }
            if exists|j: int| 0 <= j < s.len() && in_range(#[trigger] s[j].0, start, end) && s[j].1 == v {
                let j = choose|j: int| 0 <= j < s.len() && in_range(#[trigger] s[j].0, start, end) && s[j].1 == v;
                if j < t.len() {
                    assert(t[j] == s[j]);
                    assert(rt.contains(v));
                    let i = choose|i: int| 0 <= i < rt.len() && rt[i] == v;
                    assert(r[i] == v);
                } else {
                    assert(s.last() == s[j]);
                    assert(r[rt.len() as int] == v);
                }
            }
        }
        assert(s[s.len() - 1] == s.last());
        assert forall|j: int| 0 <= j < t.len() implies t[j] == s[j] by {}
    }
}

/// A range from `k` to `k` holds the row ids of the entries with key `k`: it
/// is empty exactly when no entry has that key, and holds every row id stored
/// under it.
pub proof fn lemma_point_range(s: Seq<Entry>, k: Seq<char>)
    ensures
        range_values(s, k, k).len() == 0 <==> !has_key(s, k),
        forall|v: usize| #[trigger] s.contains((k, v)) ==> range_values(s, k, k).contains(v),
{
    lemma_range_values_members(s, k, k);
    assert forall|j: int| 0 <= j < s.len() implies (in_range(#[trigger] s[j].0, k, k) <==> s[j].0 == k) by {
        lemma_key_order(s[j].0, k, k);
    }
    assert forall|v: usize| #[trigger] s.contains((k, v)) implies range_values(s, k, k).contains(v) by {
        let j = choose|j: int| 0 <= j < s.len() && s[j] == (k, v);
        assert(in_range(s[j].0, k, k));
    }
}

/// A range whose end sorts below its start holds nothing.
pub proof fn lemma_empty_range(s: Seq<Entry>, start: Seq<char>, end: Seq<char>)
    requires
        key_lt(end, start),
    ensures
        range_values(s, start, end) == Seq::<usize>::empty(),
{
    assert forall|j: int| 0 <= j < s.len() implies !in_range(#[trigger] s[j].0, start, end) by {
        lemma_key_order(start, s[j].0, end);
    }
    lemma_range_values_none(s, start, end);
}

/// Taking the range values of two parts is taking those of the whole.
pub proof fn lemma_range_values_add(a: Seq<Entry>, b: Seq<Entry>, start: Seq<char>, end: Seq<char>)
    ensures
        range_values(a + b, start, end) == range_values(a, start, end) + range_values(b, start, end),
    decreases b.len(),
{
    if b.len() == 0 {
        assert(a + b =~= a);
        assert(range_values(b, start, end) =~= Seq::<usize>::empty());
        assert(range_values(a, start, end) + range_values(b, start, end) =~= range_values(a, start, end));
    } else {
        lemma_range_values_add(a, b.drop_last(), start, end);
        assert((a + b).drop_last() =~= a + b.drop_last());
        assert((a + b).last() == b.last());
        assert(range_values(a + b, start, end) =~= range_values(a, start, end) + range_values(b, start, end));
    }
}

/// `new` is `old` with `e` inserted at position `p`: after every entry whose
/// key is at most `e`'s, equal keys included, and before every entry whose key
/// is higher. In a sorted `old`, `p` is the number of entries whose key sorts
/// at most as high as `e`'s.
pub open spec fn inserted_at_position(old: Seq<Entry>, new: Seq<Entry>, e: Entry, p: int) -> bool {
    &&& 0 <= p <= old.len()
    &&& new == old.insert(p, e)
    &&& forall|j: int| 0 <= j < p ==> key_le(#[trigger] old[j].0, e.0)
    &&& forall|j: int| p <= j < old.len() ==> key_lt(e.0, #[trigger] old[j].0)
}

/// `new` is `old` with `e` inserted after the entries with keys at most its
/// own and before those with higher keys.
pub open spec fn inserted(old: Seq<Entry>, new: Seq<Entry>, e: Entry) -> bool {
    exists|p: int| #[trigger] inserted_at_position(old, new, e, p)
}

/// The most keys a node of an index of order `order` holds: `order - 1`, one
/// fewer than its children; an index of order 2 lets a node hold two keys.
pub open spec fn max_keys(order: usize) -> nat {
    if order >= 3 { (order - 1) as nat } else { 2 }
}

#[derive(Debug)]
struct BTreeNode {
    keys: Vec<String>,
    values: Vec<usize>,
    children: Vec<Box<BTreeNode>>,
    is_leaf: bool,
}

/// A B-tree index mapping string keys to row ids.
#[derive(Debug)]
pub struct BTreeIndex {
    root: Option<Box<BTreeNode>>,
    order: usize,
}

impl BTreeNode {
    spec fn child_entries(self, i: int) -> Seq<Entry>
        decreases self, 0int, 0int,
    {
        if 0 <= i < self.children@.len() {
            self.children@[i].entries()
        } else {
            Seq::empty()
        }
    }

    /// The entries of the subtree in key order.
    spec fn entries(self) -> Seq<Entry>
        decreases self, 1int, 0int,
    {
        self.prefix(self.keys@.len() as int) + self.child_entries(self.keys@.len() as int)
    }

    /// Entries of the first `i` children and the first `i` keys.
    spec fn prefix(self, i: int) -> Seq<Entry>
        decreases self, 0int, i,
    {
        if i <= 0 {
            Seq::empty()
        } else {
            self.prefix(i - 1) + self.child_entries(i - 1) + seq![(self.keys@[i - 1]@, self.values@[i - 1])]
        }
    }

    /// Entries of key `i` onwards and of the children after it.
    spec fn tail(self, i: int) -> Seq<Entry>
        decreases self.keys@.len() - i,
    {
        if i < 0 || i >= self.keys@.len() {
            Seq::empty()
        } else {
            seq![(self.keys@[i]@, self.values@[i])] + self.child_entries(i + 1) + self.tail(i + 1)
        }
    }

    /// The row ids a range scan of the subtree reports, in the order it reports
    /// them: for each key, the scan of the child before it when the key sorts
    /// at least as high as `start`, then the key's row id when the key lies in
    /// the range; then the scan of the last child.
    spec fn scan(self, start: Seq<char>, end: Seq<char>) -> Seq<usize>
        decreases self, 1int, 0int,
    {
        self.scan_prefix(start, end, self.keys@.len() as int) + if !self.is_leaf && self.keys@.len() < self.children@.len() {
            self.children@[self.keys@.len() as int].scan(start, end)
        } else {
            Seq::empty()
        }
    }

    spec fn scan_prefix(self, start: Seq<char>, end: Seq<char>, i: int) -> Seq<usize>
        decreases self, 0int, i,
    {
        if i <= 0 {
            Seq::empty()
        } else {
            let k = self.keys@[i - 1]@;
            self.scan_prefix(start, end, i - 1) + (if !self.is_leaf && i - 1 < self.children@.len() && key_le(start, k) {
                self.children@[i - 1].scan(start, end)
            } else {
                Seq::empty()
            }) + (if in_range(k, start, end) {
                seq![self.values@[i - 1]]
            } else {
                Seq::empty()
            })
        }
    }

    spec fn height(self) -> nat
        decreases self,
    {
        if self.children@.len() > 0 {
            1 + self.children@[0].height()
        } else {
            0
        }
    }

    /// No node of the subtree holds more than `cap` keys.
    spec fn fits(self, cap: nat) -> bool
        decreases self,
    {
        &&& self.keys@.len() <= cap
        &&& forall|i: int| 0 <= i < self.children@.len() ==> (#[trigger] self.children@[i]).fits(cap)
    }

    /// `other` holds the same keys, row ids and layout as `self`, node for
    /// node.
    spec fn same(self, other: BTreeNode) -> bool
        decreases self,
    {
        &&& self.keys@.map_values(|k: String| k@) == other.keys@.map_values(|k: String| k@)
        &&& self.keys@.len() == other.keys@.len()
        &&& self.values@ == other.values@
        &&& self.is_leaf == other.is_leaf
        &&& self.children@.len() == other.children@.len()
        &&& forall|i: int| 0 <= i < self.children@.len() ==> (#[trigger] self.children@[i]).same(*other.children@[i])
    }

    /// Keys and values match up, a leaf has no children, an inner node has one
    /// child more than it has keys, and all children are well shaped and one
    /// level lower.
    spec fn shape(self) -> bool
        decreases self,
    {
        &&& self.keys@.len() == self.values@.len()
        &&& self.is_leaf ==> self.children@.len() == 0
        &&& !self.is_leaf ==> self.children@.len() == self.keys@.len() + 1
        &&& forall|i: int|
            0 <= i < self.children@.len() ==> (#[trigger] self.children@[i]).shape()
                && self.children@[i].height() + 1 == self.height()
    }

    proof fn lemma_decompose(self, i: int)
        requires
            0 <= i <= self.keys@.len(),
        ensures
            self.entries() =~= self.prefix(i) + self.child_entries(i) + self.tail(i),
        decreases self.keys@.len() - i,
    {
        if i < self.keys@.len() {
            self.lemma_decompose(i + 1);
            assert(self.prefix(i + 1) == self.prefix(i) + self.child_entries(i) + seq![(self.keys@[i]@, self.values@[i])]);
            assert(self.tail(i) == seq![(self.keys@[i]@, self.values@[i])] + self.child_entries(i + 1) + self.tail(i + 1));
        }
    }

    /// Nodes with the same keys, row ids and layout hold the same entries
    /// and are alike in shape, height and size.
    proof fn lemma_same(self, other: BTreeNode, cap: nat)
        requires
            self.same(other),
        ensures
            self.entries() == other.entries(),
            self.height() == other.height(),
            self.shape() == other.shape(),
            self.fits(cap) == other.fits(cap),
        decreases self,
    {
        assert forall|j: int| 0 <= j < self.children@.len() implies {
            &&& (#[trigger] self.children@[j]).entries() == other.children@[j].entries()
            &&& self.children@[j].height() == other.children@[j].height()
            &&& self.children@[j].shape() == other.children@[j].shape()
            &&& self.children@[j].fits(cap) == other.children@[j].fits(cap)
        } by {
            assert(self.children@[j].same(*other.children@[j]));
            self.children@[j].lemma_same(*other.children@[j], cap);
        }
        let n = self.keys@.len() as int;
        assert forall|j: int| 0 <= j < n implies (#[trigger] self.keys@[j])@ == other.keys@[j]@ by {
            assert(self.keys@.map_values(|k: String| k@)[j] == other.keys@.map_values(|k: String| k@)[j]);
        }
        assert forall|j: int| 0 <= j <= n implies #[trigger] self.child_entries(j) == other.child_entries(j) by {}
        self.lemma_prefix_agree(other, n);
        if self.shape() {
            assert forall|i: int| 0 <= i < other.children@.len() implies (#[trigger] other.children@[i]).shape()
                && other.children@[i].height() + 1 == other.height() by {
                assert(self.children@[i].shape() && self.children@[i].height() + 1 == self.height());
            }
        }
        if other.shape() {
            assert forall|i: int| 0 <= i < self.children@.len() implies (#[trigger] self.children@[i]).shape()
                && self.children@[i].height() + 1 == self.height() by {
                assert(other.children@[i].shape() && other.children@[i].height() + 1 == other.height());
            }
        }
        if self.fits(cap) {
            assert forall|i: int| 0 <= i < other.children@.len() implies (#[trigger] other.children@[i]).fits(cap) by {
                assert(self.children@[i].fits(cap));
            }
        }
        if other.fits(cap) {
            assert forall|i: int| 0 <= i < self.children@.len() implies (#[trigger] self.children@[i]).fits(cap) by {
                assert(other.children@[i].fits(cap));
            }
        }
    }

    proof fn lemma_prefix_agree(self, other: BTreeNode, i: int)
        requires
            0 <= i <= self.keys@.len(),
            i <= other.keys@.len(),
            forall|j: int| 0 <= j < i ==> (#[trigger] self.keys@[j])@ == other.keys@[j]@,
            forall|j: int| 0 <= j < i ==> #[trigger] self.values@[j] == other.values@[j],
            forall|j: int| 0 <= j < i ==> #[trigger] self.child_entries(j) == other.child_entries(j),
        ensures
            self.prefix(i) == other.prefix(i),
        decreases i,
    {
        if i > 0 {
            self.lemma_prefix_agree(other, i - 1);
            assert(self.child_entries(i - 1) == other.child_entries(i - 1));
            assert(self.keys@[i - 1]@ == other.keys@[i - 1]@);
            assert(self.values@[i - 1] == other.values@[i - 1]);
        }
    }

    proof fn lemma_tail_shift(self, other: BTreeNode, i: int, d: int)
        requires
            0 <= i <= self.keys@.len(),
            0 <= i - d,
            self.keys@.len() == other.keys@.len() + d,
            forall|j: int| i <= j < self.keys@.len() ==> (#[trigger] self.keys@[j])@ == other.keys@[j - d]@ && self.values@[j] == other.values@[j - d],
            forall|j: int| i < j <= self.keys@.len() ==> #[trigger] self.child_entries(j) == other.child_entries(j - d),
        ensures
            self.tail(i) == other.tail(i - d),
        decreases self.keys@.len() - i,
    {
        if i < self.keys@.len() {
            self.lemma_tail_shift(other, i + 1, d);
            assert(self.keys@[i]@ == other.keys@[i - d]@);
            assert(self.child_entries(i + 1) == other.child_entries(i + 1 - d));
        }
    }

    proof fn lemma_leaf_prefix(self, i: int)
        requires
            0 <= i <= self.keys@.len(),
            self.keys@.len() == self.values@.len(),
            self.children@.len() == 0,
        ensures
            self.prefix(i).len() == i,
            forall|j: int| 0 <= j < i ==> #[trigger] self.prefix(i)[j] == (self.keys@[j]@, self.values@[j]),
        decreases i,
    {
        if i > 0 {
            self.lemma_leaf_prefix(i - 1);
            assert(self.child_entries(i - 1) =~= Seq::<Entry>::empty());
            assert(self.prefix(i) == self.prefix(i - 1) + self.child_entries(i - 1) + seq![(self.keys@[i - 1]@, self.values@[i - 1])]);
        }
    }

    proof fn lemma_leaf_entries(self)
        requires
            self.keys@.len() == self.values@.len(),
            self.children@.len() == 0,
        ensures
            self.entries().len() == self.keys@.len(),
            forall|j: int| 0 <= j < self.keys@.len() ==> #[trigger] self.entries()[j] == (self.keys@[j]@, self.values@[j]),
    {
        self.lemma_leaf_prefix(self.keys@.len() as int);
        assert(self.entries() =~= self.prefix(self.keys@.len() as int));
    }

    /// In a node with sorted entries, the entries before child `i` have keys at
    /// most those of key `i - 1`, and those after it keys at least those of key `i`.
    proof fn lemma_sorted_parts(self, i: int)
        requires
            0 <= i <= self.keys@.len(),
            self.keys@.len() == self.values@.len(),
            sorted(self.entries()),
        ensures
            sorted(self.child_entries(i)),
            i > 0 ==> forall|j: int| 0 <= j < self.prefix(i).len() ==> key_le(#[trigger] self.prefix(i)[j].0, self.keys@[i - 1]@),
            i > 0 ==> forall|j: int| 0 <= j < self.child_entries(i).len() ==> key_le(self.keys@[i - 1]@, #[trigger] self.child_entries(i)[j].0),
            i < self.keys@.len() ==> forall|j: int| 0 <= j < self.tail(i).len() ==> key_le(self.keys@[i]@, #[trigger] self.tail(i)[j].0),
            i < self.keys@.len() ==> forall|j: int| 0 <= j < self.child_entries(i).len() ==> key_le(#[trigger] self.child_entries(i)[j].0, self.keys@[i]@),
    {
        self.lemma_decompose(i);
        let s = self.entries();
        let p = self.prefix(i);
        let c = self.child_entries(i);
        let t = self.tail(i);
        assert(s == p + c + t);
        assert forall|a: int, b: int| 0 <= a < b < c.len() implies key_le(c[a].0, c[b].0) by {
            assert(s[p.len() + a] == c[a]);
            assert(s[p.len() + b] == c[b]);
        }
        if i > 0 {
            assert(p[p.len() - 1] == (self.keys@[i - 1]@, self.values@[i - 1]));
            assert forall|j: int| 0 <= j < p.len() implies key_le(#[trigger] p[j].0, self.keys@[i - 1]@) by {
                assert(s[j] == p[j]);
                assert(s[p.len() - 1] == p[p.len() - 1]);
                if j < p.len() - 1 {
                } else {
                    lemma_key_order(p[j].0, p[j].0, p[j].0);
                }
            }
            assert forall|j: int| 0 <= j < c.len() implies key_le(self.keys@[i - 1]@, #[trigger] c[j].0) by {
                assert(s[p.len() + j] == c[j]);
                assert(s[p.len() - 1] == p[p.len() - 1]);
            }
        }
        if i < self.keys@.len() {
            assert(t[0] == (self.keys@[i]@, self.values@[i]));
            assert forall|j: int| 0 <= j < t.len() implies key_le(self.keys@[i]@, #[trigger] t[j].0) by {
                assert(s[p.len() + c.len() + j] == t[j]);
                assert(s[(p.len() + c.len()) as int] == t[0]);
                if j > 0 {
                } else {
                    lemma_key_order(t[j].0, t[j].0, t[j].0);
                }
            }
            assert forall|j: int| 0 <= j < c.len() implies key_le(#[trigger] c[j].0, self.keys@[i]@) by {
                assert(s[p.len() + j] == c[j]);
                assert(s[(p.len() + c.len()) as int] == t[0]);
            }
        }
    }

    /// Splitting a node at `mid` into the keys before `mid - 1` and the keys
    /// from `mid` on, with key `mid - 1` between them, keeps the entries.
    proof fn lemma_split_entries(f: BTreeNode, a: BTreeNode, b: BTreeNode, mid: int)
        requires
            f.shape(),
            1 <= mid <= f.keys@.len(),
            a.keys@ == f.keys@.subrange(0, mid - 1),
            a.values@ == f.values@.subrange(0, mid - 1),
            b.keys@ == f.keys@.subrange(mid, f.keys@.len() as int),
            b.values@ == f.values@.subrange(mid, f.values@.len() as int),
            f.is_leaf ==> a.children@.len() == 0 && b.children@.len() == 0,
            !f.is_leaf ==> a.children@ == f.children@.subrange(0, mid),
            !f.is_leaf ==> b.children@ == f.children@.subrange(mid, f.children@.len() as int),
        ensures
            f.entries() =~= a.entries() + seq![(f.keys@[mid - 1]@, f.values@[mid - 1])] + b.entries(),
    {
        let len = f.keys@.len() as int;
        f.lemma_decompose(mid - 1);
        assert forall|j: int| 0 <= j < mid implies #[trigger] a.child_entries(j) == f.child_entries(j) by {
            if !f.is_leaf {
                assert(a.children@[j] == f.children@[j]);
            }
        }
        assert forall|j: int| 0 <= j < mid - 1 implies (#[trigger] a.keys@[j])@ == f.keys@[j]@ by {}
        assert forall|j: int| 0 <= j < mid - 1 implies #[trigger] a.values@[j] == f.values@[j] by {}
        a.lemma_prefix_agree(f, mid - 1);
        assert(a.child_entries(mid - 1) == f.child_entries(mid - 1));
        assert(a.entries() == a.prefix(mid - 1) + a.child_entries(mid - 1));
        b.lemma_decompose(0);
        assert(b.prefix(0) =~= Seq::<Entry>::empty());
        assert forall|j: int| 0 <= j <= len - mid implies #[trigger] b.child_entries(j) == f.child_entries(j + mid) by {
            if !f.is_leaf {
                assert(b.children@[j] == f.children@[j + mid]);
            }
        }
        assert forall|j: int| 0 <= j < len - mid implies (#[trigger] b.keys@[j])@ == f.keys@[j - (-mid)]@ && b.values@[j] == f.values@[j - (-mid)] by {}
        assert forall|j: int| 0 < j <= len - mid implies #[trigger] b.child_entries(j) == f.child_entries(j - (-mid)) by {
            assert(b.child_entries(j) == f.child_entries(j + mid));
        }
        b.lemma_tail_shift(f, 0, -mid);
        assert(b.child_entries(0) == f.child_entries(mid));
        assert(f.tail(mid - 1) == seq![(f.keys@[mid - 1]@, f.values@[mid - 1])] + f.child_entries(mid) + f.tail(mid));
    }

    /// The two halves of a split node are well shaped and as high as the node.
    proof fn lemma_split_shape(f: BTreeNode, a: BTreeNode, mid: int, lo: int, hi: int)
        requires
            f.shape(),
            0 <= lo < hi <= f.keys@.len() + 1,
            a.keys@.len() == a.values@.len(),
            a.is_leaf == f.is_leaf,
            f.is_leaf ==> a.children@.len() == 0,
            !f.is_leaf ==> a.children@ == f.children@.subrange(lo, hi),
            !f.is_leaf ==> a.children@.len() == a.keys@.len() + 1,
        ensures
            a.shape(),
            a.height() == f.height(),
    {
        if !f.is_leaf {
            assert(a.children@[0] == f.children@[lo]);
            assert forall|i: int| 0 <= i < a.children@.len() implies (#[trigger] a.children@[i]).shape()
                && a.children@[i].height() + 1 == a.height() by {
                assert(a.children@[i] == f.children@[lo + i]);
            }
        }
    }

    /// Putting the two halves of child `i` and the key between them in place
    /// of the child keeps the entries and the shape.
    #[verifier::spinoff_prover]
    proof fn lemma_replace_by_halves(n: BTreeNode, m: BTreeNode, i: int, a: BTreeNode, b: BTreeNode, pk: String, pv: usize)
        requires
            n.shape(),
            !n.is_leaf,
            0 <= i < n.children@.len(),
            n.children@[i].entries() == a.entries() + seq![(pk@, pv)] + b.entries(),
            a.shape(),
            b.shape(),
            a.height() == n.children@[i].height(),
            b.height() == n.children@[i].height(),
            m.keys@ == n.keys@.insert(i, pk),
            m.values@ == n.values@.insert(i, pv),
            m.children@ == n.children@.update(i, Box::new(a)).insert(i + 1, Box::new(b)),
            m.is_leaf == n.is_leaf,
        ensures
            m.shape(),
            m.entries() == n.entries(),
            m.height() == n.height(),
    {
        let len = n.keys@.len() as int;
        n.keys@.insert_ensures(i, pk);
        n.values@.insert_ensures(i, pv);
        assert(m.children@[i] == Box::new(a));
        assert(m.children@[i + 1] == Box::new(b));
        assert forall|j: int| 0 <= j < i implies #[trigger] m.child_entries(j) == n.child_entries(j) by {
            assert(m.children@[j] == n.children@[j]);
        }
        assert forall|j: int| 0 <= j < i implies (#[trigger] m.keys@[j])@ == n.keys@[j]@ by {}
        assert forall|j: int| 0 <= j < i implies #[trigger] m.values@[j] == n.values@[j] by {}
        m.lemma_prefix_agree(n, i);
        assert forall|j: int| i + 1 <= j < m.keys@.len() implies (#[trigger] m.keys@[j])@ == n.keys@[j - 1]@ && m.values@[j] == n.values@[j - 1] by {}
        assert forall|j: int| i + 1 < j <= m.keys@.len() implies #[trigger] m.child_entries(j) == n.child_entries(j - 1) by {
            assert(m.children@[j] == n.children@[j - 1]);
        }
        m.lemma_tail_shift(n, i + 1, 1);
        n.lemma_decompose(i);
        m.lemma_decompose(i);
        assert(m.tail(i) == seq![(pk@, pv)] + m.child_entries(i + 1) + m.tail(i + 1));
        assert(m.child_entries(i) == a.entries());
        assert(m.child_entries(i + 1) == b.entries());
        assert(m.entries() =~= n.entries());
        if i > 0 {
            assert(m.children@[0] == n.children@[0]);
        }
        assert(m.height() == n.height());
        assert forall|j: int| 0 <= j < m.children@.len() implies (#[trigger] m.children@[j]).shape()
            && m.children@[j].height() + 1 == m.height() by {
            if j < i {
                assert(m.children@[j] == n.children@[j]);
            } else if j > i + 1 {
                assert(m.children@[j] == n.children@[j - 1]);
            }
        }
    }

    /// Putting `c` in place of child `i` puts its entries in place of the child's.
    proof fn lemma_replace_child(n: BTreeNode, m: BTreeNode, i: int, c: BTreeNode)
        requires
            n.shape(),
            0 <= i < n.children@.len(),
            c.shape(),
            c.height() == n.children@[i].height(),
            m.keys@ == n.keys@,
            m.values@ == n.values@,
            m.children@ == n.children@.update(i, Box::new(c)),
            m.is_leaf == n.is_leaf,
        ensures
            m.shape(),
            m.height() == n.height(),
            m.entries() == n.prefix(i) + c.entries() + n.tail(i),
    {
        assert forall|j: int| 0 <= j < m.keys@.len() + 1 && j != i implies #[trigger] m.child_entries(j) == n.child_entries(j) by {
            if j < m.children@.len() {
                assert(m.children@[j] == n.children@[j]);
            }
        }
        assert forall|j: int| 0 <= j < i implies (#[trigger] m.keys@[j])@ == n.keys@[j]@ by {}
        assert forall|j: int| 0 <= j < i implies #[trigger] m.values@[j] == n.values@[j] by {}
        m.lemma_prefix_agree(n, i);
        assert forall|j: int| i <= j < m.keys@.len() implies (#[trigger] m.keys@[j])@ == n.keys@[j - 0]@ && m.values@[j] == n.values@[j - 0] by {}
        assert forall|j: int| i < j <= m.keys@.len() implies #[trigger] m.child_entries(j) == n.child_entries(j - 0) by {
            assert(m.child_entries(j) == n.child_entries(j));
        }
        m.lemma_tail_shift(n, i, 0);
        m.lemma_decompose(i);
        assert(m.children@[i] == Box::new(c));
        assert(m.child_entries(i) == c.entries());
        if i > 0 {
            assert(m.children@[0] == n.children@[0]);
        }
        assert forall|j: int| 0 <= j < m.children@.len() implies (#[trigger] m.children@[j]).shape()
            && m.children@[j].height() + 1 == m.height() by {
            if j != i {
                assert(m.children@[j] == n.children@[j]);
            }
        }
    }

    /// Inserting into child `i`, where the key lies between keys `i - 1` and
    /// `i`, inserts into the node.
    proof fn lemma_insert_via_child(n: BTreeNode, m: BTreeNode, i: int, c: BTreeNode, e: Entry)
        requires
            n.shape(),
            sorted(n.entries()),
            0 <= i < n.children@.len(),
            i > 0 ==> key_le(n.keys@[i - 1]@, e.0),
            i < n.keys@.len() ==> key_lt(e.0, n.keys@[i]@),
            c.shape(),
            c.height() == n.children@[i].height(),
            inserted(n.child_entries(i), c.entries(), e),
            m.keys@ == n.keys@,
            m.values@ == n.values@,
            m.children@ == n.children@.update(i, Box::new(c)),
            m.is_leaf == n.is_leaf,
        ensures
            m.shape(),
            m.height() == n.height(),
            inserted(n.entries(), m.entries(), e),
    {
        BTreeNode::lemma_replace_child(n, m, i, c);
        n.lemma_decompose(i);
        n.lemma_sorted_parts(i);
        let p = n.prefix(i);
        let t = n.tail(i);
        assert forall|j: int| 0 <= j < p.len() implies key_le(#[trigger] p[j].0, e.0) by {
            lemma_key_order(p[j].0, n.keys@[i - 1]@, e.0);
        }
        assert forall|j: int| 0 <= j < t.len() implies key_lt(e.0, #[trigger] t[j].0) by {
            lemma_key_order(e.0, n.keys@[i]@, t[j].0);
        }
        lemma_inserted_in_middle(p, n.child_entries(i), t, c.entries(), e);
    }

    proof fn lemma_scan_prefix_is_range(self, start: Seq<char>, end: Seq<char>, i: int)
        requires
            self.shape(),
            sorted(self.entries()),
            0 <= i <= self.keys@.len(),
        ensures
            self.scan_prefix(start, end, i) == range_values(self.prefix(i), start, end),
        decreases self.height(), i,
    {
        if i > 0 {
            self.lemma_scan_prefix_is_range(start, end, i - 1);
            let k = self.keys@[i - 1]@;
            let c = self.child_entries(i - 1);
            let p = self.prefix(i - 1);
            lemma_range_values_add(p + c, seq![(k, self.values@[i - 1])], start, end);
            lemma_range_values_add(p, c, start, end);
            let single = seq![(k, self.values@[i - 1])];
            assert(range_values(single, start, end) =~= if in_range(k, start, end) { seq![self.values@[i - 1]] } else { Seq::empty() }) by {
                assert(single.drop_last() =~= Seq::<Entry>::empty());
                assert(range_values(single.drop_last(), start, end) =~= Seq::<usize>::empty());
                assert(single.last() == (k, self.values@[i - 1]));
            }
            self.lemma_decompose(i - 1);
            self.lemma_sorted_parts(i - 1);
            if !self.is_leaf && key_le(start, k) {
                let child = *self.children@[i - 1];
                assert(self.children@[i - 1].shape());
                assert(c == child.entries());
                child.lemma_scan_is_range(start, end);
            } else {
                // Every entry of the child sorts at most as high as `k`, which
                // sorts below `start`: none lies in the range.
                assert forall|j: int| 0 <= j < c.len() implies !in_range(#[trigger] c[j].0, start, end) by {
                    if !self.is_leaf {
                        lemma_key_order(c[j].0, k, start);
                    }
                }
                lemma_range_values_none(c, start, end);
                if self.is_leaf {
                    assert(self.children@.len() == 0);
                }
            }
        }
    }

    proof fn lemma_scan_is_range(self, start: Seq<char>, end: Seq<char>)
        requires
            self.shape(),
            sorted(self.entries()),
        ensures
            self.scan(start, end) == range_values(self.entries(), start, end),
        decreases self.height(), self.keys@.len() + 1,
    {
        let len = self.keys@.len() as int;
        self.lemma_scan_prefix_is_range(start, end, len);
        let c = self.child_entries(len);
        let p = self.prefix(len);
        lemma_range_values_add(p, c, start, end);
        if !self.is_leaf {
            let child = *self.children@[len];
            assert(self.children@[len].shape());
            self.lemma_sorted_parts(len);
            child.lemma_scan_is_range(start, end);
        } else {
            assert(c =~= Seq::<Entry>::empty());
            assert(range_values(c, start, end) =~= Seq::<usize>::empty());
        }
    }

    fn new(is_leaf: bool) -> (node: Self)
        ensures
            is_leaf ==> node.shape(),
            node.keys@.len() == node.values@.len(),
            node.is_leaf == is_leaf,
            node.keys@.len() == 0,
            node.children@.len() == 0,
            node.entries() == Seq::<Entry>::empty(),
            node.height() == 0,
    {
        let node = BTreeNode { keys: Vec::new(), values: Vec::new(), children: Vec::new(), is_leaf };
        assert(node.entries() =~= Seq::<Entry>::empty());
        node
    }

    fn is_full(&self, order: usize) -> (r: bool)
        requires
            order >= 1,
        ensures
            r == (self.keys@.len() >= order - 1),
    {
        self.keys.len() >= order - 1
    }
}


/// Where an entry is inserted is fixed: inserting one entry into one
/// sequence gives one result.
pub proof fn lemma_inserted_unique(old: Seq<Entry>, new1: Seq<Entry>, new2: Seq<Entry>, e: Entry)
    requires
        inserted(old, new1, e),
        inserted(old, new2, e),
    ensures
        new1 == new2,
{
    let p1 = choose|p: int| #[trigger] inserted_at_position(old, new1, e, p);
    let p2 = choose|p: int| #[trigger] inserted_at_position(old, new2, e, p);
    if p1 < p2 {
        assert(key_le(old[p1].0, e.0));
        lemma_key_order(old[p1].0, e.0, e.0);
    } else if p2 < p1 {
        assert(key_le(old[p2].0, e.0));
        lemma_key_order(old[p2].0, e.0, e.0);
    }
}

/// Inserting into a sorted sequence where the key belongs keeps it sorted.
pub proof fn lemma_inserted_sorted(old: Seq<Entry>, new: Seq<Entry>, e: Entry)
    requires
        sorted(old),
        inserted(old, new, e),
    ensures
        sorted(new),
{
    let p = choose|p: int| #[trigger] inserted_at_position(old, new, e, p);
    old.insert_ensures(p, e);
    assert forall|a: int, b: int| 0 <= a < b < new.len() implies key_le(new[a].0, new[b].0) by {
        if b < p {
        } else if a < p && b == p {
        } else if a < p {
            assert(new[b] == old[b - 1]);
            lemma_key_order(old[a].0, e.0, old[b - 1].0);
        } else if a == p {
            assert(new[b] == old[b - 1]);
        } else {
            assert(new[a] == old[a - 1]);
            assert(new[b] == old[b - 1]);
        }
    }
}

/// Inserting into the middle part of a sequence, where everything before that
/// part sorts at most and everything after it at least as high as `e`, is
/// inserting into the whole sequence.
proof fn lemma_inserted_in_middle(p: Seq<Entry>, c: Seq<Entry>, t: Seq<Entry>, c2: Seq<Entry>, e: Entry)
    requires
        inserted(c, c2, e),
        forall|j: int| 0 <= j < p.len() ==> key_le(#[trigger] p[j].0, e.0),
        forall|j: int| 0 <= j < t.len() ==> key_lt(e.0, #[trigger] t[j].0),
    ensures
        inserted(p + c + t, p + c2 + t, e),
{
    let q = choose|q: int| #[trigger] inserted_at_position(c, c2, e, q);
    let s = p + c + t;
    let pos = p.len() + q;
    assert(p + c2 + t =~= s.insert(pos, e));
    assert forall|j: int| 0 <= j < pos implies key_le(#[trigger] s[j].0, e.0) by {
        if j >= p.len() {
            assert(s[j] == c[j - p.len()]);
        }
    }
    assert forall|j: int| pos <= j < s.len() implies key_lt(e.0, #[trigger] s[j].0) by {
        if j < p.len() + c.len() {
            assert(s[j] == c[j - p.len()]);
        } else {
            assert(s[j] == t[j - p.len() - c.len()]);
        }
    }
    assert(inserted_at_position(s, p + c2 + t, e, pos));
}

impl View for BTreeIndex {
    type V = Seq<Entry>;

    /// The index's entries in key order.
    closed spec fn view(&self) -> Seq<Entry> {
        match self.root {
            Some(root) => root.entries(),
            None => Seq::empty(),
        }
    }
}

/// A copy of the subtree at `node`: the same keys, row ids and layout.
fn copy_node(node: &BTreeNode) -> (r: BTreeNode)
    ensures
        node.same(r),
    decreases node,
{
    let mut keys: Vec<String> = Vec::new();
    let mut values: Vec<usize> = Vec::new();
    let mut i: usize = 0;
    while i < node.keys.len()
        invariant
            i <= node.keys@.len(),
            keys@ == node.keys@.take(i as int),
        decreases node.keys@.len() - i,
    {
        keys.push(node.keys[i].clone());
        proof {
            assert(keys@ =~= node.keys@.take(i + 1));
        }
        i += 1;
    }
    let mut i: usize = 0;
    while i < node.values.len()
        invariant
            i <= node.values@.len(),
            values@ == node.values@.take(i as int),
        decreases node.values@.len() - i,
    {
        values.push(node.values[i]);
        proof {
            assert(values@ =~= node.values@.take(i + 1));
        }
        i += 1;
    }
    let mut children: Vec<Box<BTreeNode>> = Vec::new();
    let mut i: usize = 0;
    while i < node.children.len()
        invariant
            i <= node.children@.len(),
            children@.len() == i,
            forall|j: int| 0 <= j < i ==> (#[trigger] node.children@[j]).same(*children@[j]),
        decreases node.children@.len() - i,
    {
        proof {
            assert(decreases_to!(node => node.children));
            assert(decreases_to!(node.children => node.children@));
            assert(decreases_to!(node.children@ => node.children@[i as int]));
        }
        let child = copy_node(&node.children[i]);
        children.push(Box::new(child));
        i += 1;
    }
    proof {
        assert(keys@ =~= node.keys@);
        assert(values@ =~= node.values@);
    }
    BTreeNode { keys, values, children, is_leaf: node.is_leaf }
}

impl Clone for BTreeIndex {
    /// A copy of the index, node for node.
    fn clone(&self) -> (r: Self)
        ensures
            r@ == self@,
            r.spec_order() == self.spec_order(),
            self.wf() ==> r.wf(),
    {
        let root = match &self.root {
            Some(node) => Some(Box::new(copy_node(node))),
            None => None,
        };
        let r = BTreeIndex { root, order: self.order };
        proof {
            if self.root is Some {
                self.root.unwrap().lemma_same(*r.root.unwrap(), max_keys(self.order));
            }
        }
        r
    }
}

impl BTreeIndex {
    /// The maximum number of children of a node.
    pub closed spec fn spec_order(&self) -> usize {
        self.order
    }

    /// The tree is well shaped (its leaves all lie at one depth), no node
    /// holds more than `max_keys` of its order keys, and its entries are in
    /// key order.
    pub closed spec fn wf(&self) -> bool {
        &&& self.root is Some
        &&& self.root.unwrap().shape()
        &&& self.root.unwrap().fits(max_keys(self.order))
        &&& sorted(self@)
    }

    /// Creates an empty index whose nodes hold at most `order` children.
    pub fn new(order: usize) -> (index: Self)
        ensures
            index.wf(),
            index@ == Seq::<Entry>::empty(),
            index.spec_order() == order,
    {
        BTreeIndex { root: Some(Box::new(BTreeNode::new(true))), order }
    }

    /// The maximum number of children of a node.
    pub fn order(&self) -> (r: usize)
        ensures
            r == self.spec_order(),
    {
        self.order
    }

    /// Looks `key` up. Gives a row id stored under `key`, or `None` when no
    /// entry has that key.
    pub fn search(&self, key: &str) -> (r: Option<usize>)
        requires
            self.wf(),
        ensures
            match r {
                Some(v) => self@.contains((key@, v)),
                None => !has_key(self@, key@),
            },
    {
        match &self.root {
            Some(root) => self.search_node(root, key),
            None => None,
        }
    }

    fn search_node(&self, node: &BTreeNode, key: &str) -> (r: Option<usize>)
        requires
            node.shape(),
            sorted(node.entries()),
        ensures
            match r {
                Some(v) => node.entries().contains((key@, v)),
                None => !has_key(node.entries(), key@),
            },
        decreases node.height(),
    {
        let mut i: usize = 0;
        while i < node.keys.len() && key_less(node.keys[i].as_str(), key)
            invariant
                node.shape(),
                i <= node.keys@.len(),
                forall|j: int| 0 <= j < i ==> key_lt(#[trigger] node.keys@[j]@, key@),
            decreases node.keys@.len() - i,
        {
            i += 1;
        }
        proof {
            node.lemma_decompose(i as int);
            node.lemma_sorted_parts(i as int);
        }
        let ghost p = node.prefix(i as int);
        let ghost c = node.child_entries(i as int);
        let ghost t = node.tail(i as int);
        if i < node.keys.len() && key_equal(key, node.keys[i].as_str()) {
            proof {
                assert(node.entries()[(p.len() + c.len()) as int] == t[0]);
            }
            return Some(node.values[i]);
        }
        proof {
            // Keys before child `i` are below `key`, keys from key `i` on above it.
            assert forall|j: int| 0 <= j < p.len() implies #[trigger] p[j].0 != key@ by {
                lemma_key_order(p[j].0, node.keys@[i - 1]@, key@);
            }
            assert forall|j: int| 0 <= j < t.len() implies #[trigger] t[j].0 != key@ by {
                lemma_key_order(key@, node.keys@[i as int]@, t[j].0);
            }
            assert forall|j: int| 0 <= j < node.entries().len() && node.entries()[j].0 == key@ implies
                0 <= j - p.len() < c.len() && #[trigger] node.entries()[j] == c[j - p.len()] by {
                if j < p.len() {
                    assert(node.entries()[j] == p[j]);
                } else if j >= p.len() + c.len() {
                    assert(node.entries()[j] == t[j - p.len() - c.len()]);
                }
            }
        }
        if node.is_leaf {
            return None;
        }
        let r = self.search_node(&node.children[i], key);
        proof {
            assert(c == node.children@[i as int].entries());
            match r {
                Some(v) => {
                    let k = choose|k: int| 0 <= k < c.len() && c[k] == (key@, v);
                    assert(node.entries()[p.len() + k] == c[k]);
                },
                None => {},
            }
        }
        r
    }
}

impl BTreeIndex {
    /// Moves key `order / 2 - 1` of the full child at `index` up into `parent`,
    /// with the keys before it and the keys after it as two children.
    #[verifier::spinoff_prover]
    #[verifier::rlimit(30)]
    fn split_child(parent: &mut BTreeNode, index: usize, order: usize)
        requires
            order >= 2,
            old(parent).shape(),
            !old(parent).is_leaf,
            index < old(parent).children@.len(),
            old(parent).children@[index as int].keys@.len() >= order - 1,
            old(parent).fits(max_keys(order)),
            old(parent).keys@.len() < max_keys(order),
        ensures
            final(parent).fits(max_keys(order)),
            final(parent).keys@.len() == old(parent).keys@.len() + 1,
            final(parent).children@[index as int].keys@.len() < max_keys(order),
            final(parent).children@[index + 1].keys@.len() < max_keys(order),
            final(parent).shape(),
            !final(parent).is_leaf,
            final(parent).height() == old(parent).height(),
            final(parent).entries() == old(parent).entries(),
            final(parent).keys@ == old(parent).keys@.insert(index as int, final(parent).keys@[index as int]),
    {
        let ghost n = *parent;
        let n_children = parent.children.len();
        let next = index + 1;
        proof {
            assert(n.children@[index as int].shape());
        }
        let full_child: Box<BTreeNode> = parent.children.remove(index);
        let mut full_child: BTreeNode = *full_child;
        let ghost f = full_child;
        proof {
            assert(f == n.children@[index as int]);
            assert(f.shape());
            assert(f.keys@.len() == f.values@.len());
            assert(!f.is_leaf ==> f.children@.len() == f.keys@.len() + 1);
        }
        let mid = order / 2;
        let new_keys = full_child.keys.split_off(mid);
        let new_values = full_child.values.split_off(mid);
        let new_children = if !full_child.is_leaf {
            full_child.children.split_off(mid)
        } else {
            Vec::new()
        };
        let promoted_key = full_child.keys.pop().unwrap();
        let promoted_value = full_child.values.pop().unwrap();
        let new_child = BTreeNode {
            keys: new_keys,
            values: new_values,
            children: new_children,
            is_leaf: full_child.is_leaf,
        };
        proof {
            assert(full_child.keys@ =~= f.keys@.subrange(0, mid - 1));
            assert(full_child.values@ =~= f.values@.subrange(0, mid - 1));
            BTreeNode::lemma_split_entries(f, full_child, new_child, mid as int);
            BTreeNode::lemma_split_shape(f, full_child, mid as int, 0, mid as int);
            BTreeNode::lemma_split_shape(f, new_child, mid as int, mid as int, (f.keys@.len() + 1) as int);
        }
        let ghost pk = promoted_key;
        let ghost pv = promoted_value;
        let ghost a = full_child;
        let ghost b = new_child;
        parent.children.insert(index, Box::new(full_child));
        parent.keys.insert(index, promoted_key);
        parent.values.insert(index, promoted_value);
        parent.children.insert(next, Box::new(new_child));
        proof {
            let m = *parent;
            assert(m.keys@ =~= n.keys@.insert(index as int, pk));
            assert(m.values@ =~= n.values@.insert(index as int, pv));
            assert(m.children@ =~= n.children@.update(index as int, Box::new(a)).insert(index + 1, Box::new(b)));
            BTreeNode::lemma_replace_by_halves(n, m, index as int, a, b, pk, pv);
            let cap = max_keys(order);
            assert(f.fits(cap));
            assert(a.keys@.len() < cap);
            assert(b.keys@.len() < cap);
            assert forall|j: int| 0 <= j < a.children@.len() implies (#[trigger] a.children@[j]).fits(cap) by {
                assert(a.children@[j] == f.children@[j]);
            }
            assert forall|j: int| 0 <= j < b.children@.len() implies (#[trigger] b.children@[j]).fits(cap) by {
                assert(b.children@[j] == f.children@[j + mid]);
            }
            assert(a.fits(cap));
            assert(b.fits(cap));
            assert forall|j: int| 0 <= j < m.children@.len() implies (#[trigger] m.children@[j]).fits(cap) by {
                if j < index {
                    assert(m.children@[j] == n.children@[j]);
                } else if j > index + 1 {
                    assert(m.children@[j] == n.children@[j - 1]);
                }
            }
            assert(m.children@[index as int] == Box::new(a));
            assert(m.children@[index + 1] == Box::new(b));
        }
    }
}

impl BTreeIndex {
    /// The number of keys of `node` that sort at most as high as `key`: the
    /// keys from the result on sort above `key`.
    fn upper_position(node: &BTreeNode, key: &str) -> (i: usize)
        requires
            node.shape(),
            sorted(node.entries()),
        ensures
            i <= node.keys@.len(),
            forall|j: int| i <= j < node.keys@.len() ==> key_lt(key@, #[trigger] node.keys@[j]@),
            i > 0 ==> key_le(node.keys@[i - 1]@, key@),
    {
        let mut i = node.keys.len();
        while i > 0 && key_less(key, node.keys[i - 1].as_str())
            invariant
                i <= node.keys@.len(),
                forall|j: int| i <= j < node.keys@.len() ==> key_lt(key@, #[trigger] node.keys@[j]@),
            decreases i,
        {
            i -= 1;
        }
        i
    }

    fn insert_into_leaf(node: &mut BTreeNode, key: String, row_id: usize)
        requires
            old(node).shape(),
            old(node).is_leaf,
            sorted(old(node).entries()),
        ensures
            final(node).shape(),
            final(node).height() == old(node).height(),
            final(node).is_leaf,
            final(node).keys@.len() == old(node).keys@.len() + 1,
            final(node).children@.len() == 0,
            inserted(old(node).entries(), final(node).entries(), (key@, row_id)),
    {
        let ghost e = (key@, row_id);
        let ghost n0 = *node;
        let i = Self::upper_position(node, key.as_str());
        node.keys.insert(i, key);
        node.values.insert(i, row_id);
        proof {
            let n1 = *node;
            n0.lemma_leaf_entries();
            n1.lemma_leaf_entries();
            n0.keys@.insert_ensures(i as int, n1.keys@[i as int]);
            n0.values@.insert_ensures(i as int, row_id);
            let old_e = n0.entries();
            assert(n1.entries() =~= old_e.insert(i as int, e));
            assert forall|j: int| 0 <= j < i implies key_le(#[trigger] old_e[j].0, e.0) by {
                if j < i - 1 {
                    assert(key_le(old_e[j].0, old_e[i - 1].0));
                    lemma_key_order(old_e[j].0, old_e[i - 1].0, e.0);
                }
            }
            assert forall|j: int| i <= j < old_e.len() implies key_lt(e.0, #[trigger] old_e[j].0) by {
            }
            assert(inserted_at_position(old_e, n1.entries(), e, i as int));
        }
    }

    /// Finds the child of the inner node `node` that an entry for `key`
    /// belongs in, first splitting that child if it is full.
    fn descend_position(order: usize, node: &mut BTreeNode, key: &str) -> (i: usize)
        requires
            order >= 2,
            old(node).shape(),
            !old(node).is_leaf,
            sorted(old(node).entries()),
            old(node).fits(max_keys(order)),
            old(node).keys@.len() < max_keys(order),
        ensures
            final(node).shape(),
            !final(node).is_leaf,
            final(node).height() == old(node).height(),
            final(node).entries() == old(node).entries(),
            final(node).fits(max_keys(order)),
            i < final(node).children@.len(),
            final(node).children@[i as int].keys@.len() < max_keys(order),
            i > 0 ==> key_le(final(node).keys@[i - 1]@, key@),
            i < final(node).keys@.len() ==> key_lt(key@, final(node).keys@[i as int]@),
    {
        let ghost n0 = *node;
        let mut i = Self::upper_position(node, key);
        proof {
            assert(n0.children@[i as int].shape());
            assert(n0.children@[i as int].fits(max_keys(order)));
            if i < n0.keys@.len() {
                lemma_key_order(key@, n0.keys@[i as int]@, key@);
            }
        }
        if node.children[i].is_full(order) {
            Self::split_child(node, i, order);
            proof {
                n0.keys@.insert_ensures(i as int, node.keys@[i as int]);
                assert(node.keys.len() == node.keys@.len());
            }
            if !key_less(key, node.keys[i].as_str()) {
                proof {
                    lemma_key_order(node.keys@[i as int]@, key@, key@);
                }
                i += 1;
            } else {
                proof {
                    lemma_key_order(key@, node.keys@[i as int]@, key@);
                }
            }
        }
        i
    }

    fn insert_non_full(order: usize, node: &mut BTreeNode, key: String, row_id: usize)
        requires
            order >= 2,
            old(node).shape(),
            sorted(old(node).entries()),
            old(node).fits(max_keys(order)),
            old(node).keys@.len() < max_keys(order),
        ensures
            final(node).shape(),
            final(node).height() == old(node).height(),
            final(node).is_leaf == old(node).is_leaf,
            final(node).fits(max_keys(order)),
            inserted(old(node).entries(), final(node).entries(), (key@, row_id)),
        decreases old(node).height(),
    {
        if node.is_leaf {
            Self::insert_into_leaf(node, key, row_id);
            return;
        }
        let ghost e = (key@, row_id);
        let i = Self::descend_position(order, node, key.as_str());
        let ghost n1 = *node;
        proof {
            assert(n1.children@[i as int].shape());
            assert(n1.children@[i as int].fits(max_keys(order)));
            n1.lemma_sorted_parts(i as int);
        }
        let child: Box<BTreeNode> = node.children.remove(i);
        let mut child: BTreeNode = *child;
        proof {
            assert(child == *n1.children@[i as int]);
        }
        Self::insert_non_full(order, &mut child, key, row_id);
        let ghost c2 = child;
        node.children.insert(i, Box::new(child));
        proof {
            assert(node.children@ =~= n1.children@.update(i as int, Box::new(c2)));
            BTreeNode::lemma_insert_via_child(n1, *node, i as int, c2, e);
            assert forall|j: int| 0 <= j < node.children@.len() implies (#[trigger] node.children@[j]).fits(max_keys(order)) by {
                if j != i {
                    assert(node.children@[j] == n1.children@[j]);
                }
            }
        }
    }

    /// Adds an entry for `key` and `row_id`. It goes where its key belongs:
    /// after the entries with lower keys and before those with higher ones.
    pub fn insert(&mut self, key: String, row_id: usize)
        requires
            old(self).wf(),
            old(self).spec_order() >= 2,
        ensures
            final(self).wf(),
            final(self).spec_order() == old(self).spec_order(),
            inserted(old(self)@, final(self)@, (key@, row_id)),
    {
        let order = self.order;
        let root: Box<BTreeNode> = self.root.take().unwrap();
        let mut root: BTreeNode = *root;
        let ghost r0 = root;
        if root.is_full(order) {
            let mut new_root = BTreeNode::new(false);
            new_root.children.push(Box::new(root));
            proof {
                let nr = new_root;
                assert(nr.children@[0] == Box::new(r0));
                assert(nr.entries() =~= r0.entries());
                assert(nr.shape());
                assert(nr.fits(max_keys(order)));
            }
            Self::split_child(&mut new_root, 0, order);
            root = new_root;
        }
        let ghost r1 = root;
        Self::insert_non_full(order, &mut root, key, row_id);
        proof {
            lemma_inserted_sorted(r1.entries(), root.entries(), (key@, row_id));
        }
        self.root = Some(Box::new(root));
    }
}

impl BTreeIndex {
    /// Gives the row ids of the entries whose keys lie between `start` and
    /// `end`, both included, in key order: each such entry once.
    pub fn range_scan(&self, start: &str, end: &str) -> (results: Vec<usize>)
        requires
            self.wf(),
        ensures
            results@ == range_values(self@, start@, end@),
    {
        let mut results = Vec::new();
        if let Some(root) = &self.root {
            self.range_scan_node(root, start, end, &mut results);
            proof {
                assert(results@ =~= root.scan(start@, end@));
                root.lemma_scan_is_range(start@, end@);
            }
        }
        results
    }

    fn range_scan_node(&self, node: &BTreeNode, start: &str, end: &str, results: &mut Vec<usize>)
        requires
            node.shape(),
        ensures
            final(results)@ == old(results)@ + node.scan(start@, end@),
        decreases node.height(),
    {
        let mut i: usize = 0;
        while i < node.keys.len()
            invariant
                node.shape(),
                i <= node.keys@.len(),
                results@ == old(results)@ + node.scan_prefix(start@, end@, i as int),
            decreases node.keys@.len() - i,
        {
            if !node.is_leaf {
                if !key_less(node.keys[i].as_str(), start) {
                    proof {
                        assert(node.children@[i as int].shape());
                    }
                    self.range_scan_node(&node.children[i], start, end, results);
                }
            }
            if !key_less(node.keys[i].as_str(), start) && !key_less(end, node.keys[i].as_str()) {
                results.push(node.values[i]);
            }
            proof {
                assert(results@ =~= old(results)@ + node.scan_prefix(start@, end@, i + 1));
            }
            i += 1;
        }
        if !node.is_leaf && i < node.children.len() {
            proof {
                assert(node.children@[i as int].shape());
            }
            self.range_scan_node(&node.children[i], start, end, results);
        }
        proof {
            assert(results@ =~= old(results)@ + node.scan(start@, end@));
        }
    }
}

impl BTreeIndex {
    /// The entries `self` holds, keys with row ids, in key order.
    pub fn entries(&self) -> (pairs: Vec<(String, usize)>)
        requires
            self.wf(),
        ensures
            entries_of(pairs@) == self@,
    {
        let mut pairs = Vec::new();
        if let Some(root) = &self.root {
            Self::collect_entries(root, &mut pairs);
        }
        proof {
            assert(entries_of(pairs@) =~= self@);
        }
        pairs
    }

    fn collect_entries(node: &BTreeNode, pairs: &mut Vec<(String, usize)>)
        requires
            node.shape(),
        ensures
            entries_of(final(pairs)@) == entries_of(old(pairs)@) + node.entries(),
        decreases node.height(),
    {
        let mut i: usize = 0;
        while i < node.keys.len()
            invariant
                node.shape(),
                i <= node.keys@.len(),
                entries_of(pairs@) == entries_of(old(pairs)@) + node.prefix(i as int),
            decreases node.keys@.len() - i,
        {
            if i < node.children.len() {
                proof {
                    assert(node.children@[i as int].shape());
                }
                Self::collect_entries(&node.children[i], pairs);
            }
            proof {
                assert(entries_of(pairs@) =~= entries_of(old(pairs)@) + node.prefix(i as int) + node.child_entries(i as int));
            }
            let ghost before = pairs@;
            pairs.push((node.keys[i].clone(), node.values[i]));
            proof {
                assert(entries_of(pairs@) =~= entries_of(before) + seq![(node.keys@[i as int]@, node.values@[i as int])]);
                assert(entries_of(pairs@) =~= entries_of(old(pairs)@) + node.prefix(i + 1));
            }
            i += 1;
        }
        if i < node.children.len() {
            proof {
                assert(node.children@[i as int].shape());
            }
            Self::collect_entries(&node.children[i], pairs);
        }
        proof {
            assert(entries_of(pairs@) =~= entries_of(old(pairs)@) + node.entries());
        }
    }

    /// The entries of a well-formed index are in key order.
    pub proof fn lemma_entries_sorted(&self)
        requires
            self.wf(),
        ensures
            sorted(self@),
    {
    }
}

/// After an insertion the new entry is there, every earlier entry is still
/// there, and, when no earlier entry had its key, it is the only entry with
/// that key: a lookup of the key then finds exactly the new row id.
#[verifier::spinoff_prover]
pub proof fn lemma_insert_then_lookup(old: Seq<Entry>, new: Seq<Entry>, e: Entry)
    requires
        inserted(old, new, e),
    ensures
        new.len() == old.len() + 1,
        new.contains(e),
        has_key(new, e.0),
        forall|x: Entry| old.contains(x) ==> new.contains(x),
        forall|x: Entry| #[trigger] new.contains(x) ==> old.contains(x) || x == e,
        !old.contains(e) && old.no_duplicates() ==> new.no_duplicates(),
        !has_key(old, e.0) ==> forall|j: int| 0 <= j < new.len() && new[j].0 == e.0 ==> new[j] == e,
{
    let p = choose|p: int| #[trigger] inserted_at_position(old, new, e, p);
    old.insert_ensures(p, e);
    assert(new[p] == e);
    assert forall|x: Entry| old.contains(x) implies new.contains(x) by {
        let j = choose|j: int| 0 <= j < old.len() && old[j] == x;
        if j < p {
            assert(new[j] == x);
        } else {
            assert(new[j + 1] == x);
        }
    }
    assert forall|x: Entry| #[trigger] new.contains(x) implies old.contains(x) || x == e by {
        let j = choose|j: int| 0 <= j < new.len() && new[j] == x;
        if j < p {
            assert(old[j] == x);
        } else if j > p {
            assert(old[j - 1] == x);
        }
    }
    if !old.contains(e) && old.no_duplicates() {
        assert forall|a: int, b: int| 0 <= a < new.len() && 0 <= b < new.len() && a != b implies new[a] != new[b] by {
            let a2 = if a < p { a } else { a - 1 };
            let b2 = if b < p { b } else { b - 1 };
            if a != p && b != p {
                assert(new[a] == old[a2] && new[b] == old[b2]);
            } else if a == p {
                assert(new[b] == old[b2]);
            } else {
                assert(new[a] == old[a2]);
            }
        }
    }
    if !has_key(old, e.0) {
        assert forall|j: int| 0 <= j < new.len() && new[j].0 == e.0 implies new[j] == e by {
            if j < p {
                assert(old[j].0 == e.0);
            } else if j > p {
                assert(old[j - 1].0 == e.0);
            }
        }
    }
}

/// `states[0]` is the first index's entries and each `states[i + 1]` is
/// `states[i]` with `es[i]` inserted: the entries after each insertion.
pub open spec fn insertions(states: Seq<Seq<Entry>>, es: Seq<Entry>) -> bool {
    &&& states.len() == es.len() + 1
    &&& forall|i: int| 0 <= i < es.len() ==> #[trigger] inserted(states[i], states[i + 1], es[i])
}

/// No two of the entries have the same key.
pub open spec fn distinct_keys(es: Seq<Entry>) -> bool {
    forall|i: int, j: int| #![trigger es[i], es[j]] 0 <= i < j < es.len() ==> es[i].0 != es[j].0
}

/// After insertions with distinct keys into an empty index, each inserted
/// entry is the only one with its key, so a lookup of its key finds its row
/// id, and no other key is found.
pub proof fn lemma_insertions_then_lookups(states: Seq<Seq<Entry>>, es: Seq<Entry>)
    requires
        insertions(states, es),
        states[0] == Seq::<Entry>::empty(),
        distinct_keys(es),
    ensures
        forall|j: int| 0 <= j < es.len() ==> #[trigger] states.last().contains(es[j]),
        forall|j: int, x: int| 0 <= j < es.len() && 0 <= x < states.last().len() && states.last()[x].0 == es[j].0
            ==> #[trigger] states.last()[x] == #[trigger] es[j],
        forall|k: Seq<char>| (forall|j: int| 0 <= j < es.len() ==> #[trigger] es[j].0 != k) ==> !has_key(states.last(), k),
    decreases es.len(),
{
    let n = es.len() as int;
    if n == 0 {
        assert(states.last() == states[0]);
    } else {
        let s2 = states.drop_last();
        let e2 = es.drop_last();
        assert forall|i: int| 0 <= i < e2.len() implies #[trigger] inserted(s2[i], s2[i + 1], e2[i]) by {
            assert(inserted(states[i], states[i + 1], es[i]));
        }
        assert forall|i: int, j: int| #![trigger e2[i], e2[j]] 0 <= i < j < e2.len() implies e2[i].0 != e2[j].0 by {
            assert(es[i].0 != es[j].0);
        }
        lemma_insertions_then_lookups(s2, e2);
        let old = s2.last();
        let new = states.last();
        let e = es[n - 1];
        assert(old == states[n - 1]);
        assert(inserted(states[n - 1], states[n], es[n - 1]));
        lemma_insert_then_lookup(old, new, e);
        // No earlier entry has the key of the last one.
        assert(!has_key(old, e.0)) by {
            assert forall|j: int| 0 <= j < e2.len() implies #[trigger] e2[j].0 != e.0 by {
                assert(es[j].0 != es[n - 1].0);
            }
        }
        assert forall|j: int| 0 <= j < es.len() implies #[trigger] new.contains(es[j]) by {
            if j < n - 1 {
                assert(old.contains(e2[j]));
            }
        }
        assert forall|j: int, x: int| 0 <= j < es.len() && 0 <= x < new.len() && new[x].0 == es[j].0
            implies #[trigger] new[x] == #[trigger] es[j] by {
            if j < n - 1 {
                assert(new.contains(new[x]));
                if new[x] != e {
                    assert(old.contains(new[x]));
                    let y = choose|y: int| 0 <= y < old.len() && old[y] == new[x];
                    assert(old[y] == e2[j]);
                } else {
                    assert(es[j].0 != es[n - 1].0);
                }
            }
        }
        assert forall|k: Seq<char>| (forall|j: int| 0 <= j < es.len() ==> #[trigger] es[j].0 != k) implies !has_key(new, k) by {
            if has_key(new, k) {
                let x = choose|x: int| 0 <= x < new.len() && new[x].0 == k;
                assert(new.contains(new[x]));
                assert(es[n - 1].0 != k);
                assert forall|j: int| 0 <= j < e2.len() implies #[trigger] e2[j].0 != k by {
                    assert(es[j].0 != k);
                }
                assert(old.contains(new[x]));
                let y = choose|y: int| 0 <= y < old.len() && old[y] == new[x];
                assert(has_key(old, k));
            }
        }
    }
}

/// An insertion adds its entry's row id to the range values when its key lies
/// in the range, and changes nothing else of them but their order.
proof fn lemma_inserted_range_multiset(old: Seq<Entry>, new: Seq<Entry>, e: Entry, start: Seq<char>, end: Seq<char>)
    requires
        inserted(old, new, e),
    ensures
        range_values(new, start, end).to_multiset()
            == range_values(old, start, end).to_multiset().add(range_values(seq![e], start, end).to_multiset()),
{
    let p = choose|p: int| #[trigger] inserted_at_position(old, new, e, p);
    let l = old.take(p);
    let r = old.skip(p);
    assert(old =~= l + r);
    assert(new =~= l + seq![e] + r);
    lemma_range_values_add(l + seq![e], r, start, end);
    lemma_range_values_add(l, seq![e], start, end);
    lemma_range_values_add(l, r, start, end);
    let rl = range_values(l, start, end);
    let re = range_values(seq![e], start, end);
    let rr = range_values(r, start, end);
    vstd::seq_lib::lemma_multiset_commutative(rl + re, rr);
    vstd::seq_lib::lemma_multiset_commutative(rl, re);
    vstd::seq_lib::lemma_multiset_commutative(rl, rr);
    assert(range_values(new, start, end).to_multiset() =~= rl.to_multiset().add(re.to_multiset()).add(rr.to_multiset()));
    assert(range_values(old, start, end).to_multiset() =~= rl.to_multiset().add(rr.to_multiset()));
}

/// After insertions into an empty index, a range scan holds each row id of
/// an inserted entry whose key lies in the range, as often as it was inserted
/// so, and nothing else: the range values of the entries are those of the
/// insertions, reordered.
pub proof fn lemma_insertions_range(states: Seq<Seq<Entry>>, es: Seq<Entry>, start: Seq<char>, end: Seq<char>)
    requires
        insertions(states, es),
        states[0] == Seq::<Entry>::empty(),
    ensures
        range_values(states.last(), start, end).to_multiset() == range_values(es, start, end).to_multiset(),
    decreases es.len(),
{
    if es.len() == 0 {
        assert(states.last() == states[0]);
        assert(range_values(states.last(), start, end) =~= Seq::<usize>::empty());
        assert(range_values(es, start, end) =~= Seq::<usize>::empty());
    } else {
        let n = es.len() as int;
        let s2 = states.drop_last();
        let e2 = es.drop_last();
        assert forall|i: int| 0 <= i < e2.len() implies #[trigger] inserted(s2[i], s2[i + 1], e2[i]) by {
            assert(inserted(states[i], states[i + 1], es[i]));
        }
        lemma_insertions_range(s2, e2, start, end);
        assert(inserted(states[n - 1], states[n], es[n - 1]));
        assert(s2.last() == states[n - 1]);
        lemma_inserted_range_multiset(states[n - 1], states.last(), es[n - 1], start, end);
        let single = seq![es[n - 1]];
        assert(single.drop_last() =~= Seq::<Entry>::empty());
        assert(range_values(single.drop_last(), start, end) =~= Seq::<usize>::empty());
        let tail = if in_range(es[n - 1].0, start, end) { seq![es[n - 1].1] } else { Seq::<usize>::empty() };
        assert(range_values(single, start, end) =~= tail);
        assert(range_values(es, start, end) == range_values(e2, start, end) + tail);
        vstd::seq_lib::lemma_multiset_commutative(range_values(e2, start, end), tail);
    }
}
} // verus!
