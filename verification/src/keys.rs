//! Ordering of index keys.
//!
//! Index keys are compared in shortlex order: a shorter key sorts before a
//! longer one, and keys of the same length are compared character by character
//! by code point. On decimal numerals without leading zeros this is numeric
//! order, so a range over numeric identifiers such as `"5"..="15"` holds
//! `"5"`, `"10"` and `"15"`.

use vstd::prelude::*;

verus! {

/// `i` is the first position at which `a` and `b` differ.
pub open spec fn first_diff(a: Seq<char>, b: Seq<char>, i: int) -> bool {
    &&& 0 <= i < a.len()
    &&& i < b.len()
    &&& a[i] != b[i]
    &&& forall|j: int| 0 <= j < i ==> a[j] == b[j]
}

/// Code-point lexicographic order, used on keys of one length.
pub open spec fn lex_lt(a: Seq<char>, b: Seq<char>) -> bool {
    exists|i: int| #[trigger] first_diff(a, b, i) && a[i] < b[i]
}

/// Strict shortlex order on keys.
pub open spec fn key_lt(a: Seq<char>, b: Seq<char>) -> bool {
    a.len() < b.len() || (a.len() == b.len() && lex_lt(a, b))
}

/// Non-strict shortlex order on keys.
pub open spec fn key_le(a: Seq<char>, b: Seq<char>) -> bool {
    !key_lt(b, a)
}

proof fn lemma_first_diff_unique(a: Seq<char>, b: Seq<char>, i: int, k: int)
    requires
        first_diff(a, b, i),
        first_diff(a, b, k),
    ensures
        i == k,
{
    if i < k {
        assert(a[i] == b[i]);
    }
    if k < i {
        assert(a[k] == b[k]);
    }
}

proof fn lemma_first_diff_exists(a: Seq<char>, b: Seq<char>, k: int)
    requires
        a.len() == b.len(),
        0 <= k <= a.len(),
        forall|j: int| 0 <= j < k ==> a[j] == b[j],
        exists|j: int| k <= j < a.len() && a[j] != b[j],
    ensures
        exists|i: int| #[trigger] first_diff(a, b, i),
    decreases a.len() - k,
{
    if a[k] != b[k] {
        assert(first_diff(a, b, k));
    } else {
        lemma_first_diff_exists(a, b, k + 1);
    }
}

/// `key_lt` is irreflexive.
pub proof fn lemma_key_lt_irreflexive(a: Seq<char>)
    ensures
        !key_lt(a, a),
{
}

/// `key_lt` is asymmetric.
pub proof fn lemma_key_lt_asymmetric(a: Seq<char>, b: Seq<char>)
    requires
        key_lt(a, b),
    ensures
        !key_lt(b, a),
{
    if a.len() == b.len() && lex_lt(b, a) {
        let i = choose|i: int| #[trigger] first_diff(a, b, i) && a[i] < b[i];
        let k = choose|k: int| #[trigger] first_diff(b, a, k) && b[k] < a[k];
        assert(first_diff(a, b, k));
        lemma_first_diff_unique(a, b, i, k);
    }
}

/// `key_lt` is transitive.
pub proof fn lemma_key_lt_transitive(a: Seq<char>, b: Seq<char>, c: Seq<char>)
    requires
        key_lt(a, b),
        key_lt(b, c),
    ensures
        key_lt(a, c),
{
    if a.len() == b.len() && b.len() == c.len() {
        let i = choose|i: int| #[trigger] first_diff(a, b, i) && a[i] < b[i];
        let k = choose|k: int| #[trigger] first_diff(b, c, k) && b[k] < c[k];
        let m = if i < k { i } else { k };
        assert(first_diff(a, c, m));
    }
}

/// Any two distinct keys are ordered one way or the other.
pub proof fn lemma_key_lt_total(a: Seq<char>, b: Seq<char>)
    ensures
        a == b || key_lt(a, b) || key_lt(b, a),
{
    if a.len() == b.len() && a != b {
        if forall|j: int| 0 <= j < a.len() ==> a[j] == b[j] {
            assert(a =~= b);
        }
        lemma_first_diff_exists(a, b, 0);
        let i = choose|i: int| #[trigger] first_diff(a, b, i);
        if a[i] < b[i] {
            assert(lex_lt(a, b));
        } else {
            assert(first_diff(b, a, i));
            assert(lex_lt(b, a));
        }
    }
}

/// `key_le` is a total order: reflexive, antisymmetric, transitive and total,
/// and `key_lt` is its strict part.
pub proof fn lemma_key_order(a: Seq<char>, b: Seq<char>, c: Seq<char>)
    ensures
        key_le(a, a),
        key_le(a, b) || key_le(b, a),
        key_le(a, b) && key_le(b, a) ==> a == b,
        key_le(a, b) && key_le(b, c) ==> key_le(a, c),
        key_lt(a, b) && key_le(b, c) ==> key_lt(a, c),
        key_le(a, b) && key_lt(b, c) ==> key_lt(a, c),
        key_lt(a, b) ==> key_le(a, b),
        key_le(a, b) && a != b ==> key_lt(a, b),
{
    lemma_key_lt_total(a, b);
    lemma_key_lt_total(b, c);
    lemma_key_lt_total(a, c);
    if key_lt(a, b) {
        lemma_key_lt_asymmetric(a, b);
    }
    if key_lt(c, a) && key_lt(a, b) {
        lemma_key_lt_transitive(c, a, b);
    }
    if key_lt(b, c) && key_lt(c, a) {
        lemma_key_lt_transitive(b, c, a);
    }
    if key_lt(a, b) && key_lt(b, c) {
        lemma_key_lt_transitive(a, b, c);
    }
    if key_lt(c, a) && key_lt(b, c) {
        lemma_key_lt_transitive(b, c, a);
    }
}

/// Returns whether `a` sorts strictly before `b`.
pub fn key_less(a: &str, b: &str) -> (r: bool)
    ensures
        r == key_lt(a@, b@),
{
    let la = a.unicode_len();
    let lb = b.unicode_len();
    if la != lb {
        return la < lb;
    }
    let mut i: usize = 0;
    while i < la
        invariant
            la == a@.len(),
            lb == b@.len(),
            la == lb,
            i <= la,
            forall|j: int| 0 <= j < i ==> a@[j] == b@[j],
        decreases la - i,
    {
        let ca = a.get_char(i);
        let cb = b.get_char(i);
        if ca != cb {
            proof {
                assert(first_diff(a@, b@, i as int));
                assert forall|k: int| #[trigger] first_diff(a@, b@, k) implies k == i by {
                    lemma_first_diff_unique(a@, b@, i as int, k);
                }
            }
            return ca < cb;
        }
        i += 1;
    }
    proof {
        assert forall|k: int| !#[trigger] first_diff(a@, b@, k) by {
            if 0 <= k < la {
                assert(a@[k] == b@[k]);
            }
        }
    }
    false
}

/// Returns whether `a` and `b` are the same key.
pub fn key_equal(a: &str, b: &str) -> (r: bool)
    ensures
        r == (a@ == b@),
{
    let la = a.unicode_len();
    let lb = b.unicode_len();
    if la != lb {
        return false;
    }
    let mut i: usize = 0;
    while i < la
        invariant
            la == a@.len(),
            lb == b@.len(),
            la == lb,
            i <= la,
            forall|j: int| 0 <= j < i ==> a@[j] == b@[j],
        decreases la - i,
    {
        if a.get_char(i) != b.get_char(i) {
            return false;
        }
        i += 1;
    }
    assert(a@ =~= b@);
    true
}

} // verus!
