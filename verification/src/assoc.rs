//! Lists of string-keyed pairs used as maps.
//!
//! A list holds each key at most once; the map it stands for sends each key
//! to the value paired with it.

use vstd::prelude::*;
use crate::keys::key_equal;

verus! {

/// No key occurs twice in `s`.
pub open spec fn unique_keys<T>(s: Seq<(String, T)>) -> bool {
    forall|i: int, j: int| #![trigger s[i], s[j]] 0 <= i < s.len() && 0 <= j < s.len() && s[i].0@ == s[j].0@ ==> i == j
}

/// The value paired with `k` by the last pair of `s` with key `k`.
pub open spec fn lookup<T>(s: Seq<(String, T)>, k: Seq<char>) -> Option<T>
    decreases s.len(),
{
    if s.len() == 0 {
        None
    } else if s.last().0@ == k {
        Some(s.last().1)
    } else {
        lookup(s.drop_last(), k)
    }
}

/// The map that the list `s` stands for.
pub open spec fn to_map<T>(s: Seq<(String, T)>) -> Map<Seq<char>, T> {
    Map::new(|k: Seq<char>| lookup(s, k) is Some, |k: Seq<char>| lookup(s, k)->0)
}

/// A pair of a unique-keyed list gives the value of its key.
pub proof fn lemma_lookup_at<T>(s: Seq<(String, T)>, j: int)
    requires
        unique_keys(s),
        0 <= j < s.len(),
    ensures
        lookup(s, s[j].0@) == Some(s[j].1),
    decreases s.len(),
{
    if j < s.len() - 1 {
        let t = s.drop_last();
        assert(s[j] == t[j]);
        assert(s.last() == s[s.len() - 1]);
        assert forall|a: int, b: int| #![trigger t[a], t[b]] 0 <= a < t.len() && 0 <= b < t.len() && t[a].0@ == t[b].0@ implies a == b by {
            assert(t[a] == s[a]);
            assert(t[b] == s[b]);
        }
        lemma_lookup_at(t, j);
    }
}

/// A key that no pair has has no value.
pub proof fn lemma_lookup_absent<T>(s: Seq<(String, T)>, k: Seq<char>)
    requires
        forall|j: int| 0 <= j < s.len() ==> (#[trigger] s[j]).0@ != k,
    ensures
        lookup(s, k) is None,
    decreases s.len(),
{
    if s.len() > 0 {
        assert(s[s.len() - 1] == s.last());
        let t = s.drop_last();
        assert forall|j: int| 0 <= j < t.len() implies (#[trigger] t[j]).0@ != k by {
            assert(t[j] == s[j]);
        }
        lemma_lookup_absent(t, k);
    }
}

/// A key has a value exactly when some pair has that key.
pub proof fn lemma_lookup_some<T>(s: Seq<(String, T)>, k: Seq<char>)
    requires
        unique_keys(s),
    ensures
        lookup(s, k) is Some <==> exists|j: int| 0 <= j < s.len() && (#[trigger] s[j]).0@ == k,
{
    if exists|j: int| 0 <= j < s.len() && (#[trigger] s[j]).0@ == k {
        let j = choose|j: int| 0 <= j < s.len() && (#[trigger] s[j]).0@ == k;
        lemma_lookup_at(s, j);
    } else {
        lemma_lookup_absent(s, k);
    }
}

/// Appending a pair with a new key adds that key to the map.
pub proof fn lemma_push<T>(s: Seq<(String, T)>, key: String, v: T)
    requires
        unique_keys(s),
        forall|j: int| 0 <= j < s.len() ==> (#[trigger] s[j]).0@ != key@,
    ensures
        unique_keys(s.push((key, v))),
        to_map(s.push((key, v))) == to_map(s).insert(key@, v),
{
    let t = s.push((key, v));
    assert forall|a: int, b: int| #![trigger t[a], t[b]] 0 <= a < t.len() && 0 <= b < t.len() && t[a].0@ == t[b].0@ implies a == b by {
        if a < s.len() && b < s.len() {
            assert(t[a] == s[a] && t[b] == s[b]);
        } else if a < s.len() {
            assert(t[a] == s[a]);
        } else if b < s.len() {
            assert(t[b] == s[b]);
        }
    }
    assert(t.drop_last() =~= s);
    assert(to_map(t) =~= to_map(s).insert(key@, v));
}

/// Replacing the pair at `j` by one with the same key sets that key's value.
pub proof fn lemma_update<T>(s: Seq<(String, T)>, j: int, key: String, v: T)
    requires
        unique_keys(s),
        0 <= j < s.len(),
        s[j].0@ == key@,
    ensures
        unique_keys(s.update(j, (key, v))),
        to_map(s.update(j, (key, v))) == to_map(s).insert(key@, v),
{
    let t = s.update(j, (key, v));
    assert forall|a: int, b: int| #![trigger t[a], t[b]] 0 <= a < t.len() && 0 <= b < t.len() && t[a].0@ == t[b].0@ implies a == b by {
        assert(t[a].0@ == s[a].0@);
        assert(t[b].0@ == s[b].0@);
    }
    assert forall|k: Seq<char>| lookup(t, k) == if k == key@ { Some(v) } else { lookup(s, k) } by {
        if k == key@ {
            lemma_lookup_at(t, j);
        } else {
            lemma_lookup_some(s, k);
            lemma_lookup_some(t, k);
            if lookup(s, k) is Some {
                let i = choose|i: int| 0 <= i < s.len() && (#[trigger] s[i]).0@ == k;
                lemma_lookup_at(s, i);
                assert(t[i] == s[i]);
                lemma_lookup_at(t, i);
            }
        }
    }
    assert(to_map(t) =~= to_map(s).insert(key@, v));
}

/// Removing the pair at `j` removes its key from the map.
pub proof fn lemma_remove<T>(s: Seq<(String, T)>, j: int)
    requires
        unique_keys(s),
        0 <= j < s.len(),
    ensures
        unique_keys(s.remove(j)),
        to_map(s.remove(j)) == to_map(s).remove(s[j].0@),
{
    let t = s.remove(j);
    s.remove_ensures(j);
    assert forall|a: int, b: int| #![trigger t[a], t[b]] 0 <= a < t.len() && 0 <= b < t.len() && t[a].0@ == t[b].0@ implies a == b by {
        let a2 = if a < j { a } else { a + 1 };
        let b2 = if b < j { b } else { b + 1 };
        assert(t[a] == s[a2]);
        assert(t[b] == s[b2]);
    }
    assert forall|k: Seq<char>| lookup(t, k) == if k == s[j].0@ { None } else { lookup(s, k) } by {
        lemma_lookup_some(s, k);
        lemma_lookup_some(t, k);
        if k == s[j].0@ {
            assert forall|i: int| 0 <= i < t.len() implies (#[trigger] t[i]).0@ != k by {
                let i2 = if i < j { i } else { i + 1 };
                assert(t[i] == s[i2]);
            }
            lemma_lookup_absent(t, k);
        } else if lookup(s, k) is Some {
            let i = choose|i: int| 0 <= i < s.len() && (#[trigger] s[i]).0@ == k;
            lemma_lookup_at(s, i);
            let i2 = if i < j { i } else { i - 1 };
            assert(t[i2] == s[i]);
            lemma_lookup_at(t, i2);
        } else {
            assert forall|i: int| 0 <= i < t.len() implies (#[trigger] t[i]).0@ != k by {
                let i2 = if i < j { i } else { i + 1 };
                assert(t[i] == s[i2]);
            }
            lemma_lookup_absent(t, k);
        }
    }
    assert(to_map(t) =~= to_map(s).remove(s[j].0@));
}

/// Finds the position of the pair with key `key`.
pub fn position<T>(s: &Vec<(String, T)>, key: &str) -> (r: Option<usize>)
    ensures
        match r {
            Some(j) => j < s@.len() && s@[j as int].0@ == key@,
            None => forall|j: int| 0 <= j < s@.len() ==> (#[trigger] s@[j]).0@ != key@,
        },
{
    let mut i: usize = 0;
    while i < s.len()
        invariant
            i <= s@.len(),
            forall|j: int| 0 <= j < i ==> (#[trigger] s@[j]).0@ != key@,
        decreases s@.len() - i,
    {
        if key_equal(s[i].0.as_str(), key) {
            return Some(i);
        }
        i += 1;
    }
    None
}


/// A key has a value exactly when some pair has that key, whether or not
/// keys repeat.
pub proof fn lemma_lookup_exists<T>(s: Seq<(String, T)>, k: Seq<char>)
    ensures
        lookup(s, k) is Some <==> exists|j: int| 0 <= j < s.len() && (#[trigger] s[j]).0@ == k,
    decreases s.len(),
{
    if s.len() > 0 {
        let t = s.drop_last();
        lemma_lookup_exists(t, k);
        assert(s[s.len() - 1] == s.last());
        if exists|j: int| 0 <= j < t.len() && (#[trigger] t[j]).0@ == k {
            let j = choose|j: int| 0 <= j < t.len() && (#[trigger] t[j]).0@ == k;
            assert(s[j] == t[j]);
        }
        if exists|j: int| 0 <= j < s.len() && (#[trigger] s[j]).0@ == k {
            let j = choose|j: int| 0 <= j < s.len() && (#[trigger] s[j]).0@ == k;
            if j < s.len() - 1 {
                assert(t[j] == s[j]);
            }
        }
    }
}

/// Finds the position of the last pair with key `key`, whose value is the
/// value of `key` in the map.
pub fn last_position<T>(s: &Vec<(String, T)>, key: &str) -> (r: Option<usize>)
    ensures
        match r {
            Some(j) => j < s@.len() && s@[j as int].0@ == key@ && lookup(s@, key@) == Some(s@[j as int].1),
            None => lookup(s@, key@) is None,
        },
{
    let mut i: usize = s.len();
    proof {
        assert(s@.take(s@.len() as int) =~= s@);
    }
    while i > 0
        invariant
            i <= s@.len(),
            lookup(s@, key@) == lookup(s@.take(i as int), key@),
        decreases i,
    {
        let ghost t = s@.take(i as int);
        proof {
            assert(t.last() == s@[i - 1]);
            assert(t.drop_last() =~= s@.take(i - 1));
        }
        if key_equal(s[i - 1].0.as_str(), key) {
            return Some(i - 1);
        }
        i -= 1;
    }
    None
}

/// Sets the value of `key` to `v`, replacing any pair with that key.
pub fn put<T>(s: &mut Vec<(String, T)>, key: String, v: T)
    requires
        unique_keys(old(s)@),
    ensures
        unique_keys(final(s)@),
        to_map(final(s)@) == to_map(old(s)@).insert(key@, v),
{
    let ghost k = key;
    let ghost value = v;
    match position(s, key.as_str()) {
        Some(j) => {
            proof {
                lemma_update(old(s)@, j as int, k, value);
            }
            s.set(j, (key, v));
        },
        None => {
            proof {
                lemma_push(old(s)@, k, value);
            }
            s.push((key, v));
        },
    }
}

/// Takes the pair at `j` out of the list, and with it its key out of the map.
pub fn take<T>(s: &mut Vec<(String, T)>, j: usize) -> (r: (String, T))
    requires
        unique_keys(old(s)@),
        j < old(s)@.len(),
    ensures
        r == old(s)@[j as int],
        to_map(old(s)@).contains_key(r.0@),
        to_map(old(s)@)[r.0@] == r.1,
        unique_keys(final(s)@),
        to_map(final(s)@) == to_map(old(s)@).remove(r.0@),
{
    proof {
        lemma_remove(old(s)@, j as int);
        lemma_lookup_at(old(s)@, j as int);
    }
    s.remove(j)
}
} // verus!
