//! Rows and tables.

use std::collections::HashMap;
use vstd::prelude::*;
use crate::assoc::{unique_keys, to_map, lookup, position, last_position, lemma_push, lemma_update, lemma_lookup_some, lemma_lookup_at, lemma_lookup_exists};
use vstd::std_specs::cmp::PartialEqSpecImpl;
use crate::keys::key_equal;

verus! {

broadcast use vstd::std_specs::hash::group_hash_axioms;

/// A row: values by column name.
#[derive(Debug, Eq)]
pub struct Row {
    data: Vec<(String, String)>,
}

impl View for Row {
    type V = Map<Seq<char>, Seq<char>>;

    /// The row's values by column name.
    closed spec fn view(&self) -> Map<Seq<char>, Seq<char>> {
        to_map(self.data@).map_values(|v: String| v@)
    }
}

impl Row {
    /// No column occurs twice among the row's pairs.
    pub closed spec fn wf(&self) -> bool {
        unique_keys(self.data@)
    }

    /// An empty row.
    pub fn new() -> (row: Self)
        ensures
            row.wf(),
            row@ == Map::<Seq<char>, Seq<char>>::empty(),
    {
        let row = Row { data: Vec::new() };
        assert(row@ =~= Map::<Seq<char>, Seq<char>>::empty());
        row
    }

    /// Sets the value of `column`, replacing any value it had.
    pub fn set(&mut self, column: String, value: String)
        requires
            old(self).wf(),
        ensures
            final(self).wf(),
            final(self)@ == old(self)@.insert(column@, value@),
    {
        let ghost s = self.data@;
        let ghost c = column;
        let ghost v = value;
        match position(&self.data, column.as_str()) {
            Some(j) => {
                proof {
                    lemma_update(s, j as int, c, v);
                }
                self.data.set(j, (column, value));
            },
            None => {
                proof {
                    lemma_push(s, c, v);
                }
                self.data.push((column, value));
            },
        }
        proof {
            assert(self@ =~= old(self)@.insert(c@, v@));
        }
    }

    /// The value of `column`, if the row has one.
    pub fn get(&self, column: &str) -> (r: Option<&String>)
        requires
            self.wf(),
        ensures
            match r {
                Some(v) => self@.contains_key(column@) && self@[column@] == v@,
                None => !self@.contains_key(column@),
            },
    {
        proof {
            lemma_lookup_some(self.data@, column@);
        }
        match position(&self.data, column) {
            Some(j) => {
                proof {
                    lemma_lookup_at(self.data@, j as int);
                }
                Some(&self.data[j].1)
            },
            None => None,
        }
    }

    /// The row's column and value pairs; no column occurs twice.
    pub fn pairs(&self) -> (r: &Vec<(String, String)>)
        requires
            self.wf(),
        ensures
            unique_keys(r@),
            to_map(r@).map_values(|v: String| v@) == self@,
    {
        &self.data
    }
}

impl Clone for Row {
    /// A copy of the row: the same columns with the same values.
    fn clone(&self) -> (r: Self)
        ensures
            r@ == self@,
            r.wf() == self.wf(),
    {
        let mut data: Vec<(String, String)> = Vec::new();
        let mut i: usize = 0;
        while i < self.data.len()
            invariant
                i <= self.data@.len(),
                data@ == self.data@.take(i as int),
            decreases self.data@.len() - i,
        {
            let pair = (self.data[i].0.clone(), self.data[i].1.clone());
            data.push(pair);
            proof {
                assert(data@ =~= self.data@.take(i + 1));
            }
            i += 1;
        }
        proof {
            assert(data@ =~= self.data@);
        }
        Row { data }
    }
}

impl PartialEq for Row {
    /// Two rows are equal when they have the same columns with the same
    /// values, in whatever order the columns were set.
    fn eq(&self, other: &Self) -> (r: bool) {
        let ghost a = self.data@;
        let ghost b = other.data@;
        let mut i: usize = 0;
        while i < self.data.len()
            invariant
                a == self.data@,
                b == other.data@,
                i <= a.len(),
                forall|j: int| 0 <= j < i ==> {
                    let k = (#[trigger] a[j]).0@;
                    &&& lookup(b, k) is Some
                    &&& lookup(a, k) is Some
                    &&& (lookup(a, k)->0)@ == (lookup(b, k)->0)@
                },
            decreases a.len() - i,
        {
            let key = self.data[i].0.as_str();
            let ja = match last_position(&self.data, key) {
                Some(j) => j,
                None => {
                    proof {
                        lemma_lookup_exists(a, a[i as int].0@);
                    }
                    return false;
                },
            };
            let jb = match last_position(&other.data, key) {
                Some(j) => j,
                None => {
                    proof {
                        assert(!to_map(b).contains_key(a[i as int].0@));
                        assert(to_map(a).contains_key(a[i as int].0@));
                        assert(!self@.contains_key(a[i as int].0@) || !other@.contains_key(a[i as int].0@) || self@ != other@);
                        assert(!other@.contains_key(a[i as int].0@));
                    }
                    return false;
                },
            };
            if !key_equal(self.data[ja].1.as_str(), other.data[jb].1.as_str()) {
                proof {
                    let k = a[i as int].0@;
                    assert(self@[k] == (lookup(a, k)->0)@);
                    assert(other@[k] == (lookup(b, k)->0)@);
                    assert(self@[k] != other@[k]);
                }
                return false;
            }
            i += 1;
        }
        let mut i: usize = 0;
        while i < other.data.len()
            invariant
                a == self.data@,
                b == other.data@,
                i <= b.len(),
                forall|j: int| 0 <= j < i ==> lookup(a, (#[trigger] b[j]).0@) is Some,
            decreases b.len() - i,
        {
            match last_position(&self.data, other.data[i].0.as_str()) {
                Some(_) => {},
                None => {
                    proof {
                        let k = b[i as int].0@;
                        lemma_lookup_exists(b, k);
                        assert(other@.contains_key(k));
                        assert(!self@.contains_key(k));
                    }
                    return false;
                },
            }
            i += 1;
        }
        proof {
            assert forall|k: Seq<char>| self@.contains_key(k) <==> other@.contains_key(k) by {
                lemma_lookup_exists(a, k);
                lemma_lookup_exists(b, k);
            }
            assert forall|k: Seq<char>| #[trigger] self@.contains_key(k) implies self@[k] == other@[k] by {
                lemma_lookup_exists(a, k);
                let j = choose|j: int| 0 <= j < a.len() && (#[trigger] a[j]).0@ == k;
                assert(a[j].0@ == k);
            }
            assert(self@ =~= other@);
        }
        true
    }
}

impl PartialEqSpecImpl for Row {
    open spec fn obeys_eq_spec() -> bool {
        true
    }

    open spec fn eq_spec(&self, other: &Row) -> bool {
        self@ == other@
    }
}

/// Setting a column and then reading it gives the value set; every other
/// column keeps what it had.
pub proof fn lemma_get_after_set(before: Map<Seq<char>, Seq<char>>, after: Map<Seq<char>, Seq<char>>, column: Seq<char>, value: Seq<char>, other: Seq<char>)
    requires
        after == before.insert(column, value),
    ensures
        after.contains_key(column),
        after[column] == value,
        other != column ==> after.contains_key(other) == before.contains_key(other),
        other != column && before.contains_key(other) ==> after[other] == before[other],
{
}

/// What a table holds: its column names and its rows by row id.
pub struct TableView {
    pub columns: Seq<Seq<char>>,
    pub rows: Map<usize, Map<Seq<char>, Seq<char>>>,
}

/// A table: its column names and its rows by row id.
#[derive(Debug, Clone, PartialEq, Eq)]
pub struct Table {
    pub columns: Vec<String>,
    pub rows: HashMap<usize, Row>,
}

impl View for Table {
    type V = TableView;

    open spec fn view(&self) -> TableView {
        TableView {
            columns: self.columns@.map_values(|c: String| c@),
            rows: self.rows@.map_values(|r: Row| r@),
        }
    }
}

impl Table {
    /// The row ids are `0` up to the number of rows.
    pub open spec fn rows_dense(&self) -> bool {
        forall|id: usize| #[trigger] self.rows@.contains_key(id) <==> id < self.rows@.len()
    }
}

} // verus!
