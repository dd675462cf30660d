//! Tables and their indexes.

use std::collections::HashMap;
use vstd::prelude::*;
use crate::assoc::{unique_keys, to_map, position, put, take, lemma_lookup_at, lemma_lookup_absent, lemma_lookup_some};
use crate::btree::{BTreeIndex, Entry, sorted, has_key, inserted, inserted_at_position, range_values, lemma_insert_then_lookup, lemma_inserted_sorted, lemma_point_range};
use crate::schema::{Row, Table, TableView};
use crate::wal::WALEntry;
use crate::keys::{key_lt, key_le, lemma_key_order};

verus! {

broadcast use vstd::std_specs::hash::group_hash_axioms;

/// Row `id` of `rows` has `value` in `column`.
pub open spec fn row_has(rows: Map<usize, Map<Seq<char>, Seq<char>>>, id: usize, column: Seq<char>, value: Seq<char>) -> bool {
    &&& rows.contains_key(id)
    &&& rows[id].contains_key(column)
    &&& rows[id][column] == value
}

/// Among entries with one key, the row ids ascend.
pub open spec fn ids_ascend(e: Seq<Entry>) -> bool {
    forall|i: int, j: int| #![trigger e[i], e[j]] 0 <= i < j < e.len() && e[i].0 == e[j].0 ==> e[i].1 < e[j].1
}

/// The index entries `e` of `column` are, in key order and each once, the
/// values the rows have in that column with the ids of those rows; entries
/// with one key are in the order of their row ids.
pub open spec fn index_matches(e: Seq<Entry>, rows: Map<usize, Map<Seq<char>, Seq<char>>>, column: Seq<char>) -> bool {
    &&& sorted(e)
    &&& e.no_duplicates()
    &&& ids_ascend(e)
    &&& forall|x: Entry| #[trigger] e.contains(x) <==> row_has(rows, x.1, column, x.0)
}

/// Entry `a` comes before entry `b` in an index: a lower key, or the same key
/// and a lower row id.
pub open spec fn entry_lt(a: Entry, b: Entry) -> bool {
    key_lt(a.0, b.0) || (a.0 == b.0 && a.1 < b.1)
}

/// The entries strictly ascend in key and row id order.
pub open spec fn entries_ascend(e: Seq<Entry>) -> bool {
    forall|i: int, j: int| #![trigger e[i], e[j]] 0 <= i < j < e.len() ==> entry_lt(e[i], e[j])
}

proof fn lemma_entry_lt_order(a: Entry, b: Entry, c: Entry)
    ensures
        !entry_lt(a, a),
        entry_lt(a, b) && entry_lt(b, c) ==> entry_lt(a, c),
{
    lemma_key_order(a.0, b.0, c.0);
    lemma_key_order(a.0, a.0, a.0);
}

/// The entries of an index that matches its rows strictly ascend.
proof fn lemma_index_entries_ascend(e: Seq<Entry>, rows: Map<usize, Map<Seq<char>, Seq<char>>>, column: Seq<char>)
    requires
        index_matches(e, rows, column),
    ensures
        entries_ascend(e),
{
    assert forall|i: int, j: int| #![trigger e[i], e[j]] 0 <= i < j < e.len() implies entry_lt(e[i], e[j]) by {
        lemma_key_order(e[i].0, e[j].0, e[j].0);
    }
}

/// Two strictly ascending sequences of entries with the same members are
/// equal.
proof fn lemma_ascending_equal(a: Seq<Entry>, b: Seq<Entry>)
    requires
        entries_ascend(a),
        entries_ascend(b),
        forall|x: Entry| a.contains(x) <==> b.contains(x),
    ensures
        a == b,
    decreases a.len() + b.len(),
{
    if a.len() == 0 {
        if b.len() > 0 {
            assert(b.contains(b[0]));
        }
        assert(a =~= b);
    } else if b.len() == 0 {
        assert(a.contains(a[0]));
    } else {
        let la = a.last();
        let lb = b.last();
        assert(a.contains(la));
        assert(b.contains(lb));
        let i = choose|i: int| 0 <= i < b.len() && b[i] == la;
        let j = choose|j: int| 0 <= j < a.len() && a[j] == lb;
        if i < b.len() - 1 && j < a.len() - 1 {
            assert(entry_lt(b[i], b[b.len() - 1]));
            assert(entry_lt(a[j], a[a.len() - 1]));
            lemma_entry_lt_order(la, lb, la);
        }
        assert(la == lb);
        let a2 = a.drop_last();
        let b2 = b.drop_last();
        assert forall|x: Entry| a2.contains(x) <==> b2.contains(x) by {
            if a2.contains(x) {
                let k = choose|k: int| 0 <= k < a2.len() && a2[k] == x;
                assert(a[k] == x);
                assert(entry_lt(a[k], a[a.len() - 1]));
                lemma_entry_lt_order(x, x, x);
                assert(a.contains(x));
                let m = choose|m: int| 0 <= m < b.len() && b[m] == x;
                assert(m != b.len() - 1);
                assert(b2[m] == x);
            }
            if b2.contains(x) {
                let k = choose|k: int| 0 <= k < b2.len() && b2[k] == x;
                assert(b[k] == x);
                assert(entry_lt(b[k], b[b.len() - 1]));
                lemma_entry_lt_order(x, x, x);
                assert(b.contains(x));
                let m = choose|m: int| 0 <= m < a.len() && a[m] == x;
                assert(m != a.len() - 1);
                assert(a2[m] == x);
            }
        }
        assert forall|p: int, q: int| #![trigger a2[p], a2[q]] 0 <= p < q < a2.len() implies entry_lt(a2[p], a2[q]) by {
            assert(entry_lt(a[p], a[q]));
        }
        assert forall|p: int, q: int| #![trigger b2[p], b2[q]] 0 <= p < q < b2.len() implies entry_lt(b2[p], b2[q]) by {
            assert(entry_lt(b[p], b[q]));
        }
        lemma_ascending_equal(a2, b2);
        assert(a =~= a2.push(la));
        assert(b =~= b2.push(lb));
    }
}

/// The rows fix an index: two index entry sequences that both match the
/// rows in a column are the same.
pub proof fn lemma_index_matches_unique(e1: Seq<Entry>, e2: Seq<Entry>, rows: Map<usize, Map<Seq<char>, Seq<char>>>, column: Seq<char>)
    requires
        index_matches(e1, rows, column),
        index_matches(e2, rows, column),
    ensures
        e1 == e2,
{
    lemma_index_entries_ascend(e1, rows, column);
    lemma_index_entries_ascend(e2, rows, column);
    assert forall|x: Entry| e1.contains(x) <==> e2.contains(x) by {
        assert(e1.contains(x) <==> row_has(rows, x.1, column, x.0));
        assert(e2.contains(x) <==> row_has(rows, x.1, column, x.0));
    }
    lemma_ascending_equal(e1, e2);
}

/// Inserting an entry whose row id is above every row id of the index keeps
/// the row ids of each key ascending.
proof fn lemma_inserted_ids_ascend(old: Seq<Entry>, new: Seq<Entry>, e: Entry)
    requires
        inserted(old, new, e),
        ids_ascend(old),
        forall|j: int| 0 <= j < old.len() ==> (#[trigger] old[j]).1 < e.1,
    ensures
        ids_ascend(new),
{
    let p = choose|p: int| #[trigger] inserted_at_position(old, new, e, p);
    old.insert_ensures(p, e);
    assert forall|i: int, j: int| #![trigger new[i], new[j]] 0 <= i < j < new.len() && new[i].0 == new[j].0 implies new[i].1 < new[j].1 by {
        if j < p {
            assert(new[i] == old[i] && new[j] == old[j]);
        } else if j == p {
            assert(new[i] == old[i]);
        } else if i == p {
            assert(new[j] == old[j - 1]);
            assert(key_lt(e.0, old[j - 1].0));
            lemma_key_order(e.0, e.0, e.0);
        } else if i < p {
            assert(new[i] == old[i] && new[j] == old[j - 1]);
            assert(key_le(old[i].0, e.0));
            assert(key_lt(e.0, old[j - 1].0));
            lemma_key_order(old[i].0, e.0, old[j - 1].0);
            lemma_key_order(old[i].0, old[i].0, old[i].0);
        } else {
            assert(new[i] == old[i - 1] && new[j] == old[j - 1]);
        }
    }
}

/// A unique-keyed list has as many keys as its map, and a key is in the map
/// exactly when some pair has it.
proof fn lemma_keys_of<T>(s: Seq<(String, T)>)
    requires
        unique_keys(s),
    ensures
        to_map(s).dom().finite(),
        to_map(s).len() == s.len(),
        forall|n: Seq<char>| to_map(s).contains_key(n) <==> exists|i: int| 0 <= i < s.len() && (#[trigger] s[i]).0@ == n,
    decreases s.len(),
{
    assert forall|n: Seq<char>| to_map(s).contains_key(n) <==> exists|i: int| 0 <= i < s.len() && (#[trigger] s[i]).0@ == n by {
        lemma_lookup_some(s, n);
    }
    if s.len() == 0 {
        assert(to_map(s).dom() =~= Set::<Seq<char>>::empty());
    } else {
        let t = s.drop_last();
        assert forall|a: int, b: int| #![trigger t[a], t[b]] 0 <= a < t.len() && 0 <= b < t.len() && t[a].0@ == t[b].0@ implies a == b by {
            assert(t[a] == s[a] && t[b] == s[b]);
        }
        lemma_keys_of(t);
        let k = s.last().0@;
        assert forall|i: int| 0 <= i < t.len() implies (#[trigger] t[i]).0@ != k by {
            assert(t[i] == s[i]);
            assert(s.last() == s[s.len() - 1]);
        }
        assert(!to_map(t).contains_key(k));
        assert(to_map(s).dom() =~= to_map(t).dom().insert(k)) by {
            assert forall|n: Seq<char>| to_map(s).contains_key(n) <==> (to_map(t).contains_key(n) || n == k) by {
                lemma_lookup_some(t, n);
            }
        }
    }
}

/// The message of the error for a table that does not exist.
pub open spec fn table_not_found(name: Seq<char>) -> Seq<char> {
    "table "@ + name + " not found"@
}

/// The error for a table that does not exist.
pub fn not_found_message(name: &str) -> (msg: String)
    ensures
        msg@ == table_not_found(name@),
{
    let mut msg = String::from_str("table ");
    msg.append(name);
    msg.append(" not found");
    msg
}

/// The order of the B-trees that indexes are built with.
pub const INDEX_ORDER: usize = 4;

/// The tables by name, with an index per indexed column of each.
#[derive(Debug, Clone)]
pub struct StorageEngine {
    tables: Vec<(String, Table)>,
    indexes: Vec<(String, Vec<(String, BTreeIndex)>)>,
}

/// Rows are numbered from `0` up, and each is well formed.
pub open spec fn table_ok(t: Table) -> bool {
    &&& t.rows_dense()
    &&& t.rows@.len() <= usize::MAX
    &&& forall|id: usize| #[trigger] t.rows@.contains_key(id) ==> t.rows@[id].wf()
}

/// Each column has one index, built well, and holding what the rows hold.
pub open spec fn index_list_ok(l: Seq<(String, BTreeIndex)>, rows: Map<usize, Map<Seq<char>, Seq<char>>>) -> bool {
    &&& unique_keys(l)
    &&& forall|c: Seq<char>| #[trigger] to_map(l).contains_key(c) ==> {
        &&& to_map(l)[c].wf()
        &&& to_map(l)[c].spec_order() >= 2
        &&& index_matches(to_map(l)[c]@, rows, c)
    }
}

/// The entries of each index of a list, by column name.
pub open spec fn index_views(l: Seq<(String, BTreeIndex)>) -> Map<Seq<char>, Seq<Entry>> {
    to_map(l).map_values(|b: BTreeIndex| b@)
}

/// `new` is `old` with table `name` created, or re-created, with `columns`
/// and no rows, and with no indexes.
pub open spec fn created_table(old: StorageEngine, new: StorageEngine, name: Seq<char>, columns: Seq<Seq<char>>) -> bool {
    &&& new.tables() == old.tables().insert(name, TableView { columns, rows: Map::empty() })
    &&& new.indexes() == old.indexes().insert(name, Map::empty())
}

/// The index entries `new_e` of `column` are `old_e` after the row `row` with
/// id `id` is added: with an entry for its value when it has one in `column`.
pub open spec fn index_after_insert(old_e: Seq<Entry>, new_e: Seq<Entry>, row: Map<Seq<char>, Seq<char>>, column: Seq<char>, id: usize) -> bool {
    if row.contains_key(column) {
        inserted(old_e, new_e, (row[column], id))
    } else {
        new_e == old_e
    }
}

/// `new` is `old` with `row` added to table `name` under the next row id `id`,
/// and the table's indexes updated for it.
pub open spec fn inserted_row(old: StorageEngine, new: StorageEngine, name: Seq<char>, row: Map<Seq<char>, Seq<char>>, id: usize) -> bool {
    &&& old.tables().contains_key(name)
    &&& id == old.tables()[name].rows.len()
    &&& new.tables() == old.tables().insert(name, TableView {
        columns: old.tables()[name].columns,
        rows: old.tables()[name].rows.insert(id, row),
    })
    &&& new.indexes().dom() == old.indexes().dom()
    &&& forall|t: Seq<char>| #[trigger] new.indexes().contains_key(t) && t != name ==> new.indexes()[t] == old.indexes()[t]
    &&& new.indexes()[name].dom() == old.indexes()[name].dom()
    &&& forall|c: Seq<char>| #[trigger] old.indexes()[name].contains_key(c) ==>
        index_after_insert(old.indexes()[name][c], new.indexes()[name][c], row, c, id)
}

impl StorageEngine {
    /// The tables by name.
    pub closed spec fn tables(&self) -> Map<Seq<char>, TableView> {
        to_map(self.tables@).map_values(|t: Table| t@)
    }

    /// The entries of each index, by table name and column name.
    pub closed spec fn indexes(&self) -> Map<Seq<char>, Map<Seq<char>, Seq<Entry>>> {
        to_map(self.indexes@).map_values(|l: Vec<(String, BTreeIndex)>| index_views(l@))
    }

    /// Each table has an index list, every table is well formed, and every
    /// index holds exactly what its table's rows hold in its column.
    pub closed spec fn wf(&self) -> bool {
        &&& unique_keys(self.tables@)
        &&& unique_keys(self.indexes@)
        &&& to_map(self.indexes@).dom() == to_map(self.tables@).dom()
        &&& forall|t: Seq<char>| #[trigger] to_map(self.tables@).contains_key(t) ==> table_ok(to_map(self.tables@)[t])
        &&& forall|t: Seq<char>| #[trigger] to_map(self.indexes@).contains_key(t) ==>
            index_list_ok(to_map(self.indexes@)[t]@, to_map(self.tables@)[t]@.rows)
    }

    /// An engine without tables.
    pub fn new() -> (engine: Self)
        ensures
            engine.wf(),
            engine.tables() == Map::<Seq<char>, TableView>::empty(),
            engine.indexes() == Map::<Seq<char>, Map<Seq<char>, Seq<Entry>>>::empty(),
    {
        let engine = StorageEngine { tables: Vec::new(), indexes: Vec::new() };
        proof {
            assert(to_map(engine.tables@) =~= Map::empty());
            assert(to_map(engine.indexes@) =~= Map::empty());
            assert(engine.tables() =~= Map::<Seq<char>, TableView>::empty());
            assert(engine.indexes() =~= Map::<Seq<char>, Map<Seq<char>, Seq<Entry>>>::empty());
        }
        engine
    }

    /// Creates table `name` with `columns` and no rows, replacing any table of
    /// that name together with its indexes.
    pub fn create_table(&mut self, name: &str, columns: Vec<String>)
        requires
            old(self).wf(),
        ensures
            final(self).wf(),
            created_table(*old(self), *final(self), name@, columns@.map_values(|c: String| c@)),
    {
        let ghost cols = columns@;
        let table = Table { columns, rows: HashMap::new() };
        let ghost t = table;
        put(&mut self.tables, String::from_str(name), table);
        let no_indexes: Vec<(String, BTreeIndex)> = Vec::new();
        let ghost l = no_indexes;
        put(&mut self.indexes, String::from_str(name), no_indexes);
        proof {
            let o = *old(self);
            assert(t@.rows =~= Map::<usize, Map<Seq<char>, Seq<char>>>::empty());
            assert(t@.columns == cols.map_values(|c: String| c@));
            assert(self.tables() =~= o.tables().insert(name@, t@));
            assert(to_map(l@) =~= Map::<Seq<char>, BTreeIndex>::empty());
            assert(index_views(l@) =~= Map::<Seq<char>, Seq<Entry>>::empty());
            assert(self.indexes() =~= o.indexes().insert(name@, Map::empty()));
            assert(to_map(self.indexes@).dom() =~= to_map(self.tables@).dom());
            assert forall|n: Seq<char>| #[trigger] to_map(self.tables@).contains_key(n) implies table_ok(to_map(self.tables@)[n]) by {
                if n == name@ {
                    assert(t.rows@ =~= Map::<usize, Row>::empty());
                }
            }
            assert forall|n: Seq<char>| #[trigger] to_map(self.indexes@).contains_key(n) implies
                index_list_ok(to_map(self.indexes@)[n]@, to_map(self.tables@)[n]@.rows) by {
                if n != name@ {
                    assert(to_map(o.indexes@).contains_key(n));
                }
            }
        }
    }

    /// The table called `name`, if there is one.
    pub fn get_table(&self, name: &str) -> (r: Option<&Table>)
        requires
            self.wf(),
        ensures
            match r {
                Some(t) => self.tables().contains_key(name@) && t@ == self.tables()[name@] && table_ok(*t),
                None => !self.tables().contains_key(name@),
            },
    {
        match position(&self.tables, name) {
            Some(j) => {
                proof {
                    lemma_lookup_at(self.tables@, j as int);
                }
                Some(&self.tables[j].1)
            },
            None => {
                proof {
                    lemma_lookup_absent(self.tables@, name@);
                }
                None
            },
        }
    }

    /// Looks `key` up in the index of `column` of table `table_name`. Gives
    /// every row id stored under `key`, in index order, or `None` when there
    /// is no such index or the index has no entry with that key.
    pub fn search_index(&self, table_name: &str, column: &str, key: &str) -> (r: Option<Vec<usize>>)
        requires
            self.wf(),
        ensures
            match r {
                Some(ids) => {
                    &&& self.indexes().contains_key(table_name@)
                    &&& self.indexes()[table_name@].contains_key(column@)
                    &&& has_key(self.indexes()[table_name@][column@], key@)
                    &&& ids@ == range_values(self.indexes()[table_name@][column@], key@, key@)
                },
                None => !(self.indexes().contains_key(table_name@)
                    && self.indexes()[table_name@].contains_key(column@)
                    && has_key(self.indexes()[table_name@][column@], key@)),
            },
    {
        let p = match position(&self.indexes, table_name) {
            Some(p) => p,
            None => {
                proof {
                    lemma_lookup_absent(self.indexes@, table_name@);
                }
                return None;
            },
        };
        proof {
            lemma_lookup_at(self.indexes@, p as int);
        }
        let list = &self.indexes[p].1;
        let q = match position(list, column) {
            Some(q) => q,
            None => {
                proof {
                    lemma_lookup_absent(list@, column@);
                }
                return None;
            },
        };
        proof {
            assert(index_list_ok(list@, to_map(self.tables@)[table_name@]@.rows));
            lemma_lookup_at(list@, q as int);
        }
        let index = &list[q].1;
        let ids = index.range_scan(key, key);
        proof {
            lemma_point_range(index@, key@);
        }
        if ids.len() == 0 {
            None
        } else {
            Some(ids)
        }
    }

    /// Builds an index of `column` of table `table_name` from the table's rows,
    /// replacing any index of that column. Fails when there is no such table.
    pub fn create_index(&mut self, table_name: &str, column: &str) -> (r: Result<(), String>)
        requires
            old(self).wf(),
        ensures
            final(self).wf(),
            match r {
                Ok(()) => {
                    let t = table_name@;
                    let c = column@;
                    &&& old(self).tables().contains_key(t)
                    &&& final(self).tables() == old(self).tables()
                    &&& final(self).indexes() == old(self).indexes().insert(t, old(self).indexes()[t].insert(c, final(self).indexes()[t][c]))
                    &&& index_matches(final(self).indexes()[t][c], old(self).tables()[t].rows, c)
                },
                Err(msg) => {
                    &&& !old(self).tables().contains_key(table_name@)
                    &&& msg@ == table_not_found(table_name@)
                    &&& *final(self) == *old(self)
                },
            },
    {
        let p = match position(&self.tables, table_name) {
            Some(p) => p,
            None => {
                proof {
                    lemma_lookup_absent(self.tables@, table_name@);
                }
                return Err(not_found_message(table_name));
            },
        };
        proof {
            lemma_lookup_at(self.tables@, p as int);
            assert(to_map(self.tables@).contains_key(table_name@));
            assert(table_ok(self.tables@[p as int].1));
        }
        let btree = Self::build_index(&self.tables[p].1, column);
        let ghost b = btree;
        let ghost o = *self;
        proof {
            assert(to_map(self.indexes@).contains_key(table_name@));
        }
        match position(&self.indexes, table_name) {
            Some(q) => {
                let (name, mut list) = take(&mut self.indexes, q);
                let ghost l0 = list@;
                put(&mut list, String::from_str(column), btree);
                let ghost l1 = list@;
                put(&mut self.indexes, name, list);
                proof {
                    let t = table_name@;
                    let rows = to_map(o.tables@)[t]@.rows;
                    assert(to_map(self.indexes@) =~= to_map(o.indexes@).insert(t, to_map(self.indexes@)[t]));
                    assert(to_map(self.indexes@).dom() =~= to_map(self.tables@).dom());
                    assert(index_list_ok(l0, rows));
                    assert forall|c: Seq<char>| #[trigger] to_map(l1).contains_key(c) implies {
                        &&& to_map(l1)[c].wf()
                        &&& to_map(l1)[c].spec_order() >= 2
                        &&& index_matches(to_map(l1)[c]@, rows, c)
                    } by {
                        if c != column@ {
                            assert(to_map(l0).contains_key(c));
                        }
                    }
                    assert forall|n: Seq<char>| #[trigger] to_map(self.indexes@).contains_key(n) implies
                        index_list_ok(to_map(self.indexes@)[n]@, to_map(self.tables@)[n]@.rows) by {
                        if n != t {
                            assert(to_map(o.indexes@).contains_key(n));
                        }
                    }
                    assert(index_views(l1) =~= index_views(l0).insert(column@, b@));
                    assert(self.indexes() =~= o.indexes().insert(t, o.indexes()[t].insert(column@, b@)));
                }
            },
            None => {
                proof {
                    lemma_lookup_absent(self.indexes@, table_name@);
                }
            },
        }
        Ok(())
    }

    /// An index of `column` holding, for each row with a value in that
    /// column, the value and the row's id.
    fn build_index(table: &Table, column: &str) -> (b: BTreeIndex)
        requires
            table_ok(*table),
        ensures
            b.wf(),
            b.spec_order() == INDEX_ORDER,
            index_matches(b@, table@.rows, column@),
    {
        let mut btree = BTreeIndex::new(INDEX_ORDER);
        let n = table.rows.len();
        let ghost rows = table@.rows;
        let mut id: usize = 0;
        while id < n
            invariant
                table_ok(*table),
                rows == table@.rows,
                n == table.rows@.len(),
                id <= n,
                btree.wf(),
                btree.spec_order() == INDEX_ORDER,
                btree@.no_duplicates(),
                ids_ascend(btree@),
                forall|x: Entry| #[trigger] btree@.contains(x) <==> (x.1 < id && row_has(rows, x.1, column@, x.0)),
            decreases n - id,
        {
            let ghost before = btree@;
            match table.rows.get(&id) {
                Some(row) => {
                    match row.get(column) {
                        Some(value) => {
                            let ghost e = (value@, id);
                            btree.insert(value.clone(), id);
                            proof {
                                lemma_insert_then_lookup(before, btree@, e);
                                assert forall|j: int| 0 <= j < before.len() implies (#[trigger] before[j]).1 < e.1 by {
                                    assert(before.contains(before[j]));
                                }
                                lemma_inserted_ids_ascend(before, btree@, e);
                            }
                        },
                        None => {},
                    }
                },
                None => {},
            }
            id += 1;
        }
        proof {
            btree.lemma_entries_sorted();
            assert forall|x: Entry| #[trigger] btree@.contains(x) <==> row_has(rows, x.1, column@, x.0) by {
                if row_has(rows, x.1, column@, x.0) {
                    assert(table.rows@.contains_key(x.1));
                }
            }
        }
        btree
    }

    /// Adds `row` to table `table_name` under the next row id, which it
    /// returns, and adds it to the table's indexes. Fails when there is no
    /// such table.
    pub fn insert_row(&mut self, table_name: &str, row: Row) -> (r: Result<usize, String>)
        requires
            old(self).wf(),
            row.wf(),
        ensures
            final(self).wf(),
            match r {
                Ok(id) => inserted_row(*old(self), *final(self), table_name@, row@, id),
                Err(msg) => {
                    &&& !old(self).tables().contains_key(table_name@)
                    &&& msg@ == table_not_found(table_name@)
                    &&& *final(self) == *old(self)
                },
            },
    {
        let p = match position(&self.tables, table_name) {
            Some(p) => p,
            None => {
                proof {
                    lemma_lookup_absent(self.tables@, table_name@);
                }
                return Err(not_found_message(table_name));
            },
        };
        let ghost o = *self;
        let ghost t = table_name@;
        proof {
            lemma_lookup_at(self.tables@, p as int);
            assert(to_map(self.tables@).contains_key(t));
            assert(to_map(self.indexes@).contains_key(t));
        }
        let row_id = self.tables[p].1.rows.len();
        let ghost rows0 = to_map(o.tables@)[t]@.rows;
        match position(&self.indexes, table_name) {
            Some(q) => {
                let (name, mut list) = take(&mut self.indexes, q);
                let ghost l0 = list@;
                proof {
                    assert(index_list_ok(l0, rows0));
                    let tb = to_map(o.tables@)[t];
                    assert(table_ok(tb));
                    assert(rows0.dom() =~= tb.rows@.dom());
                    assert forall|id: usize| #[trigger] rows0.contains_key(id) implies id < row_id by {
                        assert(tb.rows@.contains_key(id));
                    }
                }
                Self::add_to_indexes(&mut list, &row, row_id, Ghost(rows0));
                let ghost l1 = list;
                let ghost v0 = to_map(o.indexes@)[t];
                put(&mut self.indexes, name, list);
                proof {
                    assert(to_map(self.indexes@) =~= to_map(o.indexes@).insert(t, l1));
                    assert(v0@ == l0);
                    assert(self.indexes()[t] == index_views(l1@));
                    assert(o.indexes()[t] == index_views(l0));
                }
            },
            None => {
                proof {
                    lemma_lookup_absent(self.indexes@, table_name@);
                }
            },
        }
        let ghost row_view = row@;
        let (name, mut table) = take(&mut self.tables, p);
        let ghost t0 = table;
        table.rows.insert(row_id, row);
        proof {
            assert(!t0.rows@.contains_key(row_id));
            assert(table.rows@ == t0.rows@.insert(row_id, row));
            assert(table.rows@.len() == t0.rows@.len() + 1);
            assert(table.rows@.len() == table.rows.len());
            assert forall|id: usize| #[trigger] table.rows@.contains_key(id) implies table.rows@[id].wf() by {
                if id != row_id {
                    assert(t0.rows@.contains_key(id));
                }
            }
            assert(table_ok(table));
            assert(table@.rows =~= rows0.insert(row_id, row_view));
            assert(table@.columns == t0@.columns);
        }
        let ghost t1 = table;
        put(&mut self.tables, name, table);
        proof {
            let rows1 = rows0.insert(row_id, row_view);
            assert(to_map(self.tables@) =~= to_map(o.tables@).insert(t, t1));
            assert(to_map(self.indexes@).dom() =~= to_map(self.tables@).dom());
            assert forall|n: Seq<char>| #[trigger] to_map(self.tables@).contains_key(n) implies table_ok(to_map(self.tables@)[n]) by {
                if n != t {
                    assert(to_map(o.tables@).contains_key(n));
                }
            }
            assert forall|n: Seq<char>| #[trigger] to_map(self.indexes@).contains_key(n) implies
                index_list_ok(to_map(self.indexes@)[n]@, to_map(self.tables@)[n]@.rows) by {
                if n != t {
                    assert(to_map(o.indexes@).contains_key(n));
                }
            }
            assert(self.tables() =~= o.tables().insert(t, TableView { columns: o.tables()[t].columns, rows: rows1 }));
            assert(self.indexes().dom() =~= o.indexes().dom());
            assert forall|n: Seq<char>| #[trigger] self.indexes().contains_key(n) && n != t implies self.indexes()[n] == o.indexes()[n] by {}
            assert(o.tables().contains_key(t));
            assert(rows0.dom() =~= t0.rows@.dom());
            assert(row_id == o.tables()[t].rows.len());
            assert(self.indexes()[t].dom() == o.indexes()[t].dom());
            assert(forall|c: Seq<char>| #[trigger] o.indexes()[t].contains_key(c) ==>
                index_after_insert(o.indexes()[t][c], self.indexes()[t][c], row_view, c, row_id));
        }
        Ok(row_id)
    }

    /// Adds the row with id `row_id` to each index of `list` whose column the
    /// row has a value in.
    fn add_to_indexes(list: &mut Vec<(String, BTreeIndex)>, row: &Row, row_id: usize, Ghost(rows): Ghost<Map<usize, Map<Seq<char>, Seq<char>>>>)
        requires
            index_list_ok(old(list)@, rows),
            row.wf(),
            forall|id: usize| #[trigger] rows.contains_key(id) ==> id < row_id,
        ensures
            index_list_ok(final(list)@, rows.insert(row_id, row@)),
            index_views(final(list)@).dom() == index_views(old(list)@).dom(),
            forall|c: Seq<char>| #[trigger] index_views(old(list)@).contains_key(c) ==>
                index_after_insert(index_views(old(list)@)[c], index_views(final(list)@)[c], row@, c, row_id),
    {
        let ghost l0 = list@;
        let ghost rows1 = rows.insert(row_id, row@);
        let mut j: usize = 0;
        while j < list.len()
            invariant
                index_list_ok(l0, rows),
                row.wf(),
                forall|id: usize| #[trigger] rows.contains_key(id) ==> id < row_id,
                rows1 == rows.insert(row_id, row@),
                j <= list@.len(),
                list@.len() == l0.len(),
                forall|k: int| 0 <= k < l0.len() ==> (#[trigger] list@[k]).0 == l0[k].0,
                forall|k: int| j <= k < l0.len() ==> #[trigger] list@[k] == l0[k],
                forall|k: int| 0 <= k < j ==> {
                    &&& (#[trigger] list@[k]).1.wf()
                    &&& list@[k].1.spec_order() == l0[k].1.spec_order()
                    &&& index_after_insert(l0[k].1@, list@[k].1@, row@, l0[k].0@, row_id)
                },
            decreases l0.len() - j,
        {
            let ghost before = list@;
            let (column, mut index) = list.remove(j);
            proof {
                assert(column == l0[j as int].0 && index == l0[j as int].1);
                lemma_lookup_at(l0, j as int);
                assert(to_map(l0).contains_key(column@));
            }
            match row.get(column.as_str()) {
                Some(value) => {
                    index.insert(value.clone(), row_id);
                },
                None => {},
            }
            list.insert(j, (column, index));
            proof {
                assert(list@ =~= before.update(j as int, list@[j as int]));
            }
            j += 1;
        }
        proof {
            assert forall|a: int, b: int| #![trigger list@[a], list@[b]]
                0 <= a < list@.len() && 0 <= b < list@.len() && list@[a].0@ == list@[b].0@ implies a == b by {
                assert(l0[a].0 == list@[a].0 && l0[b].0 == list@[b].0);
            }
            assert forall|c: Seq<char>| to_map(list@).contains_key(c) <==> to_map(l0).contains_key(c) by {
                lemma_lookup_some(list@, c);
                lemma_lookup_some(l0, c);
                if to_map(l0).contains_key(c) {
                    let k = choose|k: int| 0 <= k < l0.len() && (#[trigger] l0[k]).0@ == c;
                    assert(list@[k].0@ == c);
                }
                if to_map(list@).contains_key(c) {
                    let k = choose|k: int| 0 <= k < list@.len() && (#[trigger] list@[k]).0@ == c;
                    assert(l0[k].0@ == c);
                }
            }
            assert forall|c: Seq<char>| #[trigger] to_map(list@).contains_key(c) implies {
                &&& to_map(list@)[c].wf()
                &&& to_map(list@)[c].spec_order() >= 2
                &&& index_matches(to_map(list@)[c]@, rows1, c)
                &&& index_after_insert(to_map(l0)[c]@, to_map(list@)[c]@, row@, c, row_id)
            } by {
                lemma_lookup_some(list@, c);
                let k = choose|k: int| 0 <= k < list@.len() && (#[trigger] list@[k]).0@ == c;
                lemma_lookup_at(list@, k);
                lemma_lookup_at(l0, k);
                assert(l0[k].0@ == c);
                assert(to_map(l0).contains_key(c));
                let old_e = l0[k].1@;
                let new_e = list@[k].1@;
                assert(index_matches(old_e, rows, c));
                if row@.contains_key(c) {
                    let e = (row@[c], row_id);
                    lemma_insert_then_lookup(old_e, new_e, e);
                    assert(!old_e.contains(e));
                    lemma_inserted_sorted(old_e, new_e, e);
                    assert forall|j: int| 0 <= j < old_e.len() implies (#[trigger] old_e[j]).1 < e.1 by {
                        assert(old_e.contains(old_e[j]));
                    }
                    lemma_inserted_ids_ascend(old_e, new_e, e);
                    assert forall|x: Entry| #[trigger] new_e.contains(x) <==> row_has(rows1, x.1, c, x.0) by {
                        if new_e.contains(x) && x != e {
                            assert(old_e.contains(x));
                        }
                        if row_has(rows1, x.1, c, x.0) && x.1 != row_id {
                            assert(row_has(rows, x.1, c, x.0));
                            assert(old_e.contains(x));
                        }
                    }
                } else {
                    assert forall|x: Entry| #[trigger] new_e.contains(x) <==> row_has(rows1, x.1, c, x.0) by {
                        if row_has(rows1, x.1, c, x.0) {
                            assert(x.1 != row_id);
                            assert(row_has(rows, x.1, c, x.0));
                        }
                        if new_e.contains(x) {
                            assert(row_has(rows, x.1, c, x.0));
                        }
                    }
                }
            }
            assert(index_views(list@).dom() =~= index_views(l0).dom());
        }
    }

    /// Applies a logged change: creates the table, or inserts the row under
    /// the next row id of its table (the id the record carries is not used),
    /// or, for a checkpoint record, nothing.
    pub fn apply_wal_entry(&mut self, entry: WALEntry) -> (r: Result<(), String>)
        requires
            old(self).wf(),
            entry matches WALEntry::InsertRow { row, .. } ==> row.wf(),
        ensures
            final(self).wf(),
            match entry {
                WALEntry::CreateTable { name, columns } => {
                    &&& r is Ok
                    &&& created_table(*old(self), *final(self), name@, columns@.map_values(|c: String| c@))
                },
                WALEntry::InsertRow { table, row, .. } => match r {
                    Ok(()) => inserted_row(*old(self), *final(self), table@, row@, old(self).tables()[table@].rows.len() as usize),
                    Err(msg) => {
                        &&& !old(self).tables().contains_key(table@)
                        &&& msg@ == table_not_found(table@)
                        &&& *final(self) == *old(self)
                    },
                },
                WALEntry::Checkpoint => r is Ok && *final(self) == *old(self),
            },
    {
        match entry {
            WALEntry::CreateTable { name, columns } => {
                self.create_table(name.as_str(), columns);
                Ok(())
            },
            WALEntry::InsertRow { table, row_id: _, row } => {
                match self.insert_row(table.as_str(), row) {
                    Ok(_) => Ok(()),
                    Err(e) => Err(e),
                }
            },
            WALEntry::Checkpoint => Ok(()),
        }
    }

    /// Every index holds, for each row of its table with a value in its
    /// column, that value with the row's id, and nothing else.
    pub proof fn lemma_indexes_match_tables(&self)
        requires
            self.wf(),
        ensures
            forall|t: Seq<char>, c: Seq<char>| #[trigger] self.indexes().contains_key(t) && self.indexes()[t].contains_key(c)
                ==> self.tables().contains_key(t) && index_matches(#[trigger] self.indexes()[t][c], self.tables()[t].rows, c),
            self.indexes().dom() == self.tables().dom(),
    {
        assert forall|t: Seq<char>, c: Seq<char>| #[trigger] self.indexes().contains_key(t) && self.indexes()[t].contains_key(c)
            implies self.tables().contains_key(t) && index_matches(#[trigger] self.indexes()[t][c], self.tables()[t].rows, c) by {
            assert(to_map(self.indexes@).contains_key(t));
            assert(index_list_ok(to_map(self.indexes@)[t]@, to_map(self.tables@)[t]@.rows));
            assert(to_map(to_map(self.indexes@)[t]@).contains_key(c));
        }
        assert(self.indexes().dom() =~= self.tables().dom());
    }

    /// The rows of every table have the ids `0` up to the number of rows.
    pub proof fn lemma_row_ids_dense(&self)
        requires
            self.wf(),
        ensures
            forall|t: Seq<char>, id: usize| #[trigger] self.tables().contains_key(t) ==>
                (#[trigger] self.tables()[t].rows.contains_key(id) <==> id < self.tables()[t].rows.len()),
        forall|t: Seq<char>| #[trigger] self.tables().contains_key(t) ==> self.tables()[t].rows.len() <= usize::MAX,
    {
        assert forall|t: Seq<char>, id: usize| #[trigger] self.tables().contains_key(t) implies
            (#[trigger] self.tables()[t].rows.contains_key(id) <==> id < self.tables()[t].rows.len()) by {
            assert(to_map(self.tables@).contains_key(t));
            let tb = to_map(self.tables@)[t];
            assert(table_ok(tb));
            assert(tb@.rows.dom() =~= tb.rows@.dom());
            assert(tb.rows@.contains_key(id) <==> id < tb.rows@.len());
        }
        assert forall|t: Seq<char>| #[trigger] self.tables().contains_key(t) implies self.tables()[t].rows.len() <= usize::MAX by {
            assert(to_map(self.tables@).contains_key(t));
            let tb = to_map(self.tables@)[t];
            assert(table_ok(tb));
            assert(tb@.rows.dom() =~= tb.rows@.dom());
        }
    }

    /// The names of the tables, each once.
    pub fn table_names(&self) -> (names: Vec<String>)
        requires
            self.wf(),
        ensures
            names@.len() == self.tables().len(),
            forall|i: int, j: int| 0 <= i < j < names@.len() ==> names@[i]@ != names@[j]@,
            forall|n: Seq<char>| self.tables().contains_key(n) <==> exists|i: int| 0 <= i < names@.len() && #[trigger] names@[i]@ == n,
    {
        let mut names: Vec<String> = Vec::new();
        let mut i: usize = 0;
        while i < self.tables.len()
            invariant
                self.wf(),
                i <= self.tables@.len(),
                names@.len() == i,
                forall|k: int| 0 <= k < i ==> #[trigger] names@[k]@ == self.tables@[k].0@,
            decreases self.tables@.len() - i,
        {
            names.push(self.tables[i].0.clone());
            i += 1;
        }
        proof {
            let s = self.tables@;
            lemma_keys_of(s);
            assert(self.tables().dom() =~= to_map(s).dom());
            assert forall|n: Seq<char>| self.tables().contains_key(n) <==> exists|i: int| 0 <= i < names@.len() && #[trigger] names@[i]@ == n by {
                if self.tables().contains_key(n) {
                    let i = choose|i: int| 0 <= i < s.len() && (#[trigger] s[i]).0@ == n;
                    assert(names@[i]@ == n);
                }
                if exists|i: int| 0 <= i < names@.len() && #[trigger] names@[i]@ == n {
                    let i = choose|i: int| 0 <= i < names@.len() && #[trigger] names@[i]@ == n;
                    assert(s[i].0@ == n);
                }
            }
            assert forall|i: int, j: int| 0 <= i < j < names@.len() implies names@[i]@ != names@[j]@ by {
                assert(s[i].0@ == names@[i]@ && s[j].0@ == names@[j]@);
            }
        }
        names
    }

    /// The columns of table `table_name` that have an index, each once; none
    /// when there is no such table.
    pub fn index_columns(&self, table_name: &str) -> (columns: Vec<String>)
        requires
            self.wf(),
        ensures
            self.indexes().contains_key(table_name@) ==> {
                let m = self.indexes()[table_name@];
                &&& columns@.len() == m.len()
                &&& forall|i: int, j: int| 0 <= i < j < columns@.len() ==> columns@[i]@ != columns@[j]@
                &&& forall|c: Seq<char>| m.contains_key(c) <==> exists|i: int| 0 <= i < columns@.len() && #[trigger] columns@[i]@ == c
            },
            !self.indexes().contains_key(table_name@) ==> columns@.len() == 0,
    {
        let mut columns: Vec<String> = Vec::new();
        let p = match position(&self.indexes, table_name) {
            Some(p) => p,
            None => {
                proof {
                    lemma_lookup_absent(self.indexes@, table_name@);
                }
                return columns;
            },
        };
        proof {
            lemma_lookup_at(self.indexes@, p as int);
            assert(to_map(self.indexes@).contains_key(table_name@));
            assert(index_list_ok(self.indexes@[p as int].1@, to_map(self.tables@)[table_name@]@.rows));
        }
        let list = &self.indexes[p].1;
        let mut i: usize = 0;
        while i < list.len()
            invariant
                i <= list@.len(),
                columns@.len() == i,
                forall|k: int| 0 <= k < i ==> #[trigger] columns@[k]@ == list@[k].0@,
            decreases list@.len() - i,
        {
            columns.push(list[i].0.clone());
            i += 1;
        }
        proof {
            let s = list@;
            lemma_keys_of(s);
            let m = self.indexes()[table_name@];
            assert(m.dom() =~= to_map(s).dom());
            assert forall|n: Seq<char>| m.contains_key(n) <==> exists|i: int| 0 <= i < columns@.len() && #[trigger] columns@[i]@ == n by {
                if m.contains_key(n) {
                    let i = choose|i: int| 0 <= i < s.len() && (#[trigger] s[i]).0@ == n;
                    assert(columns@[i]@ == n);
                }
                if exists|i: int| 0 <= i < columns@.len() && #[trigger] columns@[i]@ == n {
                    let i = choose|i: int| 0 <= i < columns@.len() && #[trigger] columns@[i]@ == n;
                    assert(s[i].0@ == n);
                }
            }
            assert forall|i: int, j: int| 0 <= i < j < columns@.len() implies columns@[i]@ != columns@[j]@ by {
                assert(s[i].0@ == columns@[i]@ && s[j].0@ == columns@[j]@);
            }
        }
        columns
    }
}

} // verus!
