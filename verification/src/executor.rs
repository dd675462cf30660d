//! Running query plans against the storage engine.

use vstd::prelude::*;
use crate::btree::{Entry, has_key, in_range, range_values, lemma_range_values_members};
use crate::keys::lemma_key_order;
use crate::keys::key_equal;
use crate::query::{QueryPlan, Filter, Identifier, projection_names, filter_view};
use crate::schema::{Row, Table};
use crate::storage_engine::{StorageEngine, table_ok, row_has, index_matches, ids_ascend};

verus! {

broadcast use vstd::std_specs::hash::group_hash_axioms;

/// The ids `0` up to `n`, in order.
pub open spec fn all_ids(n: nat) -> Seq<usize> {
    Seq::new(n, |i: int| i as usize)
}

/// The ids below `n` of the rows with `value` in `column`, in order.
pub open spec fn matching_ids(rows: Map<usize, Map<Seq<char>, Seq<char>>>, column: Seq<char>, value: Seq<char>, n: nat) -> Seq<usize>
    decreases n,
{
    if n == 0 {
        Seq::empty()
    } else {
        matching_ids(rows, column, value, (n - 1) as nat) + if row_has(rows, (n - 1) as usize, column, value) {
            seq![(n - 1) as usize]
        } else {
            Seq::empty()
        }
    }
}

/// The index of `column` of table `table` has an entry with key `value`.
pub open spec fn index_hit(engine: StorageEngine, table: Seq<char>, column: Seq<char>, value: Seq<char>) -> bool {
    &&& engine.indexes().contains_key(table)
    &&& engine.indexes()[table].contains_key(column)
    &&& has_key(engine.indexes()[table][column], value)
}

/// The ids of the rows a query reads, in order: all rows without a filter,
/// the rows with the filter's value in its column with one. An index on the
/// column changes only how they are found.
pub open spec fn selected_ids(rows: Map<usize, Map<Seq<char>, Seq<char>>>, filter: Option<(Seq<char>, Seq<char>)>) -> Seq<usize> {
    match filter {
        None => all_ids(rows.len()),
        Some((column, value)) => matching_ids(rows, column, value, rows.len()),
    }
}

/// The named columns of a row: each with the row's value in it, or the empty
/// string where the row has none.
pub open spec fn project_columns(row: Map<Seq<char>, Seq<char>>, columns: Seq<Seq<char>>) -> Map<Seq<char>, Seq<char>> {
    Map::new(
        |k: Seq<char>| columns.contains(k),
        |k: Seq<char>| if row.contains_key(k) { row[k] } else { Seq::empty() },
    )
}

/// A result row: the whole row for the projection `*`, else its named
/// columns.
pub open spec fn project(row: Map<Seq<char>, Seq<char>>, columns: Seq<Seq<char>>) -> Map<Seq<char>, Seq<char>> {
    if columns == seq!["*"@] {
        row
    } else {
        project_columns(row, columns)
    }
}

/// Every id `matching_ids` gives is that of a row with the value.
pub proof fn lemma_matching_ids_are_rows(rows: Map<usize, Map<Seq<char>, Seq<char>>>, column: Seq<char>, value: Seq<char>, n: nat, j: int)
    requires
        0 <= j < matching_ids(rows, column, value, n).len(),
    ensures
        row_has(rows, matching_ids(rows, column, value, n)[j], column, value),
        matching_ids(rows, column, value, n)[j] < n,
    decreases n,
{
    if n > 0 {
        let prev = matching_ids(rows, column, value, (n - 1) as nat);
        if j < prev.len() {
            lemma_matching_ids_are_rows(rows, column, value, (n - 1) as nat, j);
        }
    }
}

/// The description of how a query on `table` with `filter` is run.
pub open spec fn explain_text(engine: StorageEngine, table: Seq<char>, filter: Option<(Seq<char>, Seq<char>)>) -> Seq<char> {
    "query plan:\n"@ + match filter {
        Some((column, value)) => if index_hit(engine, table, column, value) {
            "  - index scan: "@ + table + "."@ + column + "\n"@ + "  - estimated cost: 1 row\n"@
        } else {
            "  - table scan: "@ + table + "\n"@ + "  - estimated cost: unknown\n"@
        },
        None => "  - table scan: "@ + table + "\n"@,
    }
}

/// The ids ascend strictly.
pub open spec fn increasing(s: Seq<usize>) -> bool {
    forall|i: int, j: int| #![trigger s[i], s[j]] 0 <= i < j < s.len() ==> s[i] < s[j]
}

/// Two strictly ascending sequences with the same members are equal.
proof fn lemma_increasing_equal(a: Seq<usize>, b: Seq<usize>)
    requires
        increasing(a),
        increasing(b),
        forall|x: usize| a.contains(x) <==> b.contains(x),
    ensures
        a == b,
    decreases a.len() + b.len(),
{
    if a.len() == 0 {
        if b.len() > 0 {
            assert(b.contains(b[0]));
        }
        assert(a =~= b);
    } else if b.len() == 0 {
        assert(a.contains(a[0]));
    } else {
        let la = a.last();
        let lb = b.last();
        assert(a.contains(la));
        assert(b.contains(lb));
        let i = choose|i: int| 0 <= i < b.len() && b[i] == la;
        let j = choose|j: int| 0 <= j < a.len() && a[j] == lb;
        assert(la <= lb) by {
            if i < b.len() - 1 {
                assert(b[i] < b[b.len() - 1]);
            }
        }
        assert(lb <= la) by {
            if j < a.len() - 1 {
                assert(a[j] < a[a.len() - 1]);
            }
        }
        let a2 = a.drop_last();
        let b2 = b.drop_last();
        assert forall|x: usize| a2.contains(x) <==> b2.contains(x) by {
            if a2.contains(x) {
                let k = choose|k: int| 0 <= k < a2.len() && a2[k] == x;
                assert(a[k] == x);
                assert(a[k] < a[a.len() - 1]);
                assert(a.contains(x));
                let m = choose|m: int| 0 <= m < b.len() && b[m] == x;
                assert(m != b.len() - 1);
                assert(b2[m] == x);
            }
            if b2.contains(x) {
                let k = choose|k: int| 0 <= k < b2.len() && b2[k] == x;
                assert(b[k] == x);
                assert(b[k] < b[b.len() - 1]);
                assert(b.contains(x));
                let m = choose|m: int| 0 <= m < a.len() && a[m] == x;
                assert(m != a.len() - 1);
                assert(a2[m] == x);
            }
        }
        assert forall|p: int, q: int| #![trigger a2[p], a2[q]] 0 <= p < q < a2.len() implies a2[p] < a2[q] by {
            assert(a[p] < a[q]);
        }
        assert forall|p: int, q: int| #![trigger b2[p], b2[q]] 0 <= p < q < b2.len() implies b2[p] < b2[q] by {
            assert(b[p] < b[q]);
        }
        lemma_increasing_equal(a2, b2);
        assert(a =~= a2.push(la));
        assert(b =~= b2.push(lb));
    }
}

/// The matching ids ascend strictly, and are the ids below `n` of the rows
/// with the value.
proof fn lemma_matching_ids_members(rows: Map<usize, Map<Seq<char>, Seq<char>>>, column: Seq<char>, value: Seq<char>, n: nat)
    requires
        n <= usize::MAX + 1,
    ensures
        increasing(matching_ids(rows, column, value, n)),
        forall|x: usize| #[trigger] matching_ids(rows, column, value, n).contains(x) <==> (x < n && row_has(rows, x, column, value)),
    decreases n,
{
    if n > 0 {
        let m = (n - 1) as nat;
        lemma_matching_ids_members(rows, column, value, m);
        let prev = matching_ids(rows, column, value, m);
        let cur = matching_ids(rows, column, value, n);
        let last = if row_has(rows, m as usize, column, value) { seq![m as usize] } else { Seq::<usize>::empty() };
        assert(cur == prev + last);
        assert forall|i: int, j: int| #![trigger cur[i], cur[j]] 0 <= i < j < cur.len() implies cur[i] < cur[j] by {
            if j < prev.len() {
                assert(cur[i] == prev[i] && cur[j] == prev[j]);
            } else {
                assert(cur[i] == prev[i]);
                assert(prev.contains(prev[i]));
                assert(prev[i] < m);
                assert(cur[j] == m as usize);
            }
        }
        assert forall|x: usize| cur.contains(x) <==> (x < n && row_has(rows, x, column, value)) by {
            if cur.contains(x) {
                let k = choose|k: int| 0 <= k < cur.len() && cur[k] == x;
                if k < prev.len() {
                    assert(prev[k] == x);
                    assert(prev.contains(x));
                } else {
                    assert(cur[k] == m as usize);
                    assert(row_has(rows, m as usize, column, value));
                }
            }
            if x < n && row_has(rows, x, column, value) {
                if x < m {
                    assert(prev.contains(x));
                    let k = choose|k: int| 0 <= k < prev.len() && prev[k] == x;
                    assert(cur[k] == x);
                } else {
                    assert(x == m as usize);
                    assert(cur[prev.len() as int] == x);
                }
            }
        }
    } else {
        assert(matching_ids(rows, column, value, n) =~= Seq::<usize>::empty());
    }
}

/// When the row ids of each key ascend, those of the entries with key
/// `value` ascend strictly.
proof fn lemma_point_ids_increasing(e: Seq<Entry>, value: Seq<char>)
    requires
        ids_ascend(e),
    ensures
        increasing(range_values(e, value, value)),
    decreases e.len(),
{
    if e.len() > 0 {
        let t = e.drop_last();
        assert forall|i: int, j: int| #![trigger t[i], t[j]] 0 <= i < j < t.len() && t[i].0 == t[j].0 implies t[i].1 < t[j].1 by {
            assert(t[i] == e[i] && t[j] == e[j]);
        }
        lemma_point_ids_increasing(t, value);
        let rt = range_values(t, value, value);
        lemma_range_values_members(t, value, value);
        let r = range_values(e, value, value);
        let lst = if in_range(e.last().0, value, value) { seq![e.last().1] } else { Seq::<usize>::empty() };
        assert(r == rt + lst);
        assert forall|i: int, j: int| #![trigger r[i], r[j]] 0 <= i < j < r.len() implies r[i] < r[j] by {
            if j < rt.len() {
                assert(r[i] == rt[i] && r[j] == rt[j]);
            } else {
                assert(r[i] == rt[i]);
                assert(rt.contains(rt[i]));
                let k = choose|k: int| 0 <= k < t.len() && in_range(#[trigger] t[k].0, value, value) && t[k].1 == rt[i];
                assert(t[k] == e[k]);
                assert(e[e.len() - 1] == e.last());
                assert(in_range(e.last().0, value, value));
                lemma_key_order(e[k].0, value, value);
                lemma_key_order(e.last().0, value, value);
                assert(e[k].0 == e[e.len() - 1].0);
            }
        }
    } else {
        assert(range_values(e, value, value) =~= Seq::<usize>::empty());
    }
}

/// The row ids of an index's entries with key `value` ascend strictly, and
/// are the ids of the rows with that value.
proof fn lemma_index_point_members(e: Seq<Entry>, rows: Map<usize, Map<Seq<char>, Seq<char>>>, column: Seq<char>, value: Seq<char>)
    requires
        index_matches(e, rows, column),
    ensures
        increasing(range_values(e, value, value)),
        forall|x: usize| #[trigger] range_values(e, value, value).contains(x) <==> row_has(rows, x, column, value),
{
    lemma_point_ids_increasing(e, value);
    lemma_range_values_members(e, value, value);
    assert forall|j: int| 0 <= j < e.len() implies (in_range(#[trigger] e[j].0, value, value) <==> e[j].0 == value) by {
        lemma_key_order(e[j].0, value, value);
    }
    assert forall|x: usize| range_values(e, value, value).contains(x) <==> row_has(rows, x, column, value) by {
        if row_has(rows, x, column, value) {
            assert(e.contains((value, x)));
            let j = choose|j: int| 0 <= j < e.len() && e[j] == (value, x);
            assert(in_range(e[j].0, value, value));
        }
        if range_values(e, value, value).contains(x) {
            let j = choose|j: int| 0 <= j < e.len() && in_range(#[trigger] e[j].0, value, value) && e[j].1 == x;
            assert(e.contains(e[j]));
        }
    }
}

/// An index shows every row with a value: the row ids of its entries with
/// key `value` are exactly the ids of the rows with `value` in the column, in
/// ascending order, as a scan of the table finds them. An index changes how a
/// filtered query finds its rows, never which rows.
pub proof fn lemma_index_gives_matching_rows(e: Seq<Entry>, rows: Map<usize, Map<Seq<char>, Seq<char>>>, column: Seq<char>, value: Seq<char>)
    requires
        index_matches(e, rows, column),
        forall|id: usize| #[trigger] rows.contains_key(id) <==> id < rows.len(),
        rows.len() <= usize::MAX,
    ensures
        range_values(e, value, value) == matching_ids(rows, column, value, rows.len()),
{
    lemma_index_point_members(e, rows, column, value);
    lemma_matching_ids_members(rows, column, value, rows.len());
    assert forall|x: usize| range_values(e, value, value).contains(x) <==> matching_ids(rows, column, value, rows.len()).contains(x) by {
        if row_has(rows, x, column, value) {
            assert(rows.contains_key(x));
        }
    }
    lemma_increasing_equal(range_values(e, value, value), matching_ids(rows, column, value, rows.len()));
}

/// A query reads each row of its table at most once, in row id order:
/// without a filter every row, one result per row; with a filter exactly the
/// rows that have the filter's value in its column.
pub proof fn lemma_query_reads_its_rows(engine: StorageEngine, table: Seq<char>, filter: Option<(Seq<char>, Seq<char>)>)
    requires
        engine.wf(),
        engine.tables().contains_key(table),
    ensures
        ({
            let rows = engine.tables()[table].rows;
            let ids = selected_ids(rows, filter);
            &&& increasing(ids)
            &&& forall|j: int| 0 <= j < ids.len() ==> rows.contains_key(#[trigger] ids[j])
            &&& filter is None ==> ids.len() == rows.len()
            &&& filter is None ==> forall|id: usize| #[trigger] rows.contains_key(id) ==> ids.contains(id)
            &&& forall|c: Seq<char>, v: Seq<char>| filter == Some((c, v)) ==>
                forall|id: usize| #[trigger] ids.contains(id) <==> row_has(rows, id, c, v)
        }),
{
    engine.lemma_row_ids_dense();
    let rows = engine.tables()[table].rows;
    let n = rows.len();
    match filter {
        None => {
            let ids = all_ids(n);
            assert forall|i: int, j: int| #![trigger ids[i], ids[j]] 0 <= i < j < ids.len() implies ids[i] < ids[j] by {}
            assert forall|j: int| 0 <= j < ids.len() implies rows.contains_key(#[trigger] ids[j]) by {
                assert(ids[j] == j as usize);
            }
            assert forall|id: usize| #[trigger] rows.contains_key(id) implies ids.contains(id) by {
                assert(ids[id as int] == id);
            }
        },
        Some((c, v)) => {
            lemma_matching_ids_members(rows, c, v, n);
            let ids = matching_ids(rows, c, v, n);
            assert forall|j: int| 0 <= j < ids.len() implies rows.contains_key(#[trigger] ids[j]) by {
                lemma_matching_ids_are_rows(rows, c, v, n, j);
            }
            assert forall|id: usize| #[trigger] ids.contains(id) <==> row_has(rows, id, c, v) by {
                if row_has(rows, id, c, v) {
                    assert(rows.contains_key(id));
                }
            }
        },
    }
}

/// A filtered query's plan is an index scan on the filter's column exactly
/// when that column has an index holding the filter's value, and a table scan
/// otherwise: whenever that column has no index, whatever other columns of
/// the table are indexed, and whenever its index lacks the value. A query
/// without a filter is a table scan.
pub proof fn lemma_explain_names_the_scan(engine: StorageEngine, table: Seq<char>, column: Seq<char>, value: Seq<char>)
    ensures
        ({
            let indexed = engine.indexes().contains_key(table) && engine.indexes()[table].contains_key(column);
            let index_scan = "query plan:\n"@ + "  - index scan: "@ + table + "."@ + column + "\n"@ + "  - estimated cost: 1 row\n"@;
            let table_scan = "query plan:\n"@ + "  - table scan: "@ + table + "\n"@ + "  - estimated cost: unknown\n"@;
            &&& indexed && has_key(engine.indexes()[table][column], value) ==> explain_text(engine, table, Some((column, value))) == index_scan
            &&& !indexed ==> explain_text(engine, table, Some((column, value))) == table_scan
            &&& !has_key(engine.indexes()[table][column], value) ==> explain_text(engine, table, Some((column, value))) == table_scan
            &&& explain_text(engine, table, None) == "query plan:\n"@ + "  - table scan: "@ + table + "\n"@
        }),
{
    assert("query plan:\n"@ + ("  - index scan: "@ + table + "."@ + column + "\n"@ + "  - estimated cost: 1 row\n"@)
        =~= "query plan:\n"@ + "  - index scan: "@ + table + "."@ + column + "\n"@ + "  - estimated cost: 1 row\n"@);
    assert("query plan:\n"@ + ("  - table scan: "@ + table + "\n"@ + "  - estimated cost: unknown\n"@)
        =~= "query plan:\n"@ + "  - table scan: "@ + table + "\n"@ + "  - estimated cost: unknown\n"@);
    assert("query plan:\n"@ + ("  - table scan: "@ + table + "\n"@) =~= "query plan:\n"@ + "  - table scan: "@ + table + "\n"@);
}

/// How a query is run depends on the index of the filter's column alone: two
/// engines whose indexes of that column agree explain the query alike,
/// whatever indexes of other columns or tables either has.
pub proof fn lemma_explain_depends_on_filter_column(e1: StorageEngine, e2: StorageEngine, table: Seq<char>, column: Seq<char>, value: Seq<char>)
    requires
        (e1.indexes().contains_key(table) && e1.indexes()[table].contains_key(column))
            == (e2.indexes().contains_key(table) && e2.indexes()[table].contains_key(column)),
        e1.indexes().contains_key(table) && e1.indexes()[table].contains_key(column)
            ==> e1.indexes()[table][column] == e2.indexes()[table][column],
    ensures
        explain_text(e1, table, Some((column, value))) == explain_text(e2, table, Some((column, value))),
{
    lemma_explain_names_the_scan(e1, table, column, value);
    lemma_explain_names_the_scan(e2, table, column, value);
}

/// A result row holds the projected columns and nothing else: for `*` the
/// whole row; for a list of names each named column, with the row's value in
/// it, or the empty string when the row has none; projecting onto all the
/// columns of a row gives the row back.
pub proof fn lemma_projection_reads_row(row: Map<Seq<char>, Seq<char>>, names: Seq<Seq<char>>)
    ensures
        project(row, seq!["*"@]) == row,
        names != seq!["*"@] ==> forall|k: Seq<char>| #[trigger] project(row, names).contains_key(k) <==> names.contains(k),
        names != seq!["*"@] ==> forall|k: Seq<char>| names.contains(k) && #[trigger] row.contains_key(k) ==> project(row, names)[k] == row[k],
        names != seq!["*"@] ==> forall|k: Seq<char>| names.contains(k) && !row.contains_key(k) ==> #[trigger] project(row, names)[k] == Seq::<char>::empty(),
        names != seq!["*"@] && (forall|k: Seq<char>| names.contains(k) <==> #[trigger] row.contains_key(k)) ==> project(row, names) == row,
{
    if names != seq!["*"@] && (forall|k: Seq<char>| names.contains(k) <==> #[trigger] row.contains_key(k)) {
        assert(project(row, names) =~= row);
    }
}

/// A failed execution.
#[derive(Debug)]
pub enum ExecutionError {
    TableNotFound(String),
}

/// Runs query plans on a storage engine.
pub struct ExecutionEngine {
    storage_engine: StorageEngine,
}

impl ExecutionEngine {
    /// The engine the queries run on.
    pub closed spec fn engine(&self) -> StorageEngine {
        self.storage_engine
    }

    /// The engine is well formed.
    pub closed spec fn wf(&self) -> bool {
        self.storage_engine.wf()
    }

    /// An executor running queries on `storage_engine`.
    pub fn new(storage_engine: StorageEngine) -> (r: Self)
        requires
            storage_engine.wf(),
        ensures
            r.wf(),
            r.engine() == storage_engine,
    {
        ExecutionEngine { storage_engine }
    }

    /// Runs `query_plan`: the projected columns of the rows it selects, in the
    /// order of `selected_ids`, whether or not the filter's column has an
    /// index. Fails when the table does not exist.
    pub fn execute(&self, query_plan: QueryPlan) -> (r: Result<Vec<Row>, ExecutionError>)
        requires
            self.wf(),
        ensures
            match r {
                Ok(rows) => {
                    let t = query_plan.table@;
                    let table = self.engine().tables()[t];
                    let ids = selected_ids(table.rows, filter_view(query_plan.filter));
                    &&& self.engine().tables().contains_key(t)
                    &&& rows@.len() == ids.len()
                    &&& forall|j: int| 0 <= j < ids.len() ==> (#[trigger] rows@[j]).wf()
                        && rows@[j]@ == project(table.rows[ids[j]], projection_names(query_plan.projection@))
                },
                Err(ExecutionError::TableNotFound(name)) => {
                    &&& !self.engine().tables().contains_key(query_plan.table@)
                    &&& name@ == query_plan.table@
                },
            },
    {
        let table = match self.storage_engine.get_table(query_plan.table.as_str()) {
            Some(t) => t,
            None => return Err(ExecutionError::TableNotFound(query_plan.table.clone())),
        };
        let ghost t = query_plan.table@;
        let ghost rows = table@.rows;
        proof {
            self.storage_engine.lemma_indexes_match_tables();
            assert(rows.dom() =~= table.rows@.dom());
        }
        let row_ids: Vec<usize> = match &query_plan.filter {
            Some(filter) => {
                match self.storage_engine.search_index(query_plan.table.as_str(), filter.column.as_str(), filter.value.as_str()) {
                    Some(ids) => ids,
                    None => Self::table_scan_with_filter(table, filter),
                }
            },
            None => Self::all_row_ids(table),
        };
        proof {
            match query_plan.filter {
                Some(f) => {
                    if index_hit(self.storage_engine, t, f.column@, f.value@) {
                        let e = self.storage_engine.indexes()[t][f.column@];
                        assert(index_matches(e, rows, f.column@));
                        lemma_index_gives_matching_rows(e, rows, f.column@, f.value@);
                    }
                },
                None => {},
            }
            assert(row_ids@ == selected_ids(rows, filter_view(query_plan.filter)));
            assert forall|j: int| 0 <= j < row_ids@.len() implies rows.contains_key(#[trigger] row_ids@[j]) by {
                match query_plan.filter {
                    Some(f) => {
                        lemma_matching_ids_are_rows(rows, f.column@, f.value@, rows.len(), j);
                    },
                    None => {},
                }
            }
        }
        let ghost names = projection_names(query_plan.projection@);
        let mut results: Vec<Row> = Vec::new();
        let mut k: usize = 0;
        while k < row_ids.len()
            invariant
                table_ok(*table),
                rows == table@.rows,
                names == projection_names(query_plan.projection@),
                k <= row_ids@.len(),
                results@.len() == k,
                forall|j: int| 0 <= j < row_ids@.len() ==> rows.contains_key(#[trigger] row_ids@[j]),
                forall|j: int| 0 <= j < k ==> (#[trigger] results@[j]).wf()
                    && results@[j]@ == project(rows[row_ids@[j]], names),
            decreases row_ids@.len() - k,
        {
            let row_id = row_ids[k];
            match table.rows.get(&row_id) {
                Some(row) => {
                    let result = Self::project_row(row, &query_plan.projection);
                    results.push(result);
                },
                None => {
                    proof {
                        assert(rows.contains_key(row_ids@[k as int]));
                    }
                },
            }
            k += 1;
        }
        proof {
            assert(self.engine().tables()[t].rows == rows);
        }
        Ok(results)
    }

    /// The projected columns of `row`: each with the row's value in it, or
    /// the empty string.
    /// The projected columns of `row`: the whole row for `*`, else each named
    /// column with the row's value in it, or the empty string.
    fn project_row(row: &Row, projection: &Vec<Identifier>) -> (result: Row)
        requires
            row.wf(),
        ensures
            result.wf(),
            result@ == project(row@, projection_names(projection@)),
    {
        if projection.len() == 1 && key_equal(projection[0].0.as_str(), "*") {
            proof {
                assert(projection_names(projection@) =~= seq!["*"@]);
            }
            return row.clone();
        }
        proof {
            let ns = projection_names(projection@);
            if ns == seq!["*"@] {
                assert(ns.len() == 1);
                assert(projection@.len() == 1);
                assert(ns[0] == "*"@);
                assert(ns[0] == projection@[0].0@);
            }
        }
        let ghost names = projection_names(projection@);
        let mut result = Row::new();
        let mut i: usize = 0;
        while i < projection.len()
            invariant
                row.wf(),
                result.wf(),
                names == projection_names(projection@),
                i <= projection@.len(),
                result@ == project_columns(row@, names.take(i as int)),
            decreases projection@.len() - i,
        {
            let name = &projection[i].0;
            let value = match row.get(name.as_str()) {
                Some(v) => v.clone(),
                None => String::new(),
            };
            result.set(name.clone(), value);
            proof {
                let ts = names.take(i as int);
                let ts2 = names.take(i + 1);
                assert(ts2 =~= ts.push(name@));
                assert(ts2[i as int] == name@);
                assert forall|k: Seq<char>| ts2.contains(k) <==> (ts.contains(k) || k == name@) by {
                    if ts.contains(k) {
                        let j = choose|j: int| 0 <= j < ts.len() && ts[j] == k;
                        assert(ts2[j] == k);
                    }
                    if ts2.contains(k) {
                        let j = choose|j: int| 0 <= j < ts2.len() && ts2[j] == k;
                        if j < i {
                            assert(ts[j] == k);
                        }
                    }
                }
                assert(result@ =~= project_columns(row@, ts2));
            }
            i += 1;
        }
        proof {
            assert(names.take(projection@.len() as int) =~= names);
        }
        result
    }

    /// The ids of all rows of `table`, in order.
    fn all_row_ids(table: &Table) -> (ids: Vec<usize>)
        requires
            table_ok(*table),
        ensures
            ids@ == all_ids(table@.rows.len()),
    {
        let n = table.rows.len();
        proof {
            assert(table@.rows.dom() =~= table.rows@.dom());
        }
        let mut ids = Vec::new();
        let mut i: usize = 0;
        while i < n
            invariant
                i <= n,
                ids@ == all_ids(i as nat),
            decreases n - i,
        {
            ids.push(i);
            proof {
                assert(ids@ =~= all_ids((i + 1) as nat));
            }
            i += 1;
        }
        ids
    }

    /// The ids of the rows of `table` with the filter's value in its column,
    /// in order.
    fn table_scan_with_filter(table: &Table, filter: &Filter) -> (ids: Vec<usize>)
        requires
            table_ok(*table),
        ensures
            ids@ == matching_ids(table@.rows, filter.column@, filter.value@, table@.rows.len()),
    {
        let n = table.rows.len();
        let ghost rows = table@.rows;
        proof {
            assert(rows.dom() =~= table.rows@.dom());
        }
        let mut ids = Vec::new();
        let mut i: usize = 0;
        while i < n
            invariant
                table_ok(*table),
                rows == table@.rows,
                n == table.rows@.len(),
                i <= n,
                ids@ == matching_ids(rows, filter.column@, filter.value@, i as nat),
            decreases n - i,
        {
            match table.rows.get(&i) {
                Some(row) => {
                    match row.get(filter.column.as_str()) {
                        Some(v) => {
                            if key_equal(v.as_str(), filter.value.as_str()) {
                                ids.push(i);
                            }
                        },
                        None => {},
                    }
                },
                None => {},
            }
            proof {
                assert(table.rows@.contains_key(i));
                assert(ids@ =~= matching_ids(rows, filter.column@, filter.value@, (i + 1) as nat));
            }
            i += 1;
        }
        ids
    }

    /// Describes how `query_plan` would be run.
    pub fn explain(&self, query_plan: &QueryPlan) -> (plan: String)
        requires
            self.wf(),
        ensures
            plan@ == explain_text(self.engine(), query_plan.table@, filter_view(query_plan.filter)),
    {
        let mut plan = String::from_str("query plan:\n");
        match &query_plan.filter {
            Some(filter) => {
                if self.storage_engine.search_index(query_plan.table.as_str(), filter.column.as_str(), filter.value.as_str()).is_some() {
                    plan.append("  - index scan: ");
                    plan.append(query_plan.table.as_str());
                    plan.append(".");
                    plan.append(filter.column.as_str());
                    plan.append("\n");
                    plan.append("  - estimated cost: 1 row\n");
                } else {
                    plan.append("  - table scan: ");
                    plan.append(query_plan.table.as_str());
                    plan.append("\n");
                    plan.append("  - estimated cost: unknown\n");
                }
            },
            None => {
                plan.append("  - table scan: ");
                plan.append(query_plan.table.as_str());
                plan.append("\n");
            },
        }
        proof {
            assert(plan@ =~= explain_text(self.engine(), query_plan.table@, filter_view(query_plan.filter)));
        }
        plan
    }
}

} // verus!
