//! Recovery at start-up: the saved engine, with the changes logged since it
//! was saved applied in order.

use vstd::prelude::*;
use crate::btree::{Entry, lemma_inserted_unique};
use crate::schema::{Row, TableView};
use crate::storage_engine::{StorageEngine, created_table, inserted_row, table_not_found};
use crate::wal::WALEntry;

verus! {

/// `new` is what applying `entry` to `old` gives when it succeeds: the table
/// created, the row inserted under the next row id, or, for a checkpoint
/// record, nothing changed.
pub open spec fn applied(old: StorageEngine, entry: WALEntry, new: StorageEngine) -> bool {
    match entry {
        WALEntry::CreateTable { name, columns } => created_table(old, new, name@, columns@.map_values(|c: String| c@)),
        WALEntry::InsertRow { table, row, .. } => inserted_row(old, new, table@, row@, old.tables()[table@].rows.len() as usize),
        WALEntry::Checkpoint => new.tables() == old.tables() && new.indexes() == old.indexes(),
    }
}

/// Applying `entry` to `e` fails: it inserts into a table `e` does not have.
pub open spec fn fails_on(e: StorageEngine, entry: WALEntry) -> bool {
    match entry {
        WALEntry::InsertRow { table, .. } => !e.tables().contains_key(table@),
        _ => false,
    }
}

/// The table a failing entry names.
pub open spec fn entry_table(entry: WALEntry) -> Seq<char> {
    match entry {
        WALEntry::InsertRow { table, .. } => table@,
        _ => Seq::empty(),
    }
}

/// The tables of the engine recovery starts from: those saved, or none.
pub open spec fn start_tables(saved: Option<StorageEngine>) -> Map<Seq<char>, TableView> {
    match saved {
        Some(s) => s.tables(),
        None => Map::empty(),
    }
}

/// The indexes of the engine recovery starts from: those saved, or none.
pub open spec fn start_indexes(saved: Option<StorageEngine>) -> Map<Seq<char>, Map<Seq<char>, Seq<Entry>>> {
    match saved {
        Some(s) => s.indexes(),
        None => Map::empty(),
    }
}

/// `states` are the engines met while applying the first `k` entries one by
/// one to the engine recovery starts from: `states[0]` is that engine, and
/// each entry takes one state to the next.
pub open spec fn replay_chain(saved: Option<StorageEngine>, entries: Seq<WALEntry>, k: int, states: Seq<StorageEngine>) -> bool {
    &&& 0 <= k <= entries.len()
    &&& states.len() == k + 1
    &&& states[0].tables() == start_tables(saved)
    &&& states[0].indexes() == start_indexes(saved)
    &&& forall|i: int| 0 <= i < k ==> #[trigger] applied(states[i], entries[i], states[i + 1])
}

/// Applying one entry to one engine has one outcome: two engines it gives
/// hold the same tables and the same index entries, in the same order.
pub proof fn lemma_applied_unique(old: StorageEngine, entry: WALEntry, new1: StorageEngine, new2: StorageEngine)
    requires
        applied(old, entry, new1),
        applied(old, entry, new2),
    ensures
        new1.tables() == new2.tables(),
        new1.indexes() == new2.indexes(),
{
    match entry {
        WALEntry::InsertRow { table, row, .. } => {
            let name = table@;
            let id = old.tables()[name].rows.len() as usize;
            if new1.indexes().contains_key(name) {
                assert forall|c: Seq<char>| #[trigger] new1.indexes()[name].contains_key(c) implies new1.indexes()[name][c] == new2.indexes()[name][c] by {
                    assert(old.indexes()[name].contains_key(c));
                    if row@.contains_key(c) {
                        lemma_inserted_unique(old.indexes()[name][c], new1.indexes()[name][c], new2.indexes()[name][c], (row@[c], id));
                    }
                }
                assert(new1.indexes()[name] =~= new2.indexes()[name]);
            }
            assert(new1.indexes() =~= new2.indexes());
        },
        _ => {},
    }
}

/// Every row that an entry inserts is well formed.
pub open spec fn rows_wf(entries: Seq<WALEntry>) -> bool {
    forall|i: int| 0 <= i < entries.len() ==> (#[trigger] entries[i] matches WALEntry::InsertRow { row, .. } ==> row.wf())
}

/// Rebuilds the engine at start-up: the saved engine, or an empty one when
/// none was saved, with the logged `entries` applied in order. Stops at the
/// first entry that inserts into a missing table, with its error.
pub fn recover(entries: Vec<WALEntry>, saved: Option<StorageEngine>) -> (r: Result<StorageEngine, String>)
    requires
        rows_wf(entries@),
        saved matches Some(s) ==> s.wf(),
    ensures
        ({
            let start = saved;
            match r {
                Ok(e) => {
                    &&& e.wf()
                    &&& exists|states: Seq<StorageEngine>| #[trigger] replay_chain(start, entries@, entries@.len() as int, states)
                        && e.tables() == states.last().tables() && e.indexes() == states.last().indexes()
                },
                Err(m) => exists|k: int, states: Seq<StorageEngine>| {
                    &&& #[trigger] replay_chain(start, entries@, k, states)
                    &&& k < entries@.len()
                    &&& fails_on(states.last(), entries@[k])
                    &&& m@ == table_not_found(entry_table(entries@[k]))
                },
            }
        }),
{
    let ghost start = saved;
    let mut engine = match saved {
        Some(s) => s,
        None => StorageEngine::new(),
    };
    let ghost all = entries@;
    let mut pending = entries;
    // Reverse the entries so that popping gives them in order.
    let mut rest: Vec<WALEntry> = Vec::new();
    while pending.len() > 0
        invariant
            pending@.len() + rest@.len() == all.len(),
            forall|j: int| 0 <= j < pending@.len() ==> #[trigger] pending@[j] == all[j],
            forall|j: int| 0 <= j < rest@.len() ==> #[trigger] rest@[j] == all[all.len() - 1 - j],
        decreases pending@.len(),
    {
        let e = pending.pop().unwrap();
        rest.push(e);
    }
    let ghost mut states: Seq<StorageEngine> = seq![engine];
    let ghost mut k: int = 0;
    while rest.len() > 0
        invariant
            start == saved,
            all == entries@,
            rows_wf(all),
            engine.wf(),
            k + rest@.len() == all.len(),
            forall|j: int| 0 <= j < rest@.len() ==> #[trigger] rest@[j] == all[all.len() - 1 - j],
            replay_chain(start, all, k, states),
            engine.tables() == states.last().tables(),
            engine.indexes() == states.last().indexes(),
        decreases rest@.len(),
    {
        let entry = rest.pop().unwrap();
        proof {
            assert(entry == all[k]);
        }
        let ghost before = engine;
        match engine.apply_wal_entry(entry) {
            Ok(()) => {
                proof {
                    let old_states = states;
                    states = states.push(engine);
                    assert(applied(before, all[k], engine));
                    assert(applied(old_states.last(), all[k], engine));
                    assert forall|i: int| 0 <= i < k + 1 implies #[trigger] applied(states[i], all[i], states[i + 1]) by {
                        if i < k {
                            assert(states[i] == old_states[i] && states[i + 1] == old_states[i + 1]);
                        } else {
                            assert(states[i] == old_states.last());
                        }
                    }
                    k = k + 1;
                }
            },
            Err(m) => {
                proof {
                    assert(fails_on(states.last(), all[k]));
                    assert(m@ == table_not_found(entry_table(all[k])));
                    assert(k < all.len());
                    assert(replay_chain(start, all, k, states));
                }
                return Err(m);
            },
        }
    }
    Ok(engine)
}


/// A table with `columns` and `rows`, row `i` under row id `i`.
pub open spec fn table_view_of(columns: Seq<String>, rows: Seq<Row>) -> TableView {
    TableView {
        columns: columns.map_values(|c: String| c@),
        rows: Map::new(|id: usize| id < rows.len(), |id: usize| rows[id as int]@),
    }
}

/// The tables that `tables` describes, by name; of two with one name, the
/// later is kept.
pub open spec fn tables_of(tables: Seq<(String, Vec<String>, Vec<Row>)>) -> Map<Seq<char>, TableView>
    decreases tables.len(),
{
    if tables.len() == 0 {
        Map::empty()
    } else {
        tables_of(tables.drop_last()).insert(tables.last().0@, table_view_of(tables.last().1@, tables.last().2@))
    }
}

/// Column `c` of table `t` is listed in `indexes` before column `j` of
/// entry `k`.
pub open spec fn listed_before(indexes: Seq<(String, Vec<String>)>, k: int, j: int, t: Seq<char>, c: Seq<char>) -> bool {
    exists|k2: int, j2: int| #![trigger indexes[k2].1@[j2]]
        0 <= k2 < indexes.len() && 0 <= j2 < indexes[k2].1@.len()
        && (k2 < k || (k2 == k && j2 < j))
        && indexes[k2].0@ == t && indexes[k2].1@[j2]@ == c
}

/// Entry `k` of `indexes` names columns of a table that `tables` lacks.
pub open spec fn names_missing_table(tables: Map<Seq<char>, TableView>, indexes: Seq<(String, Vec<String>)>, k: int) -> bool {
    indexes[k].1@.len() > 0 && !tables.contains_key(indexes[k].0@)
}

/// Every row of `tables` is well formed.
pub open spec fn table_rows_wf(tables: Seq<(String, Vec<String>, Vec<Row>)>) -> bool {
    forall|i: int, j: int| 0 <= i < tables.len() && 0 <= j < tables[i].2@.len() ==> (#[trigger] tables[i].2@[j]).wf()
}

/// Rebuilds an engine from its tables, each a name, its columns and its rows
/// in row id order, and the indexed columns of each table: the tables are
/// created and filled, then an index is built for each listed column. Fails
/// when the indexed columns name a table that is not there.
pub fn restore(tables: Vec<(String, Vec<String>, Vec<Row>)>, indexes: Vec<(String, Vec<String>)>) -> (r: Result<StorageEngine, String>)
    requires
        table_rows_wf(tables@),
        forall|i: int| 0 <= i < tables@.len() ==> #[trigger] tables@[i].2@.len() <= usize::MAX,
    ensures
        match r {
            Ok(e) => {
                &&& e.wf()
                &&& e.tables() == tables_of(tables@)
                &&& forall|k: int| 0 <= k < indexes@.len() ==> !#[trigger] names_missing_table(tables_of(tables@), indexes@, k)
                &&& forall|t: Seq<char>| #[trigger] e.indexes().contains_key(t) ==>
                    e.indexes()[t].dom() == Set::new(|c: Seq<char>| listed_before(indexes@, indexes@.len() as int, 0, t, c))
            },
            Err(m) => exists|k: int| {
                &&& 0 <= k < indexes@.len()
                &&& #[trigger] names_missing_table(tables_of(tables@), indexes@, k)
                &&& forall|k2: int| 0 <= k2 < k ==> !#[trigger] names_missing_table(tables_of(tables@), indexes@, k2)
                &&& m@ == table_not_found(indexes@[k].0@)
            },
        },
{
    let mut engine = StorageEngine::new();
    let ghost all = tables@;
    let mut pending = tables;
    let mut rev: Vec<(String, Vec<String>, Vec<Row>)> = Vec::new();
    while pending.len() > 0
        invariant
            pending@.len() + rev@.len() == all.len(),
            forall|j: int| 0 <= j < pending@.len() ==> #[trigger] pending@[j] == all[j],
            forall|j: int| 0 <= j < rev@.len() ==> #[trigger] rev@[j] == all[all.len() - 1 - j],
        decreases pending@.len(),
    {
        let t = pending.pop().unwrap();
        rev.push(t);
    }
    let ghost mut k: int = 0;
    while rev.len() > 0
        invariant
            all == tables@,
            0 <= k,
            table_rows_wf(all),
            forall|i: int| 0 <= i < all.len() ==> #[trigger] all[i].2@.len() <= usize::MAX,
            k + rev@.len() == all.len(),
            forall|j: int| 0 <= j < rev@.len() ==> #[trigger] rev@[j] == all[all.len() - 1 - j],
            engine.wf(),
            engine.tables() == tables_of(all.take(k)),
            forall|t: Seq<char>| #[trigger] engine.indexes().contains_key(t) ==> engine.indexes()[t] == Map::<Seq<char>, Seq<Entry>>::empty(),
        decreases rev@.len(),
    {
        let ghost rv = rev@;
        let (name, columns, rows) = rev.pop().unwrap();
        proof {
            assert(rv[rv.len() - 1] == all[k]);
            assert((name, columns, rows) == all[k]);
            assert forall|i: int| 0 <= i < rows@.len() implies (#[trigger] rows@[i]).wf() by {
                assert(all[k].2@[i].wf());
            }
            assert(all[k].2@.len() <= usize::MAX);
        }
        let ghost cols = columns@;
        let ghost rows_all = rows@;
        let ghost before = engine;
        engine.create_table(name.as_str(), columns);
        let ghost base = tables_of(all.take(k));
        proof {
            assert(table_view_of(cols, rows_all.take(0)).rows =~= Map::<usize, Map<Seq<char>, Seq<char>>>::empty());
            assert(engine.tables() == base.insert(name@, table_view_of(cols, rows_all.take(0))));
            assert forall|t: Seq<char>| #[trigger] engine.indexes().contains_key(t) implies engine.indexes()[t] == Map::<Seq<char>, Seq<Entry>>::empty() by {
                if t != name@ {
                    assert(before.indexes().contains_key(t));
                }
            }
        }
        let mut rrev: Vec<Row> = Vec::new();
        let mut rows = rows;
        while rows.len() > 0
            invariant
                rows@.len() + rrev@.len() == rows_all.len(),
                forall|j: int| 0 <= j < rows@.len() ==> #[trigger] rows@[j] == rows_all[j],
                forall|j: int| 0 <= j < rrev@.len() ==> #[trigger] rrev@[j] == rows_all[rows_all.len() - 1 - j],
            decreases rows@.len(),
        {
            let r = rows.pop().unwrap();
            rrev.push(r);
        }
        let ghost mut j: int = 0;
        while rrev.len() > 0
            invariant
                forall|i: int| 0 <= i < rows_all.len() ==> (#[trigger] rows_all[i]).wf(),
                rows_all.len() <= usize::MAX,
                0 <= j,
                j + rrev@.len() == rows_all.len(),
                forall|i: int| 0 <= i < rrev@.len() ==> #[trigger] rrev@[i] == rows_all[rows_all.len() - 1 - i],
                engine.wf(),
                engine.tables() == base.insert(name@, table_view_of(cols, rows_all.take(j))),
                forall|t: Seq<char>| #[trigger] engine.indexes().contains_key(t) ==> engine.indexes()[t] == Map::<Seq<char>, Seq<Entry>>::empty(),
            decreases rrev@.len(),
        {
            let ghost rr = rrev@;
            let row = rrev.pop().unwrap();
            proof {
                assert(rr[rr.len() - 1] == rows_all[j]);
                assert(row == rows_all[j]);
                engine.lemma_row_ids_dense();
                assert(engine.tables().contains_key(name@));
                let m = engine.tables()[name@].rows;
                assert forall|id: usize| #[trigger] m.contains_key(id) <==> id < m.len() by {
                    assert(engine.tables().contains_key(name@));
                }
                lemma_dense_len(engine.tables()[name@].rows, j);
            }
            let ghost before = engine;
            match engine.insert_row(name.as_str(), row) {
                Ok(_) => {
                    proof {
                        assert(table_view_of(cols, rows_all.take(j)).rows.insert(j as usize, rows_all[j]@)
                            =~= table_view_of(cols, rows_all.take(j + 1)).rows);
                        assert(engine.tables() =~= base.insert(name@, table_view_of(cols, rows_all.take(j + 1))));
                        assert forall|t: Seq<char>| #[trigger] engine.indexes().contains_key(t) implies engine.indexes()[t] == Map::<Seq<char>, Seq<Entry>>::empty() by {
                            assert(before.indexes().contains_key(t));
                            if t == name@ {
                                assert(engine.indexes()[t] =~= Map::<Seq<char>, Seq<Entry>>::empty());
                            }
                        }
                        j = j + 1;
                    }
                },
                Err(m) => {
                    proof {
                        assert(false);
                    }
                    return Err(m);
                },
            }
        }
        proof {
            assert(rows_all.take(j) =~= rows_all);
            assert(all.take(k + 1).drop_last() =~= all.take(k));
            assert(all.take(k + 1).last() == all[k]);
            k = k + 1;
        }
    }
    proof {
        assert(all.take(k) =~= all);
    }
    let ghost tv = tables_of(all);
    let ghost ix = indexes@;
    let mut k2: usize = 0;
    while k2 < indexes.len()
        invariant
            ix == indexes@,
            tv == tables_of(tables@),
            k2 <= ix.len(),
            engine.wf(),
            engine.tables() == tv,
            forall|k3: int| 0 <= k3 < k2 ==> !#[trigger] names_missing_table(tv, ix, k3),
            forall|t: Seq<char>| #[trigger] engine.indexes().contains_key(t) ==>
                engine.indexes()[t].dom() == Set::new(|c: Seq<char>| listed_before(ix, k2 as int, 0, t, c)),
        decreases ix.len() - k2,
    {
        let t = &indexes[k2].0;
        let columns = &indexes[k2].1;
        let mut j: usize = 0;
        while j < columns.len()
            invariant
                ix == indexes@,
                tv == tables_of(tables@),
                k2 < ix.len(),
                *t == ix[k2 as int].0,
                *columns == ix[k2 as int].1,
                j <= columns@.len(),
                engine.wf(),
                engine.tables() == tv,
                j > 0 ==> tv.contains_key(t@),
                forall|k3: int| 0 <= k3 < k2 ==> !#[trigger] names_missing_table(tv, ix, k3),
                forall|u: Seq<char>| #[trigger] engine.indexes().contains_key(u) ==>
                    engine.indexes()[u].dom() == Set::new(|c: Seq<char>| listed_before(ix, k2 as int, j as int, u, c)),
            decreases columns@.len() - j,
        {
            let ghost before = engine;
            match engine.create_index(t.as_str(), columns[j].as_str()) {
                Ok(()) => {
                    proof {
                        let c0 = columns@[j as int]@;
                        before.lemma_indexes_match_tables();
                        engine.lemma_indexes_match_tables();
                        assert forall|u: Seq<char>| #[trigger] engine.indexes().contains_key(u) implies
                            engine.indexes()[u].dom() == Set::new(|c: Seq<char>| listed_before(ix, k2 as int, j + 1, u, c)) by {
                            assert(before.indexes().contains_key(u));
                            let old_dom = before.indexes()[u].dom();
                            assert forall|c: Seq<char>| listed_before(ix, k2 as int, j + 1, u, c) <==>
                                (listed_before(ix, k2 as int, j as int, u, c) || (u == t@ && c == c0)) by {
                                if u == t@ && c == c0 {
                                    assert(ix[k2 as int].1@[j as int]@ == c);
                                }
                                if listed_before(ix, k2 as int, j + 1, u, c) {
                                    let (k4, j4) = choose|k4: int, j4: int| #![trigger ix[k4].1@[j4]]
                                        0 <= k4 < ix.len() && 0 <= j4 < ix[k4].1@.len()
                                        && (k4 < k2 || (k4 == k2 && j4 < j + 1))
                                        && ix[k4].0@ == u && ix[k4].1@[j4]@ == c;
                                    if !(k4 == k2 && j4 == j) {
                                        assert(listed_before(ix, k2 as int, j as int, u, c));
                                    }
                                }
                                if listed_before(ix, k2 as int, j as int, u, c) {
                                    let (k4, j4) = choose|k4: int, j4: int| #![trigger ix[k4].1@[j4]]
                                        0 <= k4 < ix.len() && 0 <= j4 < ix[k4].1@.len()
                                        && (k4 < k2 || (k4 == k2 && j4 < j))
                                        && ix[k4].0@ == u && ix[k4].1@[j4]@ == c;
                                    assert(ix[k4].1@[j4]@ == c);
                                }
                            }
                            if u == t@ {
                                assert(engine.indexes()[u].dom() =~= old_dom.insert(c0));
                            } else {
                                assert(engine.indexes()[u] == before.indexes()[u]);
                            }
                            assert(engine.indexes()[u].dom() =~= Set::new(|c: Seq<char>| listed_before(ix, k2 as int, j + 1, u, c)));
                        }
                    }
                },
                Err(m) => {
                    proof {
                        assert(names_missing_table(tv, ix, k2 as int));
                    }
                    return Err(m);
                },
            }
            j += 1;
        }
        proof {
            if columns@.len() > 0 {
                assert(!names_missing_table(tv, ix, k2 as int));
            }
            assert forall|u: Seq<char>| #[trigger] engine.indexes().contains_key(u) implies
                engine.indexes()[u].dom() == Set::new(|c: Seq<char>| listed_before(ix, k2 + 1, 0, u, c)) by {
                assert(Set::new(|c: Seq<char>| listed_before(ix, k2 as int, j as int, u, c))
                    =~= Set::new(|c: Seq<char>| listed_before(ix, k2 + 1, 0, u, c)));
            }
        }
        k2 += 1;
    }
    Ok(engine)
}

/// A map whose keys are the ids below `j`, and below its size, has size `j`.
proof fn lemma_dense_len<V>(m: Map<usize, V>, j: int)
    requires
        0 <= j <= usize::MAX,
        forall|id: usize| #[trigger] m.contains_key(id) <==> id < j,
        forall|id: usize| #[trigger] m.contains_key(id) <==> id < m.len(),
        m.len() <= usize::MAX,
    ensures
        m.len() == j,
{
    if m.len() < j {
        assert(m.contains_key(m.len() as usize));
    } else if m.len() > j {
        assert(m.contains_key(j as usize));
    }
}

} // verus!
