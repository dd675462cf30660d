use ferrite::executor::{ExecutionEngine, ExecutionError};
use ferrite::query::{Filter, Identifier, QueryPlan};
use ferrite::schema::Row;
use ferrite::storage_engine::StorageEngine;

fn row(pairs: &[(&str, &str)]) -> Row {
    let mut r = Row::new();
    for (c, v) in pairs {
        r.set(c.to_string(), v.to_string());
    }
    r
}

fn engine(with_index: bool) -> ExecutionEngine {
    let mut s = StorageEngine::new();
    s.create_table("users", vec!["id".to_string(), "name".to_string(), "email".to_string()]);
    if with_index {
        s.create_index("users", "id").unwrap();
    }
    s.insert_row("users", row(&[("id", "1"), ("name", "ann"), ("email", "a@x")])).unwrap();
    s.insert_row("users", row(&[("id", "2"), ("name", "bob"), ("email", "b@x")])).unwrap();
    s.insert_row("users", row(&[("id", "3"), ("name", "cy"), ("email", "c@x")])).unwrap();
    ExecutionEngine::new(s)
}

fn plan(table: &str, columns: &[&str], filter: Option<(&str, &str)>) -> QueryPlan {
    QueryPlan {
        table: table.to_string(),
        projection: columns.iter().map(|c| Identifier(c.to_string())).collect(),
        filter: filter.map(|(c, v)| Filter { column: c.to_string(), value: v.to_string() }),
    }
}

fn values(rows: &[Row], column: &str) -> Vec<String> {
    rows.iter().map(|r| r.get(column).unwrap().clone()).collect()
}

#[test]
fn select_all_rows_without_filter() {
    let e = engine(false);
    let rows = e.execute(plan("users", &["name"], None)).unwrap();
    assert_eq!(values(&rows, "name"), vec!["ann", "bob", "cy"]);
    assert_eq!(rows[0].pairs().len(), 1);
}

#[test]
fn select_star_reads_every_column() {
    for with_index in [false, true] {
        let e = engine(with_index);
        let rows = e.execute(plan("users", &["*"], None)).unwrap();
        assert_eq!(rows.len(), 3);
        assert_eq!(values(&rows, "id"), vec!["1", "2", "3"]);
        assert_eq!(values(&rows, "name"), vec!["ann", "bob", "cy"]);
        assert_eq!(values(&rows, "email"), vec!["a@x", "b@x", "c@x"]);
        assert_eq!(rows[0].get("*"), None);
        assert_eq!(rows[0].pairs().len(), 3);
        let filtered = e.execute(plan("users", &["*"], Some(("id", "2")))).unwrap();
        assert_eq!(values(&filtered, "email"), vec!["b@x"]);
    }
}

#[test]
fn filter_with_and_without_index_agree() {
    for with_index in [false, true] {
        let e = engine(with_index);
        let rows = e.execute(plan("users", &["name", "email", "missing"], Some(("id", "2")))).unwrap();
        assert_eq!(rows.len(), 1);
        assert_eq!(rows[0].get("name"), Some(&"bob".to_string()));
        assert_eq!(rows[0].get("email"), Some(&"b@x".to_string()));
        assert_eq!(rows[0].get("missing"), Some(&String::new()));
        let none = e.execute(plan("users", &["name"], Some(("id", "9")))).unwrap();
        assert!(none.is_empty());
    }
}

#[test]
fn filter_on_unindexed_column_scans() {
    let e = engine(true);
    let rows = e.execute(plan("users", &["id"], Some(("name", "cy")))).unwrap();
    assert_eq!(values(&rows, "id"), vec!["3"]);
}

#[test]
fn unknown_table_is_an_error() {
    let e = engine(false);
    match e.execute(plan("nope", &["id"], None)) {
        Err(ExecutionError::TableNotFound(name)) => assert_eq!(name, "nope"),
        Ok(_) => panic!("expected an error"),
    }
}

#[test]
fn explain_describes_index_and_table_scans() {
    let indexed = engine(true);
    assert_eq!(
        indexed.explain(&plan("users", &["name"], Some(("id", "2")))),
        "query plan:\n  - index scan: users.id\n  - estimated cost: 1 row\n"
    );
    assert_eq!(
        indexed.explain(&plan("users", &["name"], Some(("id", "7")))),
        "query plan:\n  - table scan: users\n  - estimated cost: unknown\n"
    );
    assert_eq!(indexed.explain(&plan("users", &["*"], None)), "query plan:\n  - table scan: users\n");
}

#[test]
fn an_index_returns_every_row_with_the_value() {
    for with_index in [false, true] {
        let mut s = StorageEngine::new();
        s.create_table("t", vec!["c".to_string(), "d".to_string()]);
        if with_index {
            s.create_index("t", "c").unwrap();
        }
        s.insert_row("t", row(&[("c", "x"), ("d", "first")])).unwrap();
        s.insert_row("t", row(&[("c", "y"), ("d", "other")])).unwrap();
        s.insert_row("t", row(&[("c", "x"), ("d", "second")])).unwrap();
        if with_index {
            assert_eq!(s.search_index("t", "c", "x"), Some(vec![0, 2]));
        }
        let e = ExecutionEngine::new(s);
        let rows = e.execute(plan("t", &["c", "d"], Some(("c", "x")))).unwrap();
        assert_eq!(values(&rows, "d"), vec!["first", "second"], "index {}", with_index);
        assert_eq!(values(&rows, "c"), vec!["x", "x"]);
    }
}

#[test]
fn an_index_built_late_finds_the_same_rows() {
    let mut s = StorageEngine::new();
    s.create_table("t", vec!["c".to_string()]);
    for v in ["b", "a", "b", "c", "b"] {
        s.insert_row("t", row(&[("c", v)])).unwrap();
    }
    s.create_index("t", "c").unwrap();
    assert_eq!(s.search_index("t", "c", "b"), Some(vec![0, 2, 4]));
    s.insert_row("t", row(&[("c", "b")])).unwrap();
    assert_eq!(s.search_index("t", "c", "b"), Some(vec![0, 2, 4, 5]));
    assert_eq!(s.search_index("t", "c", "z"), None);
}
