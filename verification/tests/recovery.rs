use ferrite::btree::BTreeIndex;
use ferrite::recovery::{recover, restore};
use ferrite::schema::Row;
use ferrite::storage_engine::StorageEngine;
use ferrite::wal::WALEntry;

fn row(pairs: &[(&str, &str)]) -> Row {
    let mut r = Row::new();
    for (c, v) in pairs {
        r.set(c.to_string(), v.to_string());
    }
    r
}

fn create(name: &str, columns: &[&str]) -> WALEntry {
    WALEntry::CreateTable { name: name.to_string(), columns: columns.iter().map(|c| c.to_string()).collect() }
}

fn insert(table: &str, r: Row) -> WALEntry {
    WALEntry::InsertRow { table: table.to_string(), row_id: 0, row: r }
}

#[test]
fn recovery_without_log_or_save_is_empty() {
    let engine = recover(Vec::new(), None).unwrap();
    assert!(engine.table_names().is_empty());
}

#[test]
fn recovery_replays_the_log_in_order() {
    let entries = vec![
        create("t", &["a"]),
        insert("t", row(&[("a", "1")])),
        WALEntry::Checkpoint,
        insert("t", row(&[("a", "2")])),
    ];
    let engine = recover(entries, None).unwrap();
    let table = engine.get_table("t").unwrap();
    assert_eq!(table.rows.len(), 2);
    assert_eq!(table.rows[&0].get("a"), Some(&"1".to_string()));
    assert_eq!(table.rows[&1].get("a"), Some(&"2".to_string()));
}

#[test]
fn recovery_stops_at_an_insert_into_a_missing_table() {
    let entries = vec![create("t", &["a"]), insert("u", row(&[("a", "1")])), create("v", &[])];
    match recover(entries, None) {
        Err(msg) => assert_eq!(msg, "table u not found"),
        Ok(_) => panic!("recovery should fail"),
    }
}

#[test]
fn recovery_applies_the_log_to_the_saved_engine() {
    let mut saved = StorageEngine::new();
    saved.create_table("t", vec!["a".to_string()]);
    saved.create_index("t", "a").unwrap();
    saved.insert_row("t", row(&[("a", "x")])).unwrap();
    let entries = vec![insert("t", row(&[("a", "x")]))];
    let engine = recover(entries, Some(saved)).unwrap();
    assert_eq!(engine.get_table("t").unwrap().rows.len(), 2);
    assert_eq!(engine.search_index("t", "a", "x"), Some(vec![0, 1]));
}

#[test]
fn clones_answer_alike() {
    let mut saved = StorageEngine::new();
    saved.create_table("t", vec!["a".to_string()]);
    saved.create_index("t", "a").unwrap();
    for v in ["p", "q", "p"] {
        saved.insert_row("t", row(&[("a", v)])).unwrap();
    }
    let copy = saved.clone();
    assert_eq!(copy.search_index("t", "a", "p"), Some(vec![0, 2]));
    assert_eq!(copy.get_table("t").unwrap().rows.len(), 3);

    let mut b = BTreeIndex::new(3);
    for i in 0..30usize {
        b.insert(format!("k{}", i % 7), i);
    }
    let c = b.clone();
    assert_eq!(c.entries(), b.entries());
    assert_eq!(c.range_scan("k1", "k3"), b.range_scan("k1", "k3"));
}

#[test]
fn restore_rebuilds_tables_and_indexes() {
    let tables = vec![
        ("t".to_string(), vec!["a".to_string()], vec![row(&[("a", "x")]), row(&[("a", "y")]), row(&[("a", "x")])]),
        ("u".to_string(), vec![], vec![]),
    ];
    let indexes = vec![("t".to_string(), vec!["a".to_string()]), ("u".to_string(), vec![])];
    let engine = restore(tables, indexes).unwrap();
    assert_eq!(engine.get_table("t").unwrap().rows.len(), 3);
    assert_eq!(engine.search_index("t", "a", "x"), Some(vec![0, 2]));
    assert_eq!(engine.index_columns("t"), vec!["a".to_string()]);
    assert!(engine.get_table("u").unwrap().rows.is_empty());

    match restore(Vec::new(), vec![("v".to_string(), vec!["a".to_string()])]) {
        Err(msg) => assert_eq!(msg, "table v not found"),
        Ok(_) => panic!("restoring an index of a missing table should fail"),
    }
    assert!(restore(Vec::new(), vec![("v".to_string(), vec![])]).is_ok());
}
