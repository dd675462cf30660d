use ferrite::schema::Row;
use ferrite::storage_engine::StorageEngine;
use ferrite::wal::WALEntry;

fn row(pairs: &[(&str, &str)]) -> Row {
    let mut r = Row::new();
    for (c, v) in pairs {
        r.set(c.to_string(), v.to_string());
    }
    r
}

fn users() -> StorageEngine {
    let mut engine = StorageEngine::new();
    engine.create_table("users", vec!["id".to_string(), "name".to_string()]);
    engine
}

#[test]
fn row_set_replaces_and_get_reads() {
    let mut r = Row::new();
    assert_eq!(r.get("id"), None);
    r.set("id".to_string(), "1".to_string());
    r.set("name".to_string(), "ann".to_string());
    assert_eq!(r.get("id"), Some(&"1".to_string()));
    r.set("id".to_string(), "2".to_string());
    assert_eq!(r.get("id"), Some(&"2".to_string()));
    assert_eq!(r.get("name"), Some(&"ann".to_string()));
    assert_eq!(r.pairs().len(), 2);
}

#[test]
fn insert_row_numbers_rows_from_zero() {
    let mut engine = users();
    assert_eq!(engine.insert_row("users", row(&[("id", "1")])), Ok(0));
    assert_eq!(engine.insert_row("users", row(&[("id", "2")])), Ok(1));
    assert_eq!(engine.insert_row("users", row(&[("id", "3")])), Ok(2));
    let table = engine.get_table("users").unwrap();
    assert_eq!(table.rows.len(), 3);
    assert_eq!(table.rows[&1].get("id"), Some(&"2".to_string()));
    assert_eq!(table.columns, vec!["id".to_string(), "name".to_string()]);
}

#[test]
fn missing_table_errors() {
    let mut engine = users();
    assert_eq!(engine.insert_row("nope", Row::new()), Err("table nope not found".to_string()));
    assert_eq!(engine.create_index("nope", "id"), Err("table nope not found".to_string()));
    assert!(engine.get_table("nope").is_none());
    assert_eq!(engine.search_index("nope", "id", "1"), None);
}

#[test]
fn index_built_from_rows_and_kept_up_to_date() {
    let mut engine = users();
    engine.insert_row("users", row(&[("id", "1"), ("name", "ann")])).unwrap();
    engine.insert_row("users", row(&[("id", "2"), ("name", "bob")])).unwrap();
    assert_eq!(engine.search_index("users", "id", "1"), None);
    engine.create_index("users", "id").unwrap();
    assert_eq!(engine.search_index("users", "id", "1"), Some(vec![0]));
    assert_eq!(engine.search_index("users", "id", "2"), Some(vec![1]));
    assert_eq!(engine.search_index("users", "id", "3"), None);
    engine.insert_row("users", row(&[("id", "3")])).unwrap();
    engine.insert_row("users", row(&[("name", "no id")])).unwrap();
    assert_eq!(engine.search_index("users", "id", "3"), Some(vec![2]));
    assert_eq!(engine.search_index("users", "name", "ann"), None);
}

#[test]
fn recreating_a_table_drops_rows_and_indexes() {
    let mut engine = users();
    engine.insert_row("users", row(&[("id", "1")])).unwrap();
    engine.create_index("users", "id").unwrap();
    engine.create_table("users", vec!["x".to_string()]);
    assert_eq!(engine.get_table("users").unwrap().rows.len(), 0);
    assert_eq!(engine.search_index("users", "id", "1"), None);
    assert_eq!(engine.insert_row("users", row(&[("x", "9")])), Ok(0));
}

#[test]
fn wal_entries_apply_like_direct_calls() {
    let mut engine = StorageEngine::new();
    assert_eq!(
        engine.apply_wal_entry(WALEntry::CreateTable { name: "t".to_string(), columns: vec!["a".to_string()] }),
        Ok(())
    );
    assert_eq!(
        engine.apply_wal_entry(WALEntry::InsertRow { table: "t".to_string(), row_id: 42, row: row(&[("a", "x")]) }),
        Ok(())
    );
    assert_eq!(engine.apply_wal_entry(WALEntry::Checkpoint), Ok(()));
    assert_eq!(
        engine.apply_wal_entry(WALEntry::InsertRow { table: "u".to_string(), row_id: 0, row: Row::new() }),
        Err("table u not found".to_string())
    );
    let table = engine.get_table("t").unwrap();
    assert_eq!(table.rows.len(), 1);
    assert_eq!(table.rows[&0].get("a"), Some(&"x".to_string()));
}

#[test]
fn rows_are_equal_whatever_order_their_columns_were_set_in() {
    let a = row(&[("x", "1"), ("y", "2")]);
    let b = row(&[("y", "2"), ("x", "1")]);
    assert_eq!(a, b);
    let c = row(&[("x", "1"), ("y", "3")]);
    assert_ne!(a, c);
    let d = row(&[("x", "1")]);
    assert_ne!(a, d);
    assert_ne!(d, a);
    let mut e = row(&[("x", "0"), ("y", "2")]);
    e.set("x".to_string(), "1".to_string());
    assert_eq!(a, e);
    assert_eq!(a.clone(), a);
}

#[test]
fn tables_compare_by_columns_and_rows() {
    let mut s = StorageEngine::new();
    s.create_table("t", vec!["x".to_string(), "y".to_string()]);
    s.insert_row("t", row(&[("x", "1"), ("y", "2")])).unwrap();
    let mut u = StorageEngine::new();
    u.create_table("t", vec!["x".to_string(), "y".to_string()]);
    u.insert_row("t", row(&[("y", "2"), ("x", "1")])).unwrap();
    assert_eq!(s.get_table("t"), u.get_table("t"));
    u.insert_row("t", row(&[("x", "3")])).unwrap();
    assert_ne!(s.get_table("t"), u.get_table("t"));
}
