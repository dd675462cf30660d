use ferrite::durable::Durable;
use ferrite::schema::Row;
use ferrite::storage_engine::StorageEngine;
use ferrite::wal::WALEntry;

fn row(pairs: &[(&str, &str)]) -> Row {
    let mut r = Row::new();
    for (c, v) in pairs {
        r.set(c.to_string(), v.to_string());
    }
    r
}

#[test]
fn an_insert_into_a_missing_table_is_not_logged() {
    let d = Durable::new(StorageEngine::new(), 100);
    match d.log_insert("nope", row(&[("a", "1")])) {
        Err(m) => assert_eq!(m, "table nope not found"),
        Ok(_) => panic!("nothing should be logged"),
    }
    assert_eq!(d.logged_count(), 0);
}

#[test]
fn logged_changes_apply_and_fall_due_at_the_interval() {
    let mut d = Durable::new(StorageEngine::new(), 3);
    let create = Durable::log_create_table("t", vec!["a".to_string()]);
    assert_eq!(d.commit(create), Ok(false));
    let e1 = d.log_insert("t", row(&[("a", "1")])).unwrap();
    match &e1 {
        WALEntry::InsertRow { table, row_id, .. } => {
            assert_eq!(table, "t");
            assert_eq!(*row_id, 0);
        }
        _ => panic!("an insertion record"),
    }
    assert_eq!(d.commit(e1), Ok(false));
    let e2 = d.log_insert("t", row(&[("a", "2")])).unwrap();
    assert_eq!(d.commit(e2), Ok(true));
    assert_eq!(d.logged_count(), 3);
    assert_eq!(d.engine_ref().get_table("t").unwrap().rows.len(), 2);
    d.saved();
    assert_eq!(d.logged_count(), 0);
    assert_eq!(d.create_index("t", "a"), Ok(true));
    assert_eq!(d.create_index("u", "a"), Err("table u not found".to_string()));
    let engine = d.into_engine();
    assert_eq!(engine.search_index("t", "a", "2"), Some(vec![1]));
}
