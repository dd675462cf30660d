use ferrite::btree::BTreeIndex;
use ferrite::keys::{key_equal, key_less};

#[test]
fn test_insert_and_search() {
    let mut btree = BTreeIndex::new(3);
    btree.insert("5".to_string(), 0);
    btree.insert("3".to_string(), 1);
    btree.insert("7".to_string(), 2);

    assert_eq!(btree.search("5"), Some(0));
    assert_eq!(btree.search("3"), Some(1));
    assert_eq!(btree.search("7"), Some(2));
    assert_eq!(btree.search("10"), None);
}

#[test]
fn test_range_scan() {
    let mut btree = BTreeIndex::new(3);
    btree.insert("1".to_string(), 0);
    btree.insert("5".to_string(), 1);
    btree.insert("10".to_string(), 2);
    btree.insert("15".to_string(), 3);

    let results = btree.range_scan("5", "15");
    assert_eq!(results.len(), 3);
}

#[test]
fn range_scan_gives_row_ids_in_key_order() {
    let mut btree = BTreeIndex::new(3);
    btree.insert("1".to_string(), 0);
    btree.insert("5".to_string(), 1);
    btree.insert("10".to_string(), 2);
    btree.insert("15".to_string(), 3);
    assert_eq!(btree.range_scan("5", "15"), vec![1, 2, 3]);
    assert_eq!(btree.range_scan("1", "1"), vec![0]);
    assert_eq!(btree.range_scan("2", "9"), vec![1]);
    assert_eq!(btree.range_scan("16", "99"), Vec::<usize>::new());
    assert_eq!(btree.range_scan("15", "5"), Vec::<usize>::new());
}

#[test]
fn keys_sort_shortest_first_then_by_character() {
    assert!(key_less("5", "10"));
    assert!(!key_less("10", "5"));
    assert!(key_less("a", "b"));
    assert!(key_less("b", "aa"));
    assert!(key_less("ab", "ac"));
    assert!(!key_less("ab", "ab"));
    assert!(key_less("", "a"));
    assert!(key_equal("abc", "abc"));
    assert!(!key_equal("abc", "abd"));
    assert!(!key_equal("abc", "ab"));
}

#[test]
fn many_inserts_are_all_found_and_sorted() {
    for order in [2usize, 3, 4, 5, 7] {
        let mut btree = BTreeIndex::new(order);
        let mut n = 0usize;
        // insert keys in a scrambled order
        for i in 0..200usize {
            let k = (i * 37) % 200;
            btree.insert(k.to_string(), k);
            n += 1;
        }
        assert_eq!(n, 200);
        for k in 0..200usize {
            assert_eq!(btree.search(&k.to_string()), Some(k), "order {} key {}", order, k);
        }
        assert_eq!(btree.search("200"), None);
        assert_eq!(btree.search("x"), None);
        let entries = btree.entries();
        let keys: Vec<usize> = entries.iter().map(|(k, _)| k.parse().unwrap()).collect();
        let expected: Vec<usize> = (0..200).collect();
        assert_eq!(keys, expected, "order {}", order);
        for (k, v) in &entries {
            assert_eq!(k.parse::<usize>().unwrap(), *v);
        }
        let in_range = btree.range_scan("50", "59");
        assert_eq!(in_range, (50..60).collect::<Vec<usize>>());
        assert_eq!(btree.range_scan("0", "199").len(), 200);
    }
}

#[test]
fn duplicate_keys_keep_every_entry() {
    let mut btree = BTreeIndex::new(4);
    for i in 0..20usize {
        btree.insert("same".to_string(), i);
    }
    btree.insert("aaaa".to_string(), 100);
    let entries = btree.entries();
    assert_eq!(entries.len(), 21);
    let found = btree.search("same").unwrap();
    assert!(found < 20);
    assert_eq!(btree.search("aaaa"), Some(100));
    let mut ids: Vec<usize> = entries.iter().filter(|(k, _)| k == "same").map(|(_, v)| *v).collect();
    ids.sort();
    assert_eq!(ids, (0..20).collect::<Vec<usize>>());
}

#[test]
fn new_index_is_empty() {
    let btree = BTreeIndex::new(4);
    assert_eq!(btree.order(), 4);
    assert_eq!(btree.search(""), None);
    assert_eq!(btree.search("a"), None);
    assert!(btree.entries().is_empty());
    assert!(btree.range_scan("", "zzzz").is_empty());
}

#[test]
fn search_finds_the_inserted_row_id() {
    let mut btree = BTreeIndex::new(4);
    btree.insert("alice".to_string(), 7);
    btree.insert("bob".to_string(), 3);
    btree.insert("carol".to_string(), 9);
    btree.insert("dave".to_string(), 1);
    assert_eq!(btree.search("bob"), Some(3));
    assert_eq!(btree.search("carol"), Some(9));
    assert_eq!(btree.search("dave"), Some(1));
    assert_eq!(btree.search("alice"), Some(7));
    assert_eq!(btree.search("eve"), None);
    let keys: Vec<String> = btree.entries().into_iter().map(|(k, _)| k).collect();
    assert_eq!(keys, vec!["bob", "dave", "alice", "carol"]);
}

#[test]
fn range_scan_reports_every_entry_in_range_once() {
    let mut btree = BTreeIndex::new(3);
    for i in 0..10usize {
        btree.insert("m".to_string(), i);
    }
    btree.insert("n".to_string(), 10);
    btree.insert("z".to_string(), 11);
    btree.insert("a".to_string(), 12);
    // Entries with one key come in the order they were inserted.
    assert_eq!(btree.range_scan("m", "z"), (0..12).collect::<Vec<usize>>());
    assert_eq!(btree.range_scan("m", "m"), (0..10).collect::<Vec<usize>>());
    assert_eq!(btree.range_scan("n", "z"), vec![10, 11]);
    assert_eq!(btree.range_scan("a", "a"), vec![12]);
    assert!(btree.range_scan("z", "a").is_empty());
    let found = btree.search("m").unwrap();
    assert!(btree.range_scan("m", "m").contains(&found));
}
