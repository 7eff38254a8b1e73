use memdb::db::SimpleMemDB;
use memdb::keys::{Key, MemDBError, Record};

fn rec(k: i64, v: &[u8]) -> Record {
    Record { key: Key::Int(k), value: v.to_vec() }
}

#[test]
fn create_insert_get_single_roundtrip() {
    let mut db = SimpleMemDB::new();
    db.create_index("foo", Key::Int(0)).unwrap();
    db.insert("foo", rec(0, &[0u8; 101]), None).unwrap();
    let got = db.get_single("foo", &Key::Int(0), None).unwrap();
    assert_eq!(got, Record { key: Key::Int(0), value: vec![0; 101] });
}

#[test]
fn uncommitted_write_is_invisible_then_visible_after_commit() {
    let mut db = SimpleMemDB::new();
    db.create_index("foo", Key::Int(0)).unwrap();
    let t1 = db.begin_transaction().unwrap();
    db.insert("foo", rec(5, b"x"), Some(t1)).unwrap();
    assert!(matches!(
        db.get_single("foo", &Key::Int(5), None),
        Err(MemDBError::EntryDoesNotExist)
    ));
    db.commit_transaction(t1).unwrap();
    let got = db.get_single("foo", &Key::Int(5), None).unwrap();
    assert_eq!(got, Record { key: Key::Int(5), value: b"x".to_vec() });
}

#[test]
fn first_committer_wins_on_conflicting_key() {
    let mut db = SimpleMemDB::new();
    db.create_index("foo", Key::Int(0)).unwrap();
    let t1 = db.begin_transaction().unwrap();
    let t2 = db.begin_transaction().unwrap();
    db.insert("foo", rec(7, b"a"), Some(t1)).unwrap();
    db.insert("foo", rec(7, b"b"), Some(t2)).unwrap();
    db.commit_transaction(t1).unwrap();
    assert!(matches!(db.commit_transaction(t2), Err(MemDBError::Failure)));
    // The loser's buffered write never became visible.
    let got = db.get_single("foo", &Key::Int(7), None).unwrap();
    assert_eq!(got.value, b"a".to_vec());
}

#[test]
fn drop_unknown_fails_and_create_twice_fails() {
    let mut db = SimpleMemDB::new();
    assert!(matches!(
        db.drop_index("never"),
        Err(MemDBError::EntryDoesNotExist)
    ));
    db.create_index("foo", Key::Int(0)).unwrap();
    assert!(matches!(
        db.create_index("foo", Key::Int(0)),
        Err(MemDBError::EntryExists)
    ));
}

#[test]
fn commit_is_atomic_for_readers() {
    let mut db = SimpleMemDB::new();
    db.create_index("foo", Key::Int(0)).unwrap();
    let t1 = db.begin_transaction().unwrap();
    db.insert("foo", rec(1, b"one"), Some(t1)).unwrap();
    db.insert("foo", rec(2, b"two"), Some(t1)).unwrap();
    // Before the commit a reader sees none of the writes.
    assert_eq!(db.get("foo", &Key::Int(1), None).unwrap().len(), 0);
    assert_eq!(db.get("foo", &Key::Int(2), None).unwrap().len(), 0);
    db.commit_transaction(t1).unwrap();
    // After it, all of them.
    assert_eq!(db.get("foo", &Key::Int(1), None).unwrap().len(), 1);
    assert_eq!(db.get("foo", &Key::Int(2), None).unwrap().len(), 1);
}

#[test]
fn disjoint_transactions_both_commit() {
    let mut db = SimpleMemDB::new();
    db.create_index("foo", Key::Int(0)).unwrap();
    let t1 = db.begin_transaction().unwrap();
    let t2 = db.begin_transaction().unwrap();
    db.insert("foo", rec(1, b"a"), Some(t1)).unwrap();
    db.insert("foo", rec(2, b"b"), Some(t2)).unwrap();
    db.commit_transaction(t1).unwrap();
    db.commit_transaction(t2).unwrap();
    assert_eq!(db.get_single("foo", &Key::Int(1), None).unwrap().value, b"a".to_vec());
    assert_eq!(db.get_single("foo", &Key::Int(2), None).unwrap().value, b"b".to_vec());
}

#[test]
fn insert_remove_get_single_fails() {
    let mut db = SimpleMemDB::new();
    db.create_index("foo", Key::Int(0)).unwrap();
    db.insert("foo", rec(3, b"v"), None).unwrap();
    db.remove("foo", rec(3, b"v"), None).unwrap();
    assert!(matches!(
        db.get_single("foo", &Key::Int(3), None),
        Err(MemDBError::EntryDoesNotExist)
    ));
}

#[test]
fn strict_insert_fails_on_existing_key_and_upsert_overwrites() {
    let mut db = SimpleMemDB::new();
    db.create_index("foo", Key::Int(0)).unwrap();
    db.insert("foo", rec(4, b"old"), None).unwrap();
    assert!(matches!(
        db.insert("foo", rec(4, b"new"), None),
        Err(MemDBError::EntryExists)
    ));
    assert_eq!(db.get_single("foo", &Key::Int(4), None).unwrap().value, b"old".to_vec());
    db.upsert("foo", rec(4, b"new"), None).unwrap();
    assert_eq!(db.get_single("foo", &Key::Int(4), None).unwrap().value, b"new".to_vec());
}

#[test]
fn snapshot_reads_ignore_later_commits() {
    let mut db = SimpleMemDB::new();
    db.create_index("foo", Key::Int(0)).unwrap();
    db.insert("foo", rec(1, b"before"), None).unwrap();
    let t1 = db.begin_transaction().unwrap();
    db.upsert("foo", rec(1, b"after"), None).unwrap();
    db.insert("foo", rec(9, b"late"), None).unwrap();
    // The transaction still reads as of its snapshot marker.
    assert_eq!(
        db.get_single("foo", &Key::Int(1), Some(t1)).unwrap().value,
        b"before".to_vec()
    );
    assert!(matches!(
        db.get_single("foo", &Key::Int(9), Some(t1)),
        Err(MemDBError::EntryDoesNotExist)
    ));
    // A transaction-less reader sees the latest committed state.
    assert_eq!(db.get_single("foo", &Key::Int(1), None).unwrap().value, b"after".to_vec());
    db.abort_transaction(t1).unwrap();
}

#[test]
fn abort_discards_buffered_writes() {
    let mut db = SimpleMemDB::new();
    db.create_index("foo", Key::Int(0)).unwrap();
    let t1 = db.begin_transaction().unwrap();
    db.insert("foo", rec(5, b"x"), Some(t1)).unwrap();
    db.abort_transaction(t1).unwrap();
    assert!(matches!(
        db.get_single("foo", &Key::Int(5), None),
        Err(MemDBError::EntryDoesNotExist)
    ));
    assert!(matches!(
        db.commit_transaction(t1),
        Err(MemDBError::TransactionDoesNotExist)
    ));
}

#[test]
fn transaction_sees_its_own_writes() {
    let mut db = SimpleMemDB::new();
    db.create_index("foo", Key::Int(0)).unwrap();
    db.insert("foo", rec(1, b"committed"), None).unwrap();
    let t1 = db.begin_transaction().unwrap();
    db.insert("foo", rec(2, b"mine"), Some(t1)).unwrap();
    db.remove("foo", rec(1, b""), Some(t1)).unwrap();
    assert_eq!(db.get_single("foo", &Key::Int(2), Some(t1)).unwrap().value, b"mine".to_vec());
    assert!(matches!(
        db.get_single("foo", &Key::Int(1), Some(t1)),
        Err(MemDBError::EntryDoesNotExist)
    ));
    // The shared state is untouched until commit.
    assert_eq!(db.get_single("foo", &Key::Int(1), None).unwrap().value, b"committed".to_vec());
    db.commit_transaction(t1).unwrap();
    assert!(matches!(
        db.get_single("foo", &Key::Int(1), None),
        Err(MemDBError::EntryDoesNotExist)
    ));
    assert_eq!(db.get_single("foo", &Key::Int(2), None).unwrap().value, b"mine".to_vec());
}

#[test]
fn open_and_close_index_handles() {
    let mut db = SimpleMemDB::new();
    assert!(matches!(
        db.open_index("foo"),
        Err(MemDBError::EntryDoesNotExist)
    ));
    db.create_index("foo", Key::Int(0)).unwrap();
    let handle = db.open_index("foo").unwrap();
    assert_eq!(handle, "foo".to_string());
    db.close_index(&handle).unwrap();
    assert!(matches!(
        db.close_index(&handle),
        Err(MemDBError::EntryDoesNotExist)
    ));
}

#[test]
fn drop_index_blocked_by_pending_writes() {
    let mut db = SimpleMemDB::new();
    db.create_index("foo", Key::Int(0)).unwrap();
    let t1 = db.begin_transaction().unwrap();
    db.insert("foo", rec(1, b"x"), Some(t1)).unwrap();
    assert!(matches!(db.drop_index("foo"), Err(MemDBError::Failure)));
    db.abort_transaction(t1).unwrap();
    db.drop_index("foo").unwrap();
    assert!(matches!(
        db.get("foo", &Key::Int(1), None),
        Err(MemDBError::EntryDoesNotExist)
    ));
}

#[test]
fn mixing_key_variants_is_refused() {
    let mut db = SimpleMemDB::new();
    db.create_index("foo", Key::Int(0)).unwrap();
    let bad = Record { key: Key::Varchar("oops".to_string()), value: b"v".to_vec() };
    assert!(matches!(db.insert("foo", bad, None), Err(MemDBError::Failure)));
}

#[test]
fn unknown_transaction_handles_are_refused() {
    let mut db = SimpleMemDB::new();
    db.create_index("foo", Key::Int(0)).unwrap();
    assert!(matches!(
        db.insert("foo", rec(1, b"x"), Some(42)),
        Err(MemDBError::TransactionDoesNotExist)
    ));
    assert!(matches!(
        db.commit_transaction(42),
        Err(MemDBError::TransactionDoesNotExist)
    ));
    assert!(matches!(
        db.abort_transaction(42),
        Err(MemDBError::TransactionDoesNotExist)
    ));
}

#[test]
fn get_returns_empty_sequence_when_absent() {
    let mut db = SimpleMemDB::new();
    db.create_index("foo", Key::Int(0)).unwrap();
    let recs = db.get("foo", &Key::Int(77), None).unwrap();
    assert_eq!(recs.len(), 0);
    db.insert("foo", rec(77, b"v"), None).unwrap();
    let recs = db.get("foo", &Key::Int(77), None).unwrap();
    assert_eq!(recs.len(), 1);
    assert_eq!(recs[0], Record { key: Key::Int(77), value: b"v".to_vec() });
}

#[test]
fn text_keys_roundtrip() {
    let mut db = SimpleMemDB::new();
    db.create_index("words", Key::Varchar(String::new())).unwrap();
    let r = Record { key: Key::Varchar("alpha".to_string()), value: b"1".to_vec() };
    db.insert("words", r, None).unwrap();
    let got = db.get_single("words", &Key::Varchar("alpha".to_string()), None).unwrap();
    assert_eq!(got.value, b"1".to_vec());
}

#[test]
fn range_returns_keys_in_ascending_order() {
    let mut db = SimpleMemDB::new();
    db.create_index("foo", Key::Int(0)).unwrap();
    for k in [7i64, 1, 5, 3] {
        db.insert("foo", rec(k, format!("v{}", k).as_bytes()), None).unwrap();
    }
    let recs = db.range("foo", &Key::Int(2), &Key::Int(6), true, true, None).unwrap();
    let keys: Vec<Key> = recs.iter().map(|r| r.key.clone()).collect();
    assert_eq!(keys, vec![Key::Int(3), Key::Int(5)]);
    let all = db.range("foo", &Key::Int(1), &Key::Int(7), true, true, None).unwrap();
    let keys: Vec<Key> = all.iter().map(|r| r.key.clone()).collect();
    assert_eq!(keys, vec![Key::Int(1), Key::Int(3), Key::Int(5), Key::Int(7)]);
    assert_eq!(all[0].value, b"v1".to_vec());
}

#[test]
fn range_bounds_inclusive_and_exclusive() {
    let mut db = SimpleMemDB::new();
    db.create_index("foo", Key::Int(0)).unwrap();
    for k in 1i64..=4 {
        db.insert("foo", rec(k, b"v"), None).unwrap();
    }
    let recs = db.range("foo", &Key::Int(1), &Key::Int(4), false, false, None).unwrap();
    let keys: Vec<Key> = recs.iter().map(|r| r.key.clone()).collect();
    assert_eq!(keys, vec![Key::Int(2), Key::Int(3)]);
    let recs = db.range("foo", &Key::Int(1), &Key::Int(4), true, false, None).unwrap();
    let keys: Vec<Key> = recs.iter().map(|r| r.key.clone()).collect();
    assert_eq!(keys, vec![Key::Int(1), Key::Int(2), Key::Int(3)]);
}

#[test]
fn range_sees_transaction_writes() {
    let mut db = SimpleMemDB::new();
    db.create_index("foo", Key::Int(0)).unwrap();
    db.insert("foo", rec(2, b"two"), None).unwrap();
    db.insert("foo", rec(4, b"four"), None).unwrap();
    let t1 = db.begin_transaction().unwrap();
    db.insert("foo", rec(3, b"three"), Some(t1)).unwrap();
    db.remove("foo", rec(4, b""), Some(t1)).unwrap();
    let recs = db.range("foo", &Key::Int(0), &Key::Int(10), true, true, Some(t1)).unwrap();
    let keys: Vec<Key> = recs.iter().map(|r| r.key.clone()).collect();
    assert_eq!(keys, vec![Key::Int(2), Key::Int(3)]);
    // Without the transaction, the shared state is unchanged.
    let recs = db.range("foo", &Key::Int(0), &Key::Int(10), true, true, None).unwrap();
    let keys: Vec<Key> = recs.iter().map(|r| r.key.clone()).collect();
    assert_eq!(keys, vec![Key::Int(2), Key::Int(4)]);
    db.abort_transaction(t1).unwrap();
}

#[test]
fn range_text_keys_lexicographic() {
    let mut db = SimpleMemDB::new();
    db.create_index("words", Key::Varchar(String::new())).unwrap();
    for w in ["pear", "apple", "banana"] {
        let r = Record { key: Key::Varchar(w.to_string()), value: b"x".to_vec() };
        db.insert("words", r, None).unwrap();
    }
    let recs = db
        .range(
            "words",
            &Key::Varchar("a".to_string()),
            &Key::Varchar("z".to_string()),
            true,
            true,
            None,
        )
        .unwrap();
    let keys: Vec<Key> = recs.iter().map(|r| r.key.clone()).collect();
    assert_eq!(
        keys,
        vec![
            Key::Varchar("apple".to_string()),
            Key::Varchar("banana".to_string()),
            Key::Varchar("pear".to_string())
        ]
    );
}

#[test]
fn removed_keys_can_be_reinserted() {
    let mut db = SimpleMemDB::new();
    db.create_index("foo", Key::Int(0)).unwrap();
    db.insert("foo", rec(1, b"first"), None).unwrap();
    db.remove("foo", rec(1, b""), None).unwrap();
    db.insert("foo", rec(1, b"second"), None).unwrap();
    assert_eq!(db.get_single("foo", &Key::Int(1), None).unwrap().value, b"second".to_vec());
}

#[test]
fn remove_of_absent_key_fails() {
    let mut db = SimpleMemDB::new();
    db.create_index("foo", Key::Int(0)).unwrap();
    assert!(matches!(
        db.remove("foo", rec(1, b""), None),
        Err(MemDBError::EntryDoesNotExist)
    ));
}

#[test]
fn conflict_also_detected_for_removals() {
    let mut db = SimpleMemDB::new();
    db.create_index("foo", Key::Int(0)).unwrap();
    db.insert("foo", rec(1, b"v"), None).unwrap();
    let t1 = db.begin_transaction().unwrap();
    let t2 = db.begin_transaction().unwrap();
    db.remove("foo", rec(1, b""), Some(t1)).unwrap();
    db.upsert("foo", rec(1, b"w"), Some(t2)).unwrap();
    db.commit_transaction(t1).unwrap();
    assert!(matches!(db.commit_transaction(t2), Err(MemDBError::Failure)));
    assert!(matches!(
        db.get_single("foo", &Key::Int(1), None),
        Err(MemDBError::EntryDoesNotExist)
    ));
}

#[test]
fn buffered_writes_are_scoped_to_their_index() {
    let mut db = SimpleMemDB::new();
    db.create_index("a", Key::Int(0)).unwrap();
    db.create_index("b", Key::Int(0)).unwrap();
    let t1 = db.begin_transaction().unwrap();
    db.insert("a", rec(1, b"x"), Some(t1)).unwrap();
    assert!(matches!(
        db.get_single("b", &Key::Int(1), Some(t1)),
        Err(MemDBError::EntryDoesNotExist)
    ));
    db.commit_transaction(t1).unwrap();
    assert!(matches!(
        db.get_single("b", &Key::Int(1), None),
        Err(MemDBError::EntryDoesNotExist)
    ));
    assert_eq!(db.get_single("a", &Key::Int(1), None).unwrap().value, b"x".to_vec());
}

#[test]
fn strict_insert_respects_the_transactions_own_view() {
    let mut db = SimpleMemDB::new();
    db.create_index("foo", Key::Int(0)).unwrap();
    db.insert("foo", rec(1, b"v"), None).unwrap();
    let t1 = db.begin_transaction().unwrap();
    // The key is visible in the snapshot, so a strict insert fails...
    assert!(matches!(
        db.insert("foo", rec(1, b"w"), Some(t1)),
        Err(MemDBError::EntryExists)
    ));
    // ...until the transaction removes it in its own view.
    db.remove("foo", rec(1, b""), Some(t1)).unwrap();
    db.insert("foo", rec(1, b"w"), Some(t1)).unwrap();
    // And a second strict insert now hits the buffered write.
    assert!(matches!(
        db.insert("foo", rec(1, b"z"), Some(t1)),
        Err(MemDBError::EntryExists)
    ));
    db.commit_transaction(t1).unwrap();
    assert_eq!(db.get_single("foo", &Key::Int(1), None).unwrap().value, b"w".to_vec());
}
