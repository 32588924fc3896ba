use pagedb::db::Db;
use pagedb::errors::Error;

fn k(s: &str) -> Vec<u8> {
    s.as_bytes().to_vec()
}

#[test]
fn create_opens_with_empty_root() {
    // Page size 4096, 4 initial pages: open succeeds, the root bucket is
    // empty and the auto-increment counter is zero.
    let db = Db::create(4096, 4).unwrap();
    assert_eq!(db.pagesize(), 4096);
    assert_eq!(db.meta.tx_id, 0);
    assert_eq!(db.meta.root.next_int, 0);
    let mut db = db;
    let tx = db.tx(false).unwrap();
    assert_eq!(tx.get(&k("a")).unwrap_err(), Error::KeyValueMissing);
    db.rollback(tx);
}

#[test]
fn create_rejects_unsupported_page_size() {
    match Db::create(3000, 4) {
        Err(Error::Unsupported(_)) => {}
        _ => panic!("a page size that is not a power of two must be rejected"),
    }
    match Db::create(512, 4) {
        Err(Error::Unsupported(_)) => {}
        _ => panic!("a page size below the minimum must be rejected"),
    }
}

#[test]
fn reopen_after_create() {
    let db = Db::create(4096, 4).unwrap();
    let store = db.store;
    let db2 = Db::open(store).unwrap();
    assert_eq!(db2.meta.tx_id, 0);
}

#[test]
fn put_commit_get_in_later_tx() {
    // put("a", "1"), put("b", "2") in one write tx, commit; a new read
    // tx sees both values.
    let mut db = Db::create(4096, 4).unwrap();
    let mut tx = db.tx(true).unwrap();
    tx.put(k("a"), k("1")).unwrap();
    tx.put(k("b"), k("2")).unwrap();
    db.commit(tx).unwrap();
    // The commit wrote the other meta slot: double buffering.
    assert_eq!(db.meta.meta_page, 1);
    assert_eq!(db.meta.tx_id, 1);
    let rtx = db.tx(false).unwrap();
    assert_eq!(rtx.get(&k("a")).unwrap(), k("1"));
    assert_eq!(rtx.get(&k("b")).unwrap(), k("2"));
    db.rollback(rtx);
}

#[test]
fn put_get_same_tx() {
    let mut db = Db::create(4096, 4).unwrap();
    let mut tx = db.tx(true).unwrap();
    tx.put(k("key"), k("value")).unwrap();
    assert_eq!(tx.get(&k("key")).unwrap(), k("value"));
    tx.put(k("key"), k("other")).unwrap();
    assert_eq!(tx.get(&k("key")).unwrap(), k("other"));
    db.commit(tx).unwrap();
}

#[test]
fn delete_then_get_is_missing() {
    let mut db = Db::create(4096, 4).unwrap();
    let mut tx = db.tx(true).unwrap();
    tx.put(k("a"), k("1")).unwrap();
    tx.delete(&k("a")).unwrap();
    assert_eq!(tx.get(&k("a")).unwrap_err(), Error::KeyValueMissing);
    db.commit(tx).unwrap();
    let rtx = db.tx(false).unwrap();
    assert_eq!(rtx.get(&k("a")).unwrap_err(), Error::KeyValueMissing);
    db.rollback(rtx);
}

#[test]
fn delete_missing_key_fails() {
    let mut db = Db::create(4096, 4).unwrap();
    let mut tx = db.tx(true).unwrap();
    assert_eq!(tx.delete(&k("ghost")).unwrap_err(), Error::KeyValueMissing);
    db.rollback(tx);
}

#[test]
fn create_bucket_twice_fails() {
    let mut db = Db::create(4096, 4).unwrap();
    let mut tx = db.tx(true).unwrap();
    tx.create_bucket(k("x")).unwrap();
    assert_eq!(tx.create_bucket(k("x")).unwrap_err(), Error::BucketExists);
    db.commit(tx).unwrap();
}

#[test]
fn bucket_value_conflicts() {
    let mut db = Db::create(4096, 4).unwrap();
    let mut tx = db.tx(true).unwrap();
    tx.create_bucket(k("b")).unwrap();
    // A key that holds a bucket cannot hold a plain value.
    assert_eq!(tx.put(k("b"), k("v")).unwrap_err(), Error::IncompatibleValue);
    assert_eq!(tx.get(&k("b")).unwrap_err(), Error::IncompatibleValue);
    assert_eq!(tx.delete(&k("b")).unwrap_err(), Error::IncompatibleValue);
    // A key that holds a value is not a bucket.
    tx.put(k("v"), k("1")).unwrap();
    assert_eq!(tx.bucket(&k("v")).unwrap_err(), Error::IncompatibleValue);
    assert_eq!(tx.create_bucket(k("v")).unwrap_err(), Error::BucketExists);
    assert_eq!(tx.bucket(&k("ghost")).unwrap_err(), Error::BucketMissing);
    let m = tx.bucket(&k("b")).unwrap();
    assert_eq!(m.root_page, 0);
    db.commit(tx).unwrap();
}

#[test]
fn read_only_tx_rejects_mutation() {
    let mut db = Db::create(4096, 4).unwrap();
    let mut rtx = db.tx(false).unwrap();
    assert_eq!(rtx.put(k("a"), k("1")).unwrap_err(), Error::ReadOnlyTx);
    assert_eq!(rtx.delete(&k("a")).unwrap_err(), Error::ReadOnlyTx);
    assert_eq!(rtx.create_bucket(k("a")).unwrap_err(), Error::ReadOnlyTx);
    assert_eq!(rtx.next_id().unwrap_err(), Error::ReadOnlyTx);
    db.rollback(rtx);
}

#[test]
fn second_writer_does_not_start_while_first_is_active() {
    // In-process, the engine reports the held write lock instead of
    // silently handing out a second writer.
    let mut db = Db::create(4096, 4).unwrap();
    let tx1 = db.tx(true).unwrap();
    match db.tx(true) {
        Err(Error::Io(kind, _)) => assert_eq!(kind, pagedb::errors::IoKind::WouldBlock),
        _ => panic!("a second concurrent write transaction must not start"),
    }
    db.rollback(tx1);
    let tx2 = db.tx(true).unwrap();
    db.commit(tx2).unwrap();
}

#[test]
fn reader_sees_snapshot_across_commits() {
    // Copy-on-write isolation: a reader opened before a writer commits
    // keeps seeing its own snapshot, even after several further commits
    // reuse freed pages.
    let mut db = Db::create(4096, 8).unwrap();
    let mut tx = db.tx(true).unwrap();
    tx.put(k("a"), k("old")).unwrap();
    db.commit(tx).unwrap();
    let reader = db.tx(false).unwrap();
    for round in 0..5 {
        let mut w = db.tx(true).unwrap();
        w.put(k("a"), format!("new-{round}").into_bytes()).unwrap();
        w.put(format!("filler-{round}").into_bytes(), vec![round as u8; 600])
            .unwrap();
        db.commit(w).unwrap();
    }
    assert_eq!(reader.get(&k("a")).unwrap(), k("old"));
    db.rollback(reader);
    let fresh = db.tx(false).unwrap();
    assert_eq!(fresh.get(&k("a")).unwrap(), k("new-4"));
    db.rollback(fresh);
}

#[test]
fn rollback_discards_changes() {
    let mut db = Db::create(4096, 4).unwrap();
    let mut tx = db.tx(true).unwrap();
    tx.put(k("a"), k("1")).unwrap();
    db.rollback(tx);
    let rtx = db.tx(false).unwrap();
    assert_eq!(rtx.get(&k("a")).unwrap_err(), Error::KeyValueMissing);
    db.rollback(rtx);
}

#[test]
fn next_id_increments() {
    let mut db = Db::create(4096, 4).unwrap();
    let mut tx = db.tx(true).unwrap();
    assert_eq!(tx.next_id().unwrap(), 0);
    assert_eq!(tx.next_id().unwrap(), 1);
    db.commit(tx).unwrap();
    assert_eq!(db.meta.root.next_int, 2);
    let mut tx2 = db.tx(true).unwrap();
    assert_eq!(tx2.next_id().unwrap(), 2);
    db.rollback(tx2);
}

#[test]
fn many_entries_survive_commit_and_reopen() {
    // Enough data at the smallest page size to split the tree into
    // several leaf blocks under a branch root.
    let mut db = Db::create(1024, 4).unwrap();
    let mut tx = db.tx(true).unwrap();
    for i in 0..60 {
        let key = format!("key-{i:04}").into_bytes();
        let value = vec![(i % 251) as u8; 200];
        tx.put(key, value).unwrap();
    }
    db.commit(tx).unwrap();
    // Values are visible in a later transaction of the same handle.
    let rtx = db.tx(false).unwrap();
    for i in 0..60 {
        let key = format!("key-{i:04}").into_bytes();
        assert_eq!(rtx.get(&key).unwrap(), vec![(i % 251) as u8; 200]);
    }
    db.rollback(rtx);
    // And after reopening the image from its bytes alone.
    let store = db.store;
    let mut db2 = Db::open(store).unwrap();
    let rtx2 = db2.tx(false).unwrap();
    for i in 0..60 {
        let key = format!("key-{i:04}").into_bytes();
        assert_eq!(rtx2.get(&key).unwrap(), vec![(i % 251) as u8; 200]);
    }
    db2.rollback(rtx2);
}

#[test]
fn ordering_is_byte_lexicographic() {
    let mut db = Db::create(4096, 4).unwrap();
    let mut tx = db.tx(true).unwrap();
    for key in ["b", "a", "ab", "aa", "z", ""] {
        tx.put(k(key), k(key)).unwrap();
    }
    let keys: Vec<Vec<u8>> = tx.root.entries.iter().map(|e| e.key.clone()).collect();
    let expected: Vec<Vec<u8>> = ["", "a", "aa", "ab", "b", "z"].iter().map(|s| k(s)).collect();
    assert_eq!(keys, expected);
    db.commit(tx).unwrap();
}

#[test]
fn sub_bucket_round_trip_across_commit_and_reopen() {
    let mut db = Db::create(4096, 4).unwrap();
    let mut tx = db.tx(true).unwrap();
    tx.create_bucket(k("settings")).unwrap();
    let h = db.open_bucket(&mut tx, &k("settings")).unwrap();
    tx.sub_put(h, k("theme"), k("dark")).unwrap();
    tx.sub_put(h, k("lang"), k("en")).unwrap();
    assert_eq!(tx.sub_get(h, &k("theme")).unwrap(), k("dark"));
    db.commit(tx).unwrap();
    // A later transaction materializes the sub-bucket from its pages.
    let mut tx2 = db.tx(false).unwrap();
    let h2 = db.open_bucket(&mut tx2, &k("settings")).unwrap();
    assert_eq!(tx2.sub_get(h2, &k("theme")).unwrap(), k("dark"));
    assert_eq!(tx2.sub_get(h2, &k("lang")).unwrap(), k("en"));
    db.rollback(tx2);
    // And after reopening the whole image.
    let store = db.store;
    let mut db2 = Db::open(store).unwrap();
    let mut tx3 = db2.tx(true).unwrap();
    let h3 = db2.open_bucket(&mut tx3, &k("settings")).unwrap();
    assert_eq!(tx3.sub_get(h3, &k("lang")).unwrap(), k("en"));
    tx3.sub_delete(h3, &k("lang")).unwrap();
    assert_eq!(
        tx3.sub_get(h3, &k("lang")).unwrap_err(),
        Error::KeyValueMissing
    );
    db2.commit(tx3).unwrap();
}

#[test]
fn open_bucket_errors() {
    let mut db = Db::create(4096, 4).unwrap();
    let mut tx = db.tx(true).unwrap();
    assert_eq!(
        db.open_bucket(&mut tx, &k("ghost")).unwrap_err(),
        Error::BucketMissing
    );
    tx.put(k("v"), k("1")).unwrap();
    assert_eq!(
        db.open_bucket(&mut tx, &k("v")).unwrap_err(),
        Error::IncompatibleValue
    );
    db.rollback(tx);
}

#[test]
fn tampered_page_id_is_rejected() {
    // Every page's stored id must equal its own offset; a block whose
    // head page claims another id is corruption.
    let mut db = Db::create(4096, 4).unwrap();
    let mut tx = db.tx(true).unwrap();
    tx.put(k("a"), k("1")).unwrap();
    db.commit(tx).unwrap();
    let mut store = db.store;
    let root = db.meta.root.root_page as usize;
    store.pages[root][7] ^= 1; // flip a bit of the stored id
    let mut db2 = Db::open(store).unwrap();
    match db2.tx(false) {
        Err(Error::InvalidDB(_)) => {}
        _ => panic!("a mismatched stored page id must be rejected"),
    }
}
