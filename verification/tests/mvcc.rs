use radb_core::error::Error;
use radb_core::mvcc::MvccStore;

fn b(s: &str) -> Vec<u8> {
    s.as_bytes().to_vec()
}

#[test]
fn empty_store_reads_nothing() {
    let store = MvccStore::new();
    let txn = store.begin_read_only();
    assert_eq!(store.get(&txn, &b("a")), None);
    assert_eq!(txn.snapshot, 0);
}

#[test]
fn txn_versions_and_conflict() {
    // An initial committed transaction takes version 1, so the next write
    // transaction begins at version 2, inserts a row, and commits returning
    // version 2. The following one gets version 3; while its write to a key
    // is pending, a concurrent writer to the same key fails with a
    // serialization conflict, and the first commits at 3.
    let mut store = MvccStore::new();
    let t1 = store.begin();
    assert_eq!(t1.version, 1);
    assert!(store.set(&t1, b("init"), Some(b("x"))).is_ok());
    assert_eq!(store.commit(&t1), 1);

    let t2 = store.begin();
    assert_eq!(t2.version, 2);
    assert!(store.set(&t2, b("movie/1"), Some(b("Alien"))).is_ok());
    assert_eq!(store.commit(&t2), 2);

    let t3 = store.begin();
    assert_eq!(t3.version, 3);
    assert!(store.set(&t3, b("movie/1"), Some(b("Aliens"))).is_ok());
    let other = store.begin();
    assert_eq!(store.set(&other, b("movie/1"), Some(b("Alien 3"))), Err(Error::Serialization));
    assert_eq!(store.commit(&t3), 3);
}

#[test]
fn concurrent_writers_one_commits() {
    let mut store = MvccStore::new();
    let t1 = store.begin();
    let t2 = store.begin();
    assert!(store.set(&t1, b("k"), Some(b("v1"))).is_ok());
    // The second writer conflicts while the first is open...
    assert_eq!(store.set(&t2, b("k"), Some(b("v2"))), Err(Error::Serialization));
    // ...and still conflicts after the first commits, whatever the order.
    store.commit(&t1);
    assert_eq!(store.set(&t2, b("k"), Some(b("v2"))), Err(Error::Serialization));
    store.rollback(&t2);
    // A transaction begun after the commit can write the key again.
    let t3 = store.begin();
    assert!(store.set(&t3, b("k"), Some(b("v3"))).is_ok());
    store.commit(&t3);
}

#[test]
fn read_only_ignores_uncommitted() {
    let mut store = MvccStore::new();
    let w = store.begin();
    assert!(store.set(&w, b("k"), Some(b("secret"))).is_ok());
    // A read-only transaction begun beside the open writer neither blocks
    // nor sees the uncommitted value.
    let r = store.begin_read_only();
    assert_eq!(store.get(&r, &b("k")), None);
    store.commit(&w);
    // Even after the writer commits, the snapshot stays fixed.
    assert_eq!(store.get(&r, &b("k")), None);
    // A fresh snapshot sees it.
    let r2 = store.begin_read_only();
    assert_eq!(store.get(&r2, &b("k")), Some(b("secret")));
}

#[test]
fn snapshot_isolation_between_writers() {
    let mut store = MvccStore::new();
    let t1 = store.begin();
    assert!(store.set(&t1, b("a"), Some(b("1"))).is_ok());
    store.commit(&t1);
    let t2 = store.begin();
    let t3 = store.begin();
    assert!(store.set(&t3, b("b"), Some(b("3"))).is_ok());
    store.commit(&t3);
    // t2 began before t3 committed, so it cannot see t3's write.
    assert_eq!(store.get(&t2, &b("b")), None);
    assert_eq!(store.get(&t2, &b("a")), Some(b("1")));
}

#[test]
fn own_writes_read_back() {
    let mut store = MvccStore::new();
    let t = store.begin();
    assert!(store.set(&t, b("k"), Some(b("v"))).is_ok());
    assert_eq!(store.get(&t, &b("k")), Some(b("v")));
    assert!(store.set(&t, b("k"), Some(b("v2"))).is_ok());
    assert_eq!(store.get(&t, &b("k")), Some(b("v2")));
}

#[test]
fn rollback_no_trace() {
    let mut store = MvccStore::new();
    let t1 = store.begin();
    assert!(store.set(&t1, b("k"), Some(b("before"))).is_ok());
    store.commit(&t1);
    let t2 = store.begin();
    assert!(store.set(&t2, b("k"), Some(b("after"))).is_ok());
    store.rollback(&t2);
    // A snapshot at or above the rolled-back version sees the
    // pre-transaction value.
    let r = store.begin_read_only();
    assert!(r.snapshot >= t2.version - 1);
    assert_eq!(store.get(&r, &b("k")), Some(b("before")));
}

#[test]
fn time_travel_pinned() {
    let mut store = MvccStore::new();
    let t1 = store.begin();
    assert!(store.set(&t1, b("k"), Some(b("v1"))).is_ok());
    store.commit(&t1);
    let t2 = store.begin();
    assert!(store.set(&t2, b("k"), Some(b("v2"))).is_ok());
    store.commit(&t2);
    // A reader pinned at version 1 sees version 1's value, even though a
    // later commit exists, and keeps seeing it after further commits.
    let r = store.begin_as_of(1).unwrap();
    assert_eq!(store.get(&r, &b("k")), Some(b("v1")));
    let t3 = store.begin();
    assert!(store.set(&t3, b("k"), Some(b("v3"))).is_ok());
    store.commit(&t3);
    assert_eq!(store.get(&r, &b("k")), Some(b("v1")));
}

#[test]
fn time_travel_out_of_range() {
    let mut store = MvccStore::new();
    let t1 = store.begin();
    store.commit(&t1);
    assert!(store.begin_as_of(1).is_ok());
    assert_eq!(store.begin_as_of(2).err(), Some(Error::OutOfRange));
}

#[test]
fn read_only_write_rejected() {
    let mut store = MvccStore::new();
    let r = store.begin_read_only();
    assert_eq!(store.set(&r, b("k"), Some(b("v"))), Err(Error::ReadOnly));
    let t1 = store.begin();
    store.commit(&t1);
    let tt = store.begin_as_of(1).unwrap();
    assert_eq!(store.set(&tt, b("k"), Some(b("v"))), Err(Error::ReadOnly));
}

#[test]
fn delete_writes_tombstone() {
    let mut store = MvccStore::new();
    let t1 = store.begin();
    assert!(store.set(&t1, b("k"), Some(b("v"))).is_ok());
    store.commit(&t1);
    let t2 = store.begin();
    assert!(store.set(&t2, b("k"), None).is_ok());
    store.commit(&t2);
    let r = store.begin_read_only();
    assert_eq!(store.get(&r, &b("k")), None);
    // The old version remains reachable by time travel.
    let past = store.begin_as_of(1).unwrap();
    assert_eq!(store.get(&past, &b("k")), Some(b("v")));
}

#[test]
fn gc_watermark_tracks_oldest_active() {
    let mut store = MvccStore::new();
    let t1 = store.begin();
    store.commit(&t1);
    // No transaction open: the watermark is the latest committed version.
    assert_eq!(store.gc_watermark(), 1);
    let t2 = store.begin();
    let t3 = store.begin();
    assert_eq!(store.gc_watermark(), 2);
    store.commit(&t2);
    assert_eq!(store.gc_watermark(), 3);
    store.commit(&t3);
    assert_eq!(store.gc_watermark(), 3);
}

#[test]
fn status_counts() {
    let mut store = MvccStore::new();
    let t1 = store.begin();
    assert!(store.set(&t1, b("ab"), Some(b("cde"))).is_ok());
    store.commit(&t1);
    let _t2 = store.begin();
    let st = store.status();
    assert_eq!(st.versions, 2);
    assert_eq!(st.active_txns, 1);
    assert_eq!(st.storage.key_count, 1);
    assert_eq!(st.storage.logical_size, 5);
}

#[test]
fn error_messages_name_the_failure() {
    assert!(Error::Serialization.message().contains("retry"));
    assert!(Error::ReadOnly.message().contains("read-only"));
    assert!(Error::OutOfRange.message().contains("version"));
    assert!(Error::Unavailable.message().contains("leader"));
}

#[test]
fn scan_returns_sorted_visible_pairs() {
    let mut store = MvccStore::new();
    let t = store.begin();
    assert!(store.set(&t, b("b"), Some(b("2"))).is_ok());
    assert!(store.set(&t, b("a"), Some(b("1"))).is_ok());
    assert!(store.set(&t, b("c"), Some(b("3"))).is_ok());
    store.commit(&t);
    let t2 = store.begin();
    assert!(store.set(&t2, b("b"), Some(b("2x"))).is_ok());
    assert!(store.set(&t2, b("d"), Some(b("4"))).is_ok());
    // A read-only snapshot sees the committed state only, ascending by key.
    let r = store.begin_read_only();
    assert_eq!(store.scan(&r), vec![(b("a"), b("1")), (b("b"), b("2")), (b("c"), b("3"))]);
    // The open writer's own scan sees its pending writes.
    assert_eq!(
        store.scan(&t2),
        vec![(b("a"), b("1")), (b("b"), b("2x")), (b("c"), b("3")), (b("d"), b("4"))]
    );
}

#[test]
fn scan_skips_tombstones() {
    let mut store = MvccStore::new();
    let t = store.begin();
    assert!(store.set(&t, b("a"), Some(b("1"))).is_ok());
    assert!(store.set(&t, b("z"), Some(b("26"))).is_ok());
    store.commit(&t);
    let t2 = store.begin();
    assert!(store.set(&t2, b("a"), None).is_ok());
    store.commit(&t2);
    let r = store.begin_read_only();
    assert_eq!(store.scan(&r), vec![(b("z"), b("26"))]);
}

#[test]
fn scan_orders_prefixes_first() {
    let mut store = MvccStore::new();
    let t = store.begin();
    assert!(store.set(&t, b("ab"), Some(b("2"))).is_ok());
    assert!(store.set(&t, b("b"), Some(b("3"))).is_ok());
    assert!(store.set(&t, b("a"), Some(b("1"))).is_ok());
    store.commit(&t);
    let r = store.begin_read_only();
    assert_eq!(store.scan(&r), vec![(b("a"), b("1")), (b("ab"), b("2")), (b("b"), b("3"))]);
}

#[test]
fn time_travel_bounded_by_committed() {
    let mut store = MvccStore::new();
    let t1 = store.begin();
    store.commit(&t1);
    // Version 2 is allocated to an open writer but not committed: a
    // time-travel snapshot may not reach it.
    let _t2 = store.begin();
    assert!(store.begin_as_of(1).is_ok());
    assert_eq!(store.begin_as_of(2).err(), Some(Error::OutOfRange));
}

#[test]
fn read_only_snapshot_is_latest_committed() {
    let mut store = MvccStore::new();
    let t1 = store.begin();
    store.commit(&t1);
    let t2 = store.begin();
    store.commit(&t2);
    // Version 3 was allocated but rolled back: the read-only snapshot stays
    // at the latest committed version, 2.
    let t3 = store.begin();
    store.rollback(&t3);
    let r = store.begin_read_only();
    assert_eq!(r.snapshot, 2);
    // An open (uncommitted) writer does not move the snapshot either.
    let _t4 = store.begin();
    let r2 = store.begin_read_only();
    assert_eq!(r2.snapshot, 2);
}

#[test]
fn scan_range_bounds_are_half_open() {
    let mut store = MvccStore::new();
    let t = store.begin();
    assert!(store.set(&t, b("a"), Some(b("1"))).is_ok());
    assert!(store.set(&t, b("b"), Some(b("2"))).is_ok());
    assert!(store.set(&t, b("c"), Some(b("3"))).is_ok());
    assert!(store.set(&t, b("d"), Some(b("4"))).is_ok());
    store.commit(&t);
    let r = store.begin_read_only();
    // From inclusive, to exclusive.
    assert_eq!(
        store.scan_range(&r, &b("b"), &b("d")),
        vec![(b("b"), b("2")), (b("c"), b("3"))]
    );
    // An empty range yields nothing.
    assert_eq!(store.scan_range(&r, &b("x"), &b("z")), vec![]);
    // A bound inside the key set selects the prefix below it.
    assert_eq!(
        store.scan_range(&r, &b("a"), &b("c")),
        vec![(b("a"), b("1")), (b("b"), b("2"))]
    );
}

#[test]
fn scan_range_respects_snapshot() {
    let mut store = MvccStore::new();
    let t = store.begin();
    assert!(store.set(&t, b("k1"), Some(b("v1"))).is_ok());
    store.commit(&t);
    let w = store.begin();
    assert!(store.set(&w, b("k2"), Some(b("v2"))).is_ok());
    // A reader beside the open writer sees only the committed pair in range.
    let r = store.begin_read_only();
    assert_eq!(store.scan_range(&r, &b("k"), &b("l")), vec![(b("k1"), b("v1"))]);
}
