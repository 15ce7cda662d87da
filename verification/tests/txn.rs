//! Transaction visibility and the finalize-once state machine.

use wiredtiger::Connection;
use wiredtiger::Error;

/// Tests that the key/val inserted within a transaction is not
/// visible to other sessions before it is committed, and becomes
/// visible after it is committed.
#[test]
fn test_transaction_commit() {
    let mut conn =
        Connection::open("/tmp/wt-tc", "create", None).expect("failed to open connection");

    // Open two sessions
    let sess1 = conn.open_session().unwrap();
    let sess2 = conn.open_session().unwrap();

    // Insert an entry on the first session, but within a transaction
    sess1.create(&mut conn, "table:foo", "key_format=S,value_format=S").unwrap();
    let cur = sess1.open_cursor(&mut conn, "table:foo", "").unwrap();
    let mut _txn1 = sess1.transaction(&mut conn, "name=foo").expect("begin txn failed");
    cur.set_key(&mut conn, "tyler");
    cur.set_value(&mut conn, "brock");

    cur.insert(&mut conn).unwrap();

    // Inserted the doc, but txn is not yet committed so session 2 can't see it yet.
    let cur2 = sess2.open_cursor(&mut conn, "table:foo", "").unwrap();
    cur2.set_key(&mut conn, "tyler");
    assert!(matches!(cur2.search(&mut conn), Err(Error { code, .. }) if code == -31803,));
    cur2.close(&mut conn).unwrap();

    // Now let's commit the txn.
    _txn1.commit(&mut conn, "").expect("commit failed");

    // After committing, the key that was inserted now becomes visible.
    let cur2 = sess2.open_cursor(&mut conn, "table:foo", "").unwrap();
    cur2.set_key(&mut conn, "tyler");
    cur2.search(&mut conn).unwrap();

    let (k, v) = cur2.get_raw_key_value(&conn).unwrap();
    let (k, v) = (k.unwrap(), v.unwrap());
    assert_eq!(std::str::from_utf8(&k).unwrap(), "tyler");
    assert_eq!(std::str::from_utf8(&v).unwrap(), "brock");
}

/// Tests that the key/val inserted within a transaction that is
/// discarded without commit never becomes visible to other sessions.
#[test]
fn test_transaction_rollback() {
    let mut conn =
        Connection::open("/tmp/wt-tr", "create", None).expect("failed to open connection");

    // Open two sessions
    let sess1 = conn.open_session().unwrap();
    let sess2 = conn.open_session().unwrap();

    // Insert an entry on the first session, but within a transaction
    sess1.create(&mut conn, "table:foo", "key_format=S,value_format=S").unwrap();
    let cur = sess1.open_cursor(&mut conn, "table:foo", "").unwrap();
    let mut _txn1 = sess1.transaction(&mut conn, "name=foo").expect("begin txn failed");
    cur.set_key(&mut conn, "tyler");
    cur.set_value(&mut conn, "brock");

    cur.insert(&mut conn).unwrap();

    // Inserted the doc, but txn is not yet committed so session 2 can't see it yet.
    let cur2 = sess2.open_cursor(&mut conn, "table:foo", "").unwrap();
    cur2.set_key(&mut conn, "tyler");
    assert!(matches!(cur2.search(&mut conn), Err(Error { code, .. }) if code == -31803,));
    cur2.close(&mut conn).unwrap();

    // Discard the txn without committing.
    drop(_txn1);

    // After the discard, the key that was inserted is still not there.
    let cur2 = sess2.open_cursor(&mut conn, "table:foo", "").unwrap();
    cur2.set_key(&mut conn, "tyler");
    assert!(matches!(cur2.search(&mut conn), Err(Error { code, .. }) if code == -31803,));
}

#[test]
fn explicit_rollback_discards_the_write() {
    let mut conn = Connection::open("/tmp/wt-rb", "create", None).unwrap();
    let sess1 = conn.open_session().unwrap();
    let sess2 = conn.open_session().unwrap();
    sess1.create(&mut conn, "table:foo", "").unwrap();
    let cur = sess1.open_cursor(&mut conn, "table:foo", "").unwrap();
    let mut txn = sess1.transaction(&mut conn, "").unwrap();
    cur.set_key_value(&mut conn, "tyler", "brock");
    cur.insert(&mut conn).unwrap();
    txn.rollback(&mut conn, "").unwrap();
    // Invisible to everyone, the writer included.
    let cur2 = sess2.open_cursor(&mut conn, "table:foo", "").unwrap();
    cur2.set_key(&mut conn, "tyler");
    assert!(matches!(cur2.search(&mut conn), Err(Error { code, .. }) if code == -31803));
    cur.set_key(&mut conn, "tyler");
    assert!(matches!(cur.search(&mut conn), Err(Error { code, .. }) if code == -31803));
}

#[test]
fn writer_sees_its_own_uncommitted_write() {
    let mut conn = Connection::open("/tmp/wt-own", "create", None).unwrap();
    let sess = conn.open_session().unwrap();
    sess.create(&mut conn, "table:foo", "").unwrap();
    let cur = sess.open_cursor(&mut conn, "table:foo", "").unwrap();
    let mut txn = sess.transaction(&mut conn, "").unwrap();
    cur.set_key_value(&mut conn, "tyler", "brock");
    cur.insert(&mut conn).unwrap();
    cur.set_key(&mut conn, "tyler");
    cur.search(&mut conn).unwrap();
    let (_, v) = cur.get_raw_key_value(&conn).unwrap();
    assert_eq!(std::str::from_utf8(&v.unwrap()).unwrap(), "brock");
    txn.commit(&mut conn, "").unwrap();
}

#[test]
fn finalize_happens_only_once() {
    let mut conn = Connection::open("/tmp/wt-once", "create", None).unwrap();
    let sess = conn.open_session().unwrap();
    let mut txn = sess.transaction(&mut conn, "").unwrap();
    assert!(!txn.is_finished());
    txn.commit(&mut conn, "").unwrap();
    assert!(txn.is_finished());
    // A second finalize is refused before anything reaches the engine.
    assert!(matches!(txn.commit(&mut conn, ""), Err(Error { code, .. }) if code == 22));
    assert!(matches!(txn.rollback(&mut conn, ""), Err(Error { code, .. }) if code == 22));
    // The session is free for a new transaction.
    assert!(sess.begin_transaction(&mut conn, "").is_ok());
    assert!(sess.commit_transaction(&mut conn, "").is_ok());
}

#[test]
fn one_transaction_per_session() {
    let mut conn = Connection::open("/tmp/wt-one", "create", None).unwrap();
    let sess = conn.open_session().unwrap();
    sess.begin_transaction(&mut conn, "").unwrap();
    assert!(matches!(sess.begin_transaction(&mut conn, ""), Err(Error { code, .. }) if code == 22));
    assert!(matches!(sess.transaction(&mut conn, ""), Err(Error { code, .. }) if code == 22));
    sess.rollback_transaction(&mut conn, "").unwrap();
    // Finalizing without a transaction is invalid.
    assert!(
        matches!(sess.commit_transaction(&mut conn, ""), Err(Error { code, .. }) if code == 22)
    );
    assert!(
        matches!(sess.rollback_transaction(&mut conn, ""), Err(Error { code, .. }) if code == 22)
    );
}

#[test]
fn prepare_is_not_a_finalize() {
    let mut conn = Connection::open("/tmp/wt-prep", "create", None).unwrap();
    let sess = conn.open_session().unwrap();
    sess.create(&mut conn, "table:foo", "").unwrap();
    let cur = sess.open_cursor(&mut conn, "table:foo", "").unwrap();
    let mut txn = sess.transaction(&mut conn, "").unwrap();
    cur.set_key_value(&mut conn, "k", "v");
    cur.insert(&mut conn).unwrap();
    txn.prepare(&mut conn, "").unwrap();
    assert!(!txn.is_finished());
    // Preparing twice is invalid; committing after prepare works.
    assert!(matches!(txn.prepare(&mut conn, ""), Err(Error { code, .. }) if code == 22));
    txn.commit(&mut conn, "").unwrap();
    cur.set_key(&mut conn, "k");
    assert!(cur.search(&mut conn).is_ok());
}

#[test]
fn reserve_needs_a_transaction_and_the_record() {
    let mut conn = Connection::open("/tmp/wt-res", "create", None).unwrap();
    let sess = conn.open_session().unwrap();
    sess.create(&mut conn, "table:foo", "").unwrap();
    let cur = sess.open_cursor(&mut conn, "table:foo", "").unwrap();
    cur.set_key_value(&mut conn, "k", "v");
    cur.insert(&mut conn).unwrap();
    cur.set_key(&mut conn, "k");
    assert!(matches!(cur.reserve(&conn), Err(Error { code, .. }) if code == 22));
    let mut txn = sess.transaction(&mut conn, "").unwrap();
    cur.set_key(&mut conn, "k");
    assert!(cur.reserve(&conn).is_ok());
    cur.set_key(&mut conn, "missing");
    assert!(matches!(cur.reserve(&conn), Err(Error { code, .. }) if code == -31803));
    txn.rollback(&mut conn, "").unwrap();
}

#[test]
fn reset_snapshot_refreshes_a_readonly_transaction() {
    let mut conn = Connection::open("/tmp/wt-snap", "create", None).unwrap();
    let reader = conn.open_session().unwrap();
    let writer = conn.open_session().unwrap();
    writer.create(&mut conn, "table:foo", "").unwrap();
    let rcur = reader.open_cursor(&mut conn, "table:foo", "").unwrap();
    reader.begin_transaction(&mut conn, "isolation=snapshot").unwrap();
    // A commit from elsewhere lands after the reader's snapshot was taken.
    let wcur = writer.open_cursor(&mut conn, "table:foo", "").unwrap();
    wcur.set_key_value(&mut conn, "k", "v");
    wcur.insert(&mut conn).unwrap();
    rcur.set_key(&mut conn, "k");
    assert!(matches!(rcur.search(&mut conn), Err(Error { code, .. }) if code == -31803));
    // Refreshing the snapshot shows it.
    reader.reset_snapshot(&mut conn).unwrap();
    rcur.set_key(&mut conn, "k");
    assert!(rcur.search(&mut conn).is_ok());
    reader.rollback_transaction(&mut conn, "").unwrap();
}

#[test]
fn session_reset_unpositions_its_cursors() {
    let mut conn = Connection::open("/tmp/wt-sres", "create", None).unwrap();
    let sess = conn.open_session().unwrap();
    sess.create(&mut conn, "table:foo", "").unwrap();
    let cur = sess.open_cursor(&mut conn, "table:foo", "").unwrap();
    cur.set_key_value(&mut conn, "a", "1");
    cur.insert(&mut conn).unwrap();
    cur.next(&mut conn).unwrap();
    sess.reset(&mut conn).unwrap();
    let (k, v) = cur.get_raw_key_value(&conn).unwrap();
    assert!(k.is_none());
    assert!(v.is_none());
    // After the reset the scan starts over from the beginning.
    cur.next(&mut conn).unwrap();
    let (k, _) = cur.get_raw_key_value(&conn).unwrap();
    assert_eq!(std::str::from_utf8(&k.unwrap()).unwrap(), "a");
}
