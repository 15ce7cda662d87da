//! Opening, closing, and the handle hierarchy's release order.

use wiredtiger::Connection;
use wiredtiger::Database;
use wiredtiger::Error;

// Opening a database path with nothing stored and without "create" fails
// with the engine's corruption message.
#[test]
fn test_open_not_found() {
    let res = Connection::open("/tmp/wt-missing", "", None);
    if let Err(Error { code: _, message }) = res {
        assert_eq!(message, "WT_TRY_SALVAGE: database corruption detected");
    } else {
        panic!("expected an error");
    }
}

#[test]
fn open_with_create_is_new() {
    let conn = Connection::open("/tmp/wt-new", "create", None).expect("failed to open connection");
    assert!(conn.is_new());
    assert_eq!(conn.get_home().unwrap(), "/tmp/wt-new");
    let stored = conn.close().unwrap();
    let conn2 = Connection::open("/tmp/wt-new", "", Some(stored)).unwrap();
    assert!(!conn2.is_new());
}

#[test]
fn open_rejects_bogus_options() {
    let res = Connection::open("/tmp/wt-bad", "bogus", None);
    assert!(matches!(res, Err(Error { code, .. }) if code == 22));
}

#[test]
fn open_exclusive_on_existing_fails() {
    let conn = Connection::open("/tmp/wt-x", "create", None).unwrap();
    let stored = conn.close().unwrap();
    let res = Connection::open("/tmp/wt-x", "create,exclusive", Some(stored));
    assert!(matches!(res, Err(Error { code, message }) if code == 17 && message == "File exists"));
}

// Destroying a cursor, then its session, then the connection, in that
// order, never errors; a cursor whose session is gone answers every call
// with the invalid-argument error instead of reaching freed state.
#[test]
fn release_order_never_errors() {
    let mut conn = Connection::open("/tmp/wt-rel", "create", None).unwrap();
    let sess = conn.open_session().unwrap();
    sess.create(&mut conn, "table:foo", "").unwrap();
    let cur = sess.open_cursor(&mut conn, "table:foo", "").unwrap();
    assert!(cur.close(&mut conn).is_ok());
    assert!(sess.close(&mut conn).is_ok());
    assert!(conn.close().is_ok());
}

#[test]
fn stale_cursor_reports_invalid_argument() {
    let mut conn = Connection::open("/tmp/wt-stale", "create", None).unwrap();
    let sess = conn.open_session().unwrap();
    sess.create(&mut conn, "table:foo", "").unwrap();
    let cur = sess.open_cursor(&mut conn, "table:foo", "").unwrap();
    // Closing the session closes its cursors with it.
    sess.close(&mut conn).unwrap();
    assert!(matches!(cur.search(&mut conn), Err(Error { code, .. }) if code == 22));
    assert!(matches!(cur.get_raw_key_value(&conn), Err(Error { code, .. }) if code == 22));
    assert!(matches!(cur.close(&mut conn), Err(Error { code, .. }) if code == 22));
}

#[test]
fn session_close_fails_under_open_transaction() {
    let mut conn = Connection::open("/tmp/wt-txo", "create", None).unwrap();
    let sess = conn.open_session().unwrap();
    sess.begin_transaction(&mut conn, "").unwrap();
    let sess = match sess.close(&mut conn) {
        Err((sess, e)) => {
            assert_eq!(e.code, 22);
            sess
        },
        Ok(()) => panic!("expected an error"),
    };
    sess.rollback_transaction(&mut conn, "").unwrap();
    assert!(sess.close(&mut conn).is_ok());
}

#[test]
fn close_with_config_checks_options() {
    let conn = Connection::open("/tmp/wt-cwc", "create", None).unwrap();
    let conn = match conn.close_with_config("bogus") {
        Err((conn, e)) => {
            assert_eq!(e.code, 22);
            assert_eq!(e.message, "Invalid argument");
            conn
        },
        Ok(_) => panic!("expected an error"),
    };
    assert!(conn.close_with_config("leak_memory").is_ok());
}

#[test]
fn create_table_is_idempotent_unless_exclusive() {
    let mut conn = Connection::open("/tmp/wt-cre", "create", None).unwrap();
    let sess = conn.open_session().unwrap();
    sess.create(&mut conn, "table:foo", "").unwrap();
    sess.create(&mut conn, "table:foo", "").unwrap();
    let res = sess.create(&mut conn, "table:foo", "exclusive");
    assert!(matches!(res, Err(Error { code, .. }) if code == 17));
}

#[test]
fn drop_table_cases() {
    let mut conn = Connection::open("/tmp/wt-drop", "create", None).unwrap();
    let sess = conn.open_session().unwrap();
    sess.create(&mut conn, "table:foo", "").unwrap();
    // A live cursor keeps the table busy.
    let cur = sess.open_cursor(&mut conn, "table:foo", "").unwrap();
    assert!(matches!(sess.drop(&mut conn, "table:foo", ""), Err(Error { code, .. }) if code == 16));
    cur.close(&mut conn).unwrap();
    assert!(sess.drop(&mut conn, "table:foo", "").is_ok());
    // Gone now: not found without force, fine with force.
    assert!(matches!(sess.drop(&mut conn, "table:foo", ""), Err(Error { code, .. }) if code == 2));
    assert!(sess.drop(&mut conn, "table:foo", "force").is_ok());
    // A cursor cannot open over a missing table.
    let res = sess.open_cursor(&mut conn, "table:foo", "");
    assert!(matches!(res, Err(Error { code, .. }) if code == 2));
}

#[test]
fn compact_needs_an_existing_table() {
    let mut conn = Connection::open("/tmp/wt-cmp", "create", None).unwrap();
    let sess = conn.open_session().unwrap();
    sess.create(&mut conn, "table:foo", "").unwrap();
    assert!(sess.compact(&conn, "table:foo", "").is_ok());
    assert!(matches!(sess.compact(&conn, "table:bar", ""), Err(Error { code, .. }) if code == 2));
}

#[test]
fn database_image_starts_empty() {
    let db = Database::empty();
    let conn = Connection::open("/tmp/wt-img", "", Some(db)).unwrap();
    assert!(!conn.is_new());
}
