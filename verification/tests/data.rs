//! Inserting, searching, scanning and the cursor operations.

use wiredtiger::Connection;
use wiredtiger::CompareStatus;
use wiredtiger::Error;

#[test]
fn test_basic() {
    let stored = {
        let mut conn =
            Connection::open("/tmp/wt-basic", "create", None).expect("failed to open connection");
        let sess = conn.open_session().unwrap();
        sess.create(&mut conn, "table:foo", "").unwrap();

        sess.create(&mut conn, "table:mytable", "key_format=S,value_format=S").unwrap();
        let cur = sess.open_cursor(&mut conn, "table:mytable", "").unwrap();

        cur.set_key(&mut conn, "tyler");
        cur.set_value(&mut conn, "brock");
        cur.insert(&mut conn).unwrap();

        cur.set_key(&mut conn, "mike");
        cur.set_value(&mut conn, "obrien");
        cur.insert(&mut conn).unwrap();

        cur.set_key(&mut conn, "tyler");
        cur.search(&mut conn).unwrap();

        let (k, v) = cur.get_raw_key_value(&conn).unwrap();
        let (k, v) = (k.unwrap(), v.unwrap());

        assert_eq!(std::str::from_utf8(&k).unwrap(), "tyler");
        assert_eq!(std::str::from_utf8(&v).unwrap(), "brock");

        conn.close().unwrap()
    };

    // Re-open the stored image and assert the data is still in there.
    {
        let mut conn = Connection::open("/tmp/wt-basic", "create", Some(stored))
            .expect("failed to open connection");
        let sess = conn.open_session().unwrap();
        let cur = sess.open_cursor(&mut conn, "table:mytable", "").unwrap();

        cur.next(&mut conn).unwrap();
        let (k, v) = cur.get_raw_key_value(&conn).unwrap();
        let (k, v) = (k.unwrap(), v.unwrap());
        assert_eq!(std::str::from_utf8(&k).unwrap(), "mike");
        assert_eq!(std::str::from_utf8(&v).unwrap(), "obrien");

        cur.next(&mut conn).unwrap();
        let (k, v) = cur.get_raw_key_value(&conn).unwrap();
        let (k, v) = (k.unwrap(), v.unwrap());
        assert_eq!(std::str::from_utf8(&k).unwrap(), "tyler");
        assert_eq!(std::str::from_utf8(&v).unwrap(), "brock");
    }
}

#[test]
fn test() {
    let mut conn = Connection::open("/tmp/wt-raw", "create", None).unwrap();
    let session = conn.open_session().unwrap();

    // Create a new table with string keys and string values.
    session.create(&mut conn, "table:mytable", "key_format=S,value_format=S").unwrap();

    // Insert a k/v.
    let cursor = session.open_cursor(&mut conn, "table:mytable", "").unwrap();
    cursor.set_key(&mut conn, "tyler");
    cursor.set_value(&mut conn, "brock");
    cursor.insert(&mut conn).unwrap();

    // Insert another k/v.
    cursor.set_key(&mut conn, "mike");
    cursor.set_value(&mut conn, "obrien");
    cursor.insert(&mut conn).unwrap();
    cursor.reset(&mut conn).unwrap();

    // Search for the first inserted one again.
    cursor.set_key(&mut conn, "tyler");
    cursor.search(&mut conn).unwrap();
    let (k, v) = cursor.get_raw_key_value(&conn).unwrap();
    let (k, v) = (k.unwrap(), v.unwrap());

    assert_eq!(std::str::from_utf8(&k).unwrap(), "tyler");
    assert_eq!(std::str::from_utf8(&v).unwrap(), "brock");

    assert!(cursor.close(&mut conn).is_ok());
    assert!(session.close(&mut conn).is_ok());
    assert!(conn.close().is_ok());
}

// Round trip: N distinct keys inserted, everything closed, the image
// reopened without "create"; a forward scan yields exactly the N keys in
// ascending key order, and every step past the last reports not-found.
#[test]
fn round_trip_scan_ascending() {
    let stored = {
        let mut conn = Connection::open("/tmp/wt-scan", "create", None).unwrap();
        let sess = conn.open_session().unwrap();
        sess.create(&mut conn, "table:foo", "").unwrap();
        let cur = sess.open_cursor(&mut conn, "table:foo", "").unwrap();
        for (k, v) in [("delta", "4"), ("alpha", "1"), ("charlie", "3"), ("bravo", "2")] {
            cur.set_key_value(&mut conn, k, v);
            cur.insert(&mut conn).unwrap();
        }
        cur.close(&mut conn).unwrap();
        sess.close(&mut conn).unwrap();
        conn.close().unwrap()
    };
    let mut conn = Connection::open("/tmp/wt-scan", "", Some(stored)).unwrap();
    let sess = conn.open_session().unwrap();
    let cur = sess.open_cursor(&mut conn, "table:foo", "").unwrap();
    cur.reset(&mut conn).unwrap();
    let mut seen: Vec<String> = Vec::new();
    while cur.next(&mut conn).is_ok() {
        let (k, _) = cur.get_raw_key_value(&conn).unwrap();
        seen.push(String::from_utf8(k.unwrap()).unwrap());
    }
    assert_eq!(seen, vec!["alpha", "bravo", "charlie", "delta"]);
    // Past the last row, every further step reports the sentinel.
    assert!(matches!(cur.next(&mut conn), Err(Error { code, .. }) if code == -31803));
    assert!(matches!(cur.next(&mut conn), Err(Error { code, .. }) if code == -31803));
}

#[test]
fn prev_scans_descending() {
    let mut conn = Connection::open("/tmp/wt-prev", "create", None).unwrap();
    let sess = conn.open_session().unwrap();
    sess.create(&mut conn, "table:foo", "").unwrap();
    let cur = sess.open_cursor(&mut conn, "table:foo", "").unwrap();
    for (k, v) in [("a", "1"), ("b", "2"), ("c", "3")] {
        cur.set_key_value(&mut conn, k, v);
        cur.insert(&mut conn).unwrap();
    }
    let mut seen: Vec<String> = Vec::new();
    while cur.prev(&mut conn).is_ok() {
        let (k, _) = cur.get_raw_key_value(&conn).unwrap();
        seen.push(String::from_utf8(k.unwrap()).unwrap());
    }
    assert_eq!(seen, vec!["c", "b", "a"]);
}

#[test]
fn insert_overwrites_equal_key_by_default() {
    let mut conn = Connection::open("/tmp/wt-over", "create", None).unwrap();
    let sess = conn.open_session().unwrap();
    sess.create(&mut conn, "table:foo", "").unwrap();
    let cur = sess.open_cursor(&mut conn, "table:foo", "").unwrap();
    cur.set_key_value(&mut conn, "k", "first");
    cur.insert(&mut conn).unwrap();
    cur.set_key_value(&mut conn, "k", "second");
    cur.insert(&mut conn).unwrap();
    cur.set_key(&mut conn, "k");
    cur.search(&mut conn).unwrap();
    let (_, v) = cur.get_raw_key_value(&conn).unwrap();
    assert_eq!(std::str::from_utf8(&v.unwrap()).unwrap(), "second");
}

#[test]
fn insert_without_overwrite_reports_duplicate() {
    let mut conn = Connection::open("/tmp/wt-dup", "create", None).unwrap();
    let sess = conn.open_session().unwrap();
    sess.create(&mut conn, "table:foo", "").unwrap();
    let cur = sess.open_cursor(&mut conn, "table:foo", "overwrite=false").unwrap();
    cur.set_key_value(&mut conn, "k", "first");
    cur.insert(&mut conn).unwrap();
    cur.set_key_value(&mut conn, "k", "second");
    let res = cur.insert(&mut conn);
    assert!(
        matches!(res, Err(Error { code, message })
        if code == -31801 && message == "WT_DUPLICATE_KEY: attempt to insert an existing key")
    );
}

#[test]
fn update_without_overwrite_needs_the_record() {
    let mut conn = Connection::open("/tmp/wt-upd", "create", None).unwrap();
    let sess = conn.open_session().unwrap();
    sess.create(&mut conn, "table:foo", "").unwrap();
    let cur = sess.open_cursor(&mut conn, "table:foo", "overwrite=false").unwrap();
    cur.set_key_value(&mut conn, "k", "v");
    let res = cur.update(&mut conn);
    assert!(matches!(res, Err(Error { code, .. }) if code == -31803));
    cur.set_key_value(&mut conn, "k", "v");
    cur.insert(&mut conn).unwrap();
    cur.set_key_value(&mut conn, "k", "w");
    cur.update(&mut conn).unwrap();
    cur.set_key(&mut conn, "k");
    cur.search(&mut conn).unwrap();
    let (_, v) = cur.get_raw_key_value(&conn).unwrap();
    assert_eq!(std::str::from_utf8(&v.unwrap()).unwrap(), "w");
}

#[test]
fn remove_unbinds_a_key() {
    let mut conn = Connection::open("/tmp/wt-rem", "create", None).unwrap();
    let sess = conn.open_session().unwrap();
    sess.create(&mut conn, "table:foo", "").unwrap();
    let cur = sess.open_cursor(&mut conn, "table:foo", "").unwrap();
    cur.set_key_value(&mut conn, "k", "v");
    cur.insert(&mut conn).unwrap();
    cur.set_key(&mut conn, "k");
    cur.remove(&mut conn).unwrap();
    cur.set_key(&mut conn, "k");
    assert!(matches!(cur.search(&mut conn), Err(Error { code, .. }) if code == -31803));
    // Removing a missing key: fine by default, the sentinel without overwrite.
    cur.set_key(&mut conn, "k");
    assert!(cur.remove(&mut conn).is_ok());
    let strict = sess.open_cursor(&mut conn, "table:foo", "overwrite=false").unwrap();
    strict.set_key(&mut conn, "k");
    assert!(matches!(strict.remove(&mut conn), Err(Error { code, .. }) if code == -31803));
}

#[test]
fn search_near_lands_on_the_nearest_key() {
    let mut conn = Connection::open("/tmp/wt-near", "create", None).unwrap();
    let sess = conn.open_session().unwrap();
    sess.create(&mut conn, "table:foo", "").unwrap();
    let cur = sess.open_cursor(&mut conn, "table:foo", "").unwrap();
    for (k, v) in [("bb", "1"), ("dd", "2")] {
        cur.set_key_value(&mut conn, k, v);
        cur.insert(&mut conn).unwrap();
    }
    cur.set_key(&mut conn, "bb");
    assert!(matches!(cur.search_near(&mut conn), Ok(CompareStatus::Equal)));
    cur.set_key(&mut conn, "cc");
    assert!(matches!(cur.search_near(&mut conn), Ok(CompareStatus::GreaterThan)));
    let (k, _) = cur.get_raw_key_value(&conn).unwrap();
    assert_eq!(std::str::from_utf8(&k.unwrap()).unwrap(), "dd");
    cur.set_key(&mut conn, "zz");
    assert!(matches!(cur.search_near(&mut conn), Ok(CompareStatus::LessThan)));
    let (k, _) = cur.get_raw_key_value(&conn).unwrap();
    assert_eq!(std::str::from_utf8(&k.unwrap()).unwrap(), "dd");
    let empty = sess.open_cursor(&mut conn, "table:foo", "").unwrap();
    sess.create(&mut conn, "table:none", "").unwrap();
    let none = sess.open_cursor(&mut conn, "table:none", "").unwrap();
    none.set_key(&mut conn, "x");
    assert!(matches!(none.search_near(&mut conn), Err(Error { code, .. }) if code == -31803));
    drop(empty);
}

#[test]
fn largest_key_stages_the_maximum() {
    let mut conn = Connection::open("/tmp/wt-big", "create", None).unwrap();
    let sess = conn.open_session().unwrap();
    sess.create(&mut conn, "table:foo", "").unwrap();
    let cur = sess.open_cursor(&mut conn, "table:foo", "").unwrap();
    for (k, v) in [("a", "1"), ("m", "2"), ("z", "3")] {
        cur.set_key_value(&mut conn, k, v);
        cur.insert(&mut conn).unwrap();
    }
    cur.largest_key(&mut conn).unwrap();
    let (k, v) = cur.get_raw_key_value(&conn).unwrap();
    assert_eq!(std::str::from_utf8(&k.unwrap()).unwrap(), "z");
    assert!(v.is_none());
}

#[test]
fn compare_and_equals_follow_key_order() {
    let mut conn = Connection::open("/tmp/wt-cmp2", "create", None).unwrap();
    let sess = conn.open_session().unwrap();
    sess.create(&mut conn, "table:foo", "").unwrap();
    let a = sess.open_cursor(&mut conn, "table:foo", "").unwrap();
    let b = sess.open_cursor(&mut conn, "table:foo", "").unwrap();
    a.set_key(&mut conn, "aa");
    b.set_key(&mut conn, "bb");
    assert!(matches!(a.compare(&conn, &b), Ok(CompareStatus::LessThan)));
    assert!(matches!(b.compare(&conn, &a), Ok(CompareStatus::GreaterThan)));
    assert_eq!(a.equals(&conn, &b).unwrap(), false);
    b.set_key(&mut conn, "aa");
    assert!(matches!(a.compare(&conn, &b), Ok(CompareStatus::Equal)));
    assert_eq!(a.equals(&conn, &b).unwrap(), true);
}

#[test]
fn duplicate_is_an_independent_position() {
    let mut conn = Connection::open("/tmp/wt-dupc", "create", None).unwrap();
    let sess = conn.open_session().unwrap();
    sess.create(&mut conn, "table:foo", "").unwrap();
    let cur = sess.open_cursor(&mut conn, "table:foo", "").unwrap();
    for (k, v) in [("a", "1"), ("b", "2")] {
        cur.set_key_value(&mut conn, k, v);
        cur.insert(&mut conn).unwrap();
    }
    cur.next(&mut conn).unwrap();
    let dup = cur.duplicate(&mut conn, "").unwrap();
    // The duplicate starts where the original stands, then moves alone.
    dup.next(&mut conn).unwrap();
    let (kd, _) = dup.get_raw_key_value(&conn).unwrap();
    assert_eq!(std::str::from_utf8(&kd.unwrap()).unwrap(), "b");
    let (ko, _) = cur.get_raw_key_value(&conn).unwrap();
    assert_eq!(std::str::from_utf8(&ko.unwrap()).unwrap(), "a");
}

#[test]
fn search_without_a_key_is_invalid() {
    let mut conn = Connection::open("/tmp/wt-nokey", "create", None).unwrap();
    let sess = conn.open_session().unwrap();
    sess.create(&mut conn, "table:foo", "").unwrap();
    let cur = sess.open_cursor(&mut conn, "table:foo", "").unwrap();
    assert!(matches!(cur.search(&mut conn), Err(Error { code, .. }) if code == 22));
}

#[test]
fn bounds_confine_the_scan() {
    let mut conn = Connection::open("/tmp/wt-bnd", "create", None).unwrap();
    let sess = conn.open_session().unwrap();
    sess.create(&mut conn, "table:foo", "").unwrap();
    let cur = sess.open_cursor(&mut conn, "table:foo", "").unwrap();
    for (k, v) in [("a", "1"), ("b", "2"), ("c", "3"), ("d", "4")] {
        cur.set_key_value(&mut conn, k, v);
        cur.insert(&mut conn).unwrap();
    }
    // Bound the range to [b, c].
    cur.set_key(&mut conn, "b");
    cur.bound(&mut conn, "bound=lower").unwrap();
    cur.set_key(&mut conn, "c");
    cur.bound(&mut conn, "action=set,bound=upper").unwrap();
    cur.reset(&mut conn).unwrap();
    let mut seen: Vec<String> = Vec::new();
    while cur.next(&mut conn).is_ok() {
        let (k, _) = cur.get_raw_key_value(&conn).unwrap();
        seen.push(String::from_utf8(k.unwrap()).unwrap());
    }
    assert_eq!(seen, vec!["b", "c"]);
    // An exact search outside the bounds is the sentinel; inside it works.
    cur.set_key(&mut conn, "a");
    assert!(matches!(cur.search(&mut conn), Err(Error { code, .. }) if code == -31803));
    cur.set_key(&mut conn, "b");
    assert!(cur.search(&mut conn).is_ok());
    // Clearing the bounds widens the scan again.
    cur.bound(&mut conn, "action=clear").unwrap();
    cur.reset(&mut conn).unwrap();
    let mut n = 0;
    while cur.next(&mut conn).is_ok() {
        n += 1;
    }
    assert_eq!(n, 4);
    // A malformed bound call is invalid.
    assert!(matches!(cur.bound(&mut conn, "bogus"), Err(Error { code, .. }) if code == 22));
    cur.set_key(&mut conn, "b");
    assert!(matches!(cur.bound(&mut conn, ""), Err(Error { code, .. }) if code == 22));
}
