//! Configuration strings: reconfigure on each handle, the option builder,
//! and the error translator.

use wiredtiger::Connection;
use wiredtiger::CompareStatus;
use wiredtiger::Error;
use wiredtiger::OpenConnectionConfig;
use wiredtiger::error_message;

#[test]
fn test_reconfigure() {
    let mut conn =
        Connection::open("/tmp/wt-rc", "create", None).expect("failed to open connection");
    let sess = conn.open_session().unwrap();

    // Calling connection reconfigure with an invalid config string fails
    assert!(matches!(
        conn.reconfigure("bogus"),
        Err(Error {
            code,
            message,
        })
        if message == "Invalid argument" && code == 22
    ));

    // Calling session reconfigure with an invalid config string fails
    assert!(matches!(
        sess.reconfigure(&conn, "bogus"),
        Err(Error {
            code,
            message,
        })
        if message == "Invalid argument" && code == 22
    ));

    // Calling cursor reconfigure with an invalid config string fails
    sess.create(&mut conn, "table:foo", "").unwrap();
    let cur = sess.open_cursor(&mut conn, "table:foo", "").unwrap();
    assert!(matches!(
        cur.reconfigure(&mut conn, "bogus"),
        Err(Error {
            code,
            message,
        })
        if message == "Invalid argument" && code == 22
    ));

    // Reconfigure with valid args is successful
    assert!(sess.reconfigure(&conn, "cache_max_wait_ms=12").is_ok());
    assert!(conn.reconfigure("eviction_target=75").is_ok());
    assert!(cur.reconfigure(&mut conn, "append=true").is_ok());
}

#[test]
fn reconfigure_holds_numbers_to_their_ranges() {
    let mut conn = Connection::open("/tmp/wt-rng", "create", None).unwrap();
    // 10..=99, and the target must stay below the trigger.
    assert!(matches!(conn.reconfigure("eviction_target=5"), Err(Error { code, .. }) if code == 22));
    assert!(
        matches!(conn.reconfigure("eviction_target=100"), Err(Error { code, .. }) if code == 22)
    );
    assert!(
        matches!(conn.reconfigure("eviction_target=97"), Err(Error { code, .. }) if code == 22)
    );
    assert!(conn.reconfigure("eviction_target=90,eviction_trigger=95").is_ok());
    // Group values carry commas without splitting items.
    assert!(conn.reconfigure("eviction=(threads_max=4,threads_min=2),eviction_target=50").is_ok());
    // An unbalanced group is malformed.
    assert!(
        matches!(conn.reconfigure("eviction=(threads_max=4"), Err(Error { code, .. }) if code == 22)
    );
}

#[test]
fn open_options_follow_the_same_grammar() {
    assert!(Connection::open("/tmp/wt-g1", "create,cache_size=100MB", None).is_ok());
    assert!(Connection::open("/tmp/wt-g2", "create,cache_size=1KB", None).is_err());
    assert!(Connection::open("/tmp/wt-g3", "create,statistics=[all,fast]", None).is_ok());
    assert!(Connection::open("/tmp/wt-g4", "create,eviction_target=96", None).is_err());
    assert!(Connection::open("/tmp/wt-g5", "create,", None).is_ok());
    assert!(Connection::open("/tmp/wt-g6", ",create", None).is_err());
}

#[test]
fn builder_serializes_and_validates() {
    let cfg = OpenConnectionConfig::new();
    assert!(cfg.validate().is_ok());
    assert_eq!(
        cfg.to_string(),
        "create=false,exclusive=false,cache_size=104857600,cache_overhead=8,eviction_target=80,eviction_dirty_target=80,eviction_trigger=95,eviction=(threads_max=1,threads_min=1)"
    );
    let mut cfg = OpenConnectionConfig::new();
    cfg.create = true;
    cfg.eviction_target = 75;
    assert!(cfg.validate().is_ok());
    // The serialized options open a connection: builder output fits the
    // grammar the open validates.
    let opts = cfg.to_string();
    let conn = Connection::open("/tmp/wt-bld", opts.as_str(), None).unwrap();
    assert!(conn.is_new());

    let mut bad = OpenConnectionConfig::new();
    bad.eviction_target = 99;
    bad.eviction_trigger = 95;
    assert!(matches!(bad.validate(), Err(Error { code, .. }) if code == 22));
    bad.eviction_target = 9;
    assert!(bad.validate().is_err());
    bad.eviction_target = 80;
    bad.cache_size = 1024;
    assert!(bad.validate().is_err());
}

#[test]
fn error_messages_match_the_engine_texts() {
    assert_eq!(error_message(0), "Successful return: 0");
    assert_eq!(error_message(-31800), "WT_ROLLBACK: conflict between concurrent operations");
    assert_eq!(error_message(-31803), "WT_NOTFOUND: item not found");
    assert_eq!(error_message(-31809), "WT_TRY_SALVAGE: database corruption detected");
    assert_eq!(error_message(22), "Invalid argument");
    assert_eq!(error_message(2), "No such file or directory");
    assert_eq!(error_message(16), "Device or resource busy");
    assert_eq!(error_message(17), "File exists");
    // Unknown codes render generically, sign included.
    assert_eq!(error_message(12345), "error return: 12345");
    assert_eq!(error_message(-7), "error return: -7");
}

#[test]
fn error_values_carry_code_and_message() {
    let e = Error::from_code(-31803);
    assert_eq!(e.code, -31803);
    assert_eq!(e.message, "WT_NOTFOUND: item not found");
    assert!(e.is_not_found());
    let e = Error::from_code(22);
    assert!(!e.is_not_found());
    let e = Error::new(String::from("plain text"));
    assert_eq!(e.code, 0);
    assert_eq!(e.message, "plain text");
}

#[test]
fn compare_status_translates_signs() {
    assert!(matches!(CompareStatus::from_code(-3), CompareStatus::LessThan));
    assert!(matches!(CompareStatus::from_code(0), CompareStatus::Equal));
    assert!(matches!(CompareStatus::from_code(9), CompareStatus::GreaterThan));
}

#[test]
fn begin_transaction_accepts_its_keys() {
    let mut conn = Connection::open("/tmp/wt-bt", "create", None).unwrap();
    let sess = conn.open_session().unwrap();
    assert!(sess.begin_transaction(&mut conn, "name=foo,isolation=snapshot").is_ok());
    assert!(sess.rollback_transaction(&mut conn, "").is_ok());
    assert!(matches!(
        sess.begin_transaction(&mut conn, "bogus"),
        Err(Error { code, .. }) if code == 22
    ));
}
