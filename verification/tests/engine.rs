//! The key-value engine and the command handlers over it.

use velocity::command::{handle_delete, handle_exists, handle_incr_decr, handle_keys, handle_set,
    Command, IncrDecrOpts};
use velocity::database::{DataTypes, DatabaseOps};
use velocity::query::{step, Query, StepResult};
use velocity::value::Value;

fn query(name: &[u8], cmd: Command, args: &[&[u8]]) -> Query {
    Query {
        command_str: name.to_vec(),
        command_enum: cmd,
        args: args.iter().map(|a| a.to_vec()).collect(),
    }
}

fn stored(db: &DatabaseOps, key: &[u8], now: i64) -> Option<Vec<u8>> {
    db.get(key, now).map(|v| match v {
        DataTypes::Str(b) => b,
    })
}

#[test]
fn set_then_get_returns_the_value() {
    let mut db = DatabaseOps::new();
    assert!(db.set(b"k".to_vec(), DataTypes::Str(b"v".to_vec()), None, false, false, 0));
    assert_eq!(stored(&db, b"k", 0), Some(b"v".to_vec()));
    // No expiry: still there much later.
    assert_eq!(stored(&db, b"k", i64::MAX - 1), Some(b"v".to_vec()));
    // Unrelated keys stay untouched by other writes.
    assert!(db.set(b"other".to_vec(), DataTypes::Str(b"w".to_vec()), None, false, false, 0));
    assert_eq!(stored(&db, b"k", 0), Some(b"v".to_vec()));
}

#[test]
fn delete_then_get_is_gone_and_absent_delete_reports_it() {
    let mut db = DatabaseOps::new();
    assert!(db.set(b"k".to_vec(), DataTypes::Str(b"v".to_vec()), None, false, false, 0));
    assert!(db.del(b"k", 0).is_some());
    assert_eq!(stored(&db, b"k", 0), None);
    // Deleting a key that never existed reports "did not exist".
    assert!(db.del(b"absent", 0).is_none());
}

#[test]
fn set_nx_twice_keeps_the_first_value() {
    let mut db = DatabaseOps::new();
    let now = 5;
    let q1 = query(b"set", Command::SetCmd, &[b"k", b"v", b"NX"]);
    assert_eq!(handle_set(&q1, &mut db, now), Value::SimpleString(b"OK".to_vec()));
    let q2 = query(b"set", Command::SetCmd, &[b"k", b"v2", b"NX"]);
    assert_eq!(handle_set(&q2, &mut db, now), Value::Null);
    assert_eq!(stored(&db, b"k", now), Some(b"v".to_vec()));
}

#[test]
fn set_xx_requires_presence() {
    let mut db = DatabaseOps::new();
    let q = query(b"set", Command::SetCmd, &[b"k", b"v", b"XX"]);
    assert_eq!(handle_set(&q, &mut db, 0), Value::Null);
    assert_eq!(stored(&db, b"k", 0), None);
    assert!(db.set(b"k".to_vec(), DataTypes::Str(b"v0".to_vec()), None, false, false, 0));
    let q2 = query(b"set", Command::SetCmd, &[b"k", b"v1", b"xx"]);
    assert_eq!(handle_set(&q2, &mut db, 0), Value::SimpleString(b"OK".to_vec()));
    assert_eq!(stored(&db, b"k", 0), Some(b"v1".to_vec()));
}

#[test]
fn set_with_past_expiry_is_immediately_unreadable() {
    let mut db = DatabaseOps::new();
    let now = 1_000_000;
    // EX 0 expires at the moment of the write itself.
    let q = query(b"set", Command::SetCmd, &[b"k", b"v", b"EX", b"0"]);
    assert_eq!(handle_set(&q, &mut db, now), Value::SimpleString(b"OK".to_vec()));
    // No sweeper has run, yet the key already reads as absent.
    assert_eq!(stored(&db, b"k", now), None);
}

#[test]
fn expiry_boundary_is_at_or_before_now() {
    let mut db = DatabaseOps::new();
    assert!(db.set(b"k".to_vec(), DataTypes::Str(b"v".to_vec()), Some(100), false, false, 0));
    assert_eq!(stored(&db, b"k", 99), Some(b"v".to_vec()));
    assert_eq!(stored(&db, b"k", 100), None);
    assert_eq!(stored(&db, b"k", 101), None);
}

#[test]
fn sweeper_removes_only_dead_keys() {
    let mut db = DatabaseOps::new();
    assert!(db.set(b"dies".to_vec(), DataTypes::Str(b"v".to_vec()), Some(10), false, false, 0));
    assert!(db.set(b"lives".to_vec(), DataTypes::Str(b"w".to_vec()), None, false, false, 0));
    db.delete_expired_keys(50);
    assert_eq!(stored(&db, b"dies", 50), None);
    assert_eq!(stored(&db, b"lives", 50), Some(b"w".to_vec()));
}

#[test]
fn set_modifier_errors_name_the_trouble() {
    let mut db = DatabaseOps::new();
    let q = query(b"set", Command::SetCmd, &[b"k", b"v", b"EX", b"ten"]);
    assert_eq!(
        handle_set(&q, &mut db, 0),
        Value::Error(b"ERR syntax error. Invalid value for EX".to_vec())
    );
    let q2 = query(b"set", Command::SetCmd, &[b"k", b"v", b"EX", b"1", b"PX", b"2"]);
    assert_eq!(
        handle_set(&q2, &mut db, 0),
        Value::Error(b"ERR syntax error. PX cannot be paired with another expiry modifier".to_vec())
    );
    let q3 = query(b"set", Command::SetCmd, &[b"k", b"v", b"NX", b"XX"]);
    assert_eq!(
        handle_set(&q3, &mut db, 0),
        Value::Error(b"ERR syntax error. XX cannot be paired with its opposite".to_vec())
    );
    let q4 = query(b"set", Command::SetCmd, &[b"k", b"v", b"bogus"]);
    assert_eq!(
        handle_set(&q4, &mut db, 0),
        Value::Error(b"ERR syntax error. Invalid modifier: bogus".to_vec())
    );
    let q5 = query(b"set", Command::SetCmd, &[b"k", b"v", b"EX"]);
    assert_eq!(
        handle_set(&q5, &mut db, 0),
        Value::Error(b"ERR syntax error. No value passed for EX".to_vec())
    );
    // A token carrying \r\n is echoed with those bytes cleaned to
    // spaces, so the error stays on one line.
    let q6 = query(b"set", Command::SetCmd, &[b"k", b"v", b"bad\r\ntoken"]);
    assert_eq!(
        handle_set(&q6, &mut db, 0),
        Value::Error(b"ERR syntax error. Invalid modifier: bad  token".to_vec())
    );
    // None of the failed writes touched the store.
    assert_eq!(stored(&db, b"k", 0), None);
}

#[test]
fn incr_counts_without_losing_updates() {
    let mut db = DatabaseOps::new();
    let n = 25;
    for i in 1..=n {
        assert_eq!(db.incr_by(b"k", 1, 0), Some(i));
    }
    assert_eq!(stored(&db, b"k", 0), Some(n.to_string().into_bytes()));
}

#[test]
fn incr_on_text_errors_and_leaves_the_value() {
    let mut db = DatabaseOps::new();
    assert!(db.set(b"k".to_vec(), DataTypes::Str(b"abc".to_vec()), None, false, false, 0));
    let q = query(b"incr", Command::Incr, &[b"k"]);
    assert_eq!(
        handle_incr_decr(&q, &mut db, IncrDecrOpts::Incr, 0),
        Value::Error(b"ERR value is not an integer or out of range".to_vec())
    );
    assert_eq!(stored(&db, b"k", 0), Some(b"abc".to_vec()));
}

#[test]
fn incr_overflow_is_an_error_not_a_wrap() {
    let mut db = DatabaseOps::new();
    let top = i64::MAX.to_string().into_bytes();
    assert!(db.set(b"k".to_vec(), DataTypes::Str(top.clone()), None, false, false, 0));
    assert_eq!(db.incr_by(b"k", 1, 0), None);
    assert_eq!(stored(&db, b"k", 0), Some(top));
}

#[test]
fn decr_from_absent_gives_minus_one() {
    let mut db = DatabaseOps::new();
    let q = query(b"decr", Command::Decr, &[b"k"]);
    assert_eq!(handle_incr_decr(&q, &mut db, IncrDecrOpts::Decr, 0), Value::Integer(-1));
    assert_eq!(stored(&db, b"k", 0), Some(b"-1".to_vec()));
}

#[test]
fn exists_counts_duplicates_separately() {
    let mut db = DatabaseOps::new();
    assert!(db.set(b"a".to_vec(), DataTypes::Str(b"1".to_vec()), None, false, false, 0));
    let q = query(b"exists", Command::Exists, &[b"a", b"a", b"b"]);
    assert_eq!(handle_exists(&q, &db, 0), Value::Integer(2));
}

#[test]
fn del_counts_only_what_was_there() {
    let mut db = DatabaseOps::new();
    assert!(db.set(b"a".to_vec(), DataTypes::Str(b"1".to_vec()), None, false, false, 0));
    assert!(db.set(b"b".to_vec(), DataTypes::Str(b"2".to_vec()), None, false, false, 0));
    let q = query(b"del", Command::Delete, &[b"a", b"missing", b"b"]);
    assert_eq!(handle_delete(&q, &mut db, 0), Value::Integer(2));
    assert_eq!(stored(&db, b"a", 0), None);
    assert_eq!(stored(&db, b"b", 0), None);
}

#[test]
fn keys_filters_by_glob_prefix() {
    let mut db = DatabaseOps::new();
    let q = query(b"keys", Command::Keys, &[b"a*"]);

    // Zero matches: an empty array, not an error and not nil.
    assert_eq!(handle_keys(&q, &db, 0), Value::Array(vec![]));

    assert!(db.set(b"apple".to_vec(), DataTypes::Str(b"1".to_vec()), None, false, false, 0));
    // One match.
    assert_eq!(
        handle_keys(&q, &db, 0),
        Value::Array(vec![Value::BulkString(b"apple".to_vec())])
    );

    assert!(db.set(b"apricot".to_vec(), DataTypes::Str(b"2".to_vec()), None, false, false, 0));
    assert!(db.set(b"banana".to_vec(), DataTypes::Str(b"3".to_vec()), None, false, false, 0));
    // Many: only the keys with prefix "a", in store order.
    assert_eq!(
        handle_keys(&q, &db, 0),
        Value::Array(vec![
            Value::BulkString(b"apple".to_vec()),
            Value::BulkString(b"apricot".to_vec()),
        ])
    );

    // An expired key does not show up.
    let mut db2 = DatabaseOps::new();
    assert!(db2.set(b"aged".to_vec(), DataTypes::Str(b"1".to_vec()), Some(5), false, false, 0));
    assert_eq!(handle_keys(&q, &db2, 10), Value::Array(vec![]));

    // Question marks and classes follow shell-glob rules.
    let q2 = query(b"keys", Command::Keys, &[b"ap?le"]);
    assert_eq!(
        handle_keys(&q2, &db, 0),
        Value::Array(vec![Value::BulkString(b"apple".to_vec())])
    );

    // An empty pattern is a wrong-argument error, never "match all".
    let q3 = query(b"keys", Command::Keys, &[b""]);
    assert_eq!(
        handle_keys(&q3, &db, 0),
        Value::Error(b"ERR wrong number of arguments".to_vec())
    );

    // A pattern the glob rules reject is reported, not a crash.
    let q4 = query(b"keys", Command::Keys, &[b"a[b"]);
    assert_eq!(handle_keys(&q4, &db, 0), Value::Error(b"ERR invalid pattern".to_vec()));
}

#[test]
fn unknown_command_is_reported() {
    let mut db = DatabaseOps::new();
    let q = query(b"flush", Command::from_str(b"flush"), &[]);
    assert_eq!(
        q.command_enum.create_response(&q, &mut db, 0),
        Value::Error(b"Err Unknown command".to_vec())
    );
}

#[test]
fn command_names_are_case_insensitive() {
    assert_eq!(Command::from_str(b"PiNg"), Command::Ping);
    assert_eq!(Command::from_str(b"GET"), Command::Get);
    assert_eq!(Command::from_str(b"del"), Command::Delete);
    assert_eq!(Command::from_str(b"nonsense"), Command::Unknown);
}

#[test]
fn px_and_absolute_modifiers_normalize_to_milliseconds() {
    let mut db = DatabaseOps::new();
    let now = 1_000;

    let q = query(b"set", Command::SetCmd, &[b"p", b"v", b"PX", b"500"]);
    assert_eq!(handle_set(&q, &mut db, now), Value::SimpleString(b"OK".to_vec()));
    assert_eq!(stored(&db, b"p", now + 499), Some(b"v".to_vec()));
    assert_eq!(stored(&db, b"p", now + 500), None);

    // EXAT is purely absolute: seconds since the epoch, not added to now.
    let q2 = query(b"set", Command::SetCmd, &[b"e", b"v", b"EXAT", b"2"]);
    assert_eq!(handle_set(&q2, &mut db, now), Value::SimpleString(b"OK".to_vec()));
    assert_eq!(stored(&db, b"e", 1_999), Some(b"v".to_vec()));
    assert_eq!(stored(&db, b"e", 2_000), None);

    let q3 = query(b"set", Command::SetCmd, &[b"x", b"v", b"PXAT", b"1500"]);
    assert_eq!(handle_set(&q3, &mut db, now), Value::SimpleString(b"OK".to_vec()));
    assert_eq!(stored(&db, b"x", 1_499), Some(b"v".to_vec()));
    assert_eq!(stored(&db, b"x", 1_500), None);
}

#[test]
fn a_plain_set_clears_a_prior_expiry() {
    let mut db = DatabaseOps::new();
    let q = query(b"set", Command::SetCmd, &[b"k", b"v", b"PX", b"10"]);
    assert_eq!(handle_set(&q, &mut db, 0), Value::SimpleString(b"OK".to_vec()));
    let q2 = query(b"set", Command::SetCmd, &[b"k", b"w"]);
    assert_eq!(handle_set(&q2, &mut db, 5), Value::SimpleString(b"OK".to_vec()));
    // Without the rewrite the key would have died at instant 10.
    assert_eq!(stored(&db, b"k", 1_000), Some(b"w".to_vec()));
}

#[test]
fn expire_applies_only_to_live_keys() {
    let mut db = DatabaseOps::new();
    assert!(!db.expire(b"absent", 100, 0));
    assert!(db.set(b"k".to_vec(), DataTypes::Str(b"v".to_vec()), None, false, false, 0));
    assert!(db.expire(b"k", 100, 0));
    assert_eq!(stored(&db, b"k", 99), Some(b"v".to_vec()));
    assert_eq!(stored(&db, b"k", 100), None);
}

#[test]
fn get_and_echo_through_dispatch() {
    let mut db = DatabaseOps::new();
    let setq = query(b"set", Command::SetCmd, &[b"k", b"v"]);
    assert_eq!(handle_set(&setq, &mut db, 0), Value::SimpleString(b"OK".to_vec()));

    let getq = query(b"get", Command::Get, &[b"k"]);
    assert_eq!(
        getq.command_enum.create_response(&getq, &mut db, 0),
        Value::BulkString(b"v".to_vec())
    );
    let missq = query(b"get", Command::Get, &[b"missing"]);
    assert_eq!(missq.command_enum.create_response(&missq, &mut db, 0), Value::Null);

    let echoq = query(b"echo", Command::Echo, &[b"hello"]);
    assert_eq!(
        echoq.command_enum.create_response(&echoq, &mut db, 0),
        Value::BulkString(b"hello".to_vec())
    );
    let badecho = query(b"echo", Command::Echo, &[]);
    assert_eq!(
        badecho.command_enum.create_response(&badecho, &mut db, 0),
        Value::Error(b"ERR wrong number of arguments".to_vec())
    );
}

#[test]
fn full_requests_over_the_wire_format() {
    let mut db = DatabaseOps::new();

    let set = b"*3\r\n$3\r\nSET\r\n$1\r\nk\r\n$1\r\nv\r\n";
    match step(&mut db, set, 0) {
        StepResult::Respond(reply, consumed, close) => {
            assert_eq!(reply, b"+OK\r\n".to_vec());
            assert_eq!(consumed, set.len());
            assert!(!close);
        }
        StepResult::Incomplete => panic!("a whole SET must be answered"),
    }

    let get = b"*2\r\n$3\r\nGET\r\n$1\r\nk\r\n";
    match step(&mut db, get, 0) {
        StepResult::Respond(reply, _, _) => assert_eq!(reply, b"$1\r\nv\r\n".to_vec()),
        StepResult::Incomplete => panic!("a whole GET must be answered"),
    }

    let incr = b"*2\r\n$4\r\nINCR\r\n$1\r\nc\r\n";
    match step(&mut db, incr, 0) {
        StepResult::Respond(reply, _, _) => assert_eq!(reply, b":1\r\n".to_vec()),
        StepResult::Incomplete => panic!("a whole INCR must be answered"),
    }
}
