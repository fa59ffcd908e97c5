use resp_store::command::{Command, CommandParseError};
use resp_store::store::{Database, DatabaseValue};
use resp_store::RespValue;

fn string_value(bytes: &[u8]) -> DatabaseValue {
    DatabaseValue::String(bytes.to_vec())
}

fn expect_string(v: Option<DatabaseValue>, expected: &[u8]) {
    match v {
        Some(DatabaseValue::String(s)) => assert_eq!(s, expected.to_vec()),
        other => panic!("expected a stored string, got {:?}", other),
    }
}

#[test]
fn get_returns_what_set_stored() {
    let mut db = Database::new();
    db.set(b"k", string_value(b"v"), None, 0);
    expect_string(db.get(b"k", 0), b"v");
    assert!(db.get(b"missing", 0).is_none());
}

#[test]
fn expiration_is_lazy_and_uses_the_injected_clock() {
    let mut db = Database::new();
    db.set(b"k", string_value(b"v"), Some(100), 0);
    // before the hundred milliseconds elapse the value is there
    expect_string(db.get(b"k", 99), b"v");
    // once they have elapsed the entry is absent, and stays absent
    assert!(db.get(b"k", 100).is_none());
    assert!(!db.exists_key(b"k", 100));
}

#[test]
fn overwrite_replaces_value_and_expiration_state() {
    let mut db = Database::new();
    db.set(b"k", string_value(b"v1"), None, 0);
    db.set(b"k", string_value(b"v2"), Some(60_000), 0);
    expect_string(db.get(b"k", 0), b"v2");
    // the new expiration is live, then takes effect
    assert!(db.exists_key(b"k", 59_999));
    assert!(!db.exists_key(b"k", 60_000));
    // overwriting a timed entry with a plain one clears the expiration
    db.set(b"p", string_value(b"x"), Some(10), 0);
    db.set(b"p", string_value(b"y"), None, 0);
    expect_string(db.get(b"p", 1_000_000), b"y");
}

#[test]
fn delete_reports_only_live_entries() {
    let mut db = Database::new();
    db.set(b"k", string_value(b"v"), None, 0);
    assert!(db.delete(b"k", 0));
    assert!(!db.delete(b"k", 0));
    // an expired entry counts as absent but is still swept
    db.set(b"t", string_value(b"v"), Some(5), 0);
    assert!(!db.delete(b"t", 10));
    assert!(!db.exists_key(b"t", 0));
}

#[test]
fn exists_matches_get_without_the_value() {
    let mut db = Database::new();
    assert!(!db.exists_key(b"k", 0));
    db.set(b"k", string_value(b"v"), None, 0);
    assert!(db.exists_key(b"k", 0));
}

#[test]
fn keys_are_independent() {
    let mut db = Database::new();
    db.set(b"a", string_value(b"1"), None, 0);
    db.set(b"b", string_value(b"2"), Some(10), 0);
    expect_string(db.get(b"a", 50), b"1");
    assert!(db.get(b"b", 50).is_none());
    expect_string(db.get(b"a", 50), b"1");
}

#[test]
fn stored_aggregates_round_trip_through_get() {
    let mut db = Database::new();
    let v = DatabaseValue::Array(vec![
        DatabaseValue::Integer(1),
        DatabaseValue::Double(b"2.5".to_vec()),
        DatabaseValue::Null,
    ]);
    db.set(b"k", v, None, 0);
    match db.get(b"k", 0) {
        Some(DatabaseValue::Array(elems)) => {
            assert_eq!(elems.len(), 3);
            match &elems[0] {
                DatabaseValue::Integer(i) => assert_eq!(*i, 1),
                other => panic!("unexpected element {:?}", other),
            }
            match &elems[1] {
                DatabaseValue::Double(t) => assert_eq!(t, &b"2.5".to_vec()),
                other => panic!("unexpected element {:?}", other),
            }
        }
        other => panic!("expected an array, got {:?}", other),
    }
}

#[test]
fn ping_command_parses_with_and_without_argument() {
    match Command::try_from(vec![RespValue::BulkString(b"PING".to_vec())]) {
        Ok(Command::Ping(None)) => {}
        other => panic!("unexpected {:?}", other),
    }
    match Command::try_from(vec![
        RespValue::BulkString(b"pInG".to_vec()),
        RespValue::BulkString(b"hey".to_vec()),
    ]) {
        Ok(Command::Ping(Some(msg))) => assert_eq!(msg, b"hey".to_vec()),
        other => panic!("unexpected {:?}", other),
    }
}

#[test]
fn echo_command_takes_exactly_one_bulk_argument() {
    match Command::try_from(vec![
        RespValue::BulkString(b"echo".to_vec()),
        RespValue::BulkString(b"hello".to_vec()),
    ]) {
        Ok(Command::Echo(msg)) => assert_eq!(msg, b"hello".to_vec()),
        other => panic!("unexpected {:?}", other),
    }
    assert_eq!(
        Command::try_from(vec![RespValue::BulkString(b"ECHO".to_vec())]).unwrap_err(),
        CommandParseError::InvalidArguments
    );
    assert_eq!(
        Command::try_from(vec![
            RespValue::BulkString(b"ECHO".to_vec()),
            RespValue::Integer(1),
        ])
        .unwrap_err(),
        CommandParseError::WrongArgType
    );
}

#[test]
fn command_parse_errors() {
    assert_eq!(
        Command::try_from(vec![]).unwrap_err(),
        CommandParseError::EmptyCommandName
    );
    assert_eq!(
        Command::try_from(vec![RespValue::Integer(1)]).unwrap_err(),
        CommandParseError::WrongArgType
    );
    assert_eq!(
        Command::try_from(vec![
            RespValue::BulkString(b"PING".to_vec()),
            RespValue::BulkString(b"a".to_vec()),
            RespValue::BulkString(b"b".to_vec()),
        ])
        .unwrap_err(),
        CommandParseError::TooManyArguments
    );
    assert_eq!(
        Command::try_from(vec![
            RespValue::BulkString(b"PING".to_vec()),
            RespValue::Integer(1),
        ])
        .unwrap_err(),
        CommandParseError::WrongArgType
    );
    assert_eq!(
        Command::try_from(vec![RespValue::BulkString(b"NOPE".to_vec())]).unwrap_err(),
        CommandParseError::CommandDoesNotExist
    );
    match Command::try_from(vec![RespValue::BulkString(b"CoMmAnD".to_vec())]) {
        Ok(Command::Command) => {}
        other => panic!("unexpected {:?}", other),
    }
}
