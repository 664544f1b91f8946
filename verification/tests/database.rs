use kvstore::{Database, InvalidRecordError, LoadError, ReadFailure};

fn text(s: &str) -> String {
    s.to_string()
}

#[test]
fn new_store_is_empty() {
    let db = Database::new();
    assert!(db.is_empty());
    assert_eq!(db.len(), 0);
    assert_eq!(db.get("alice"), None);
}

#[test]
fn empty_text_loads_as_empty_store() {
    let db = Database::parse("").unwrap();
    assert!(db.is_empty());
    assert_eq!(db.len(), 0);
}

#[test]
fn empty_store_writes_empty_text() {
    assert_eq!(Database::new().serialize(), "");
    assert_eq!(Database::parse("").unwrap().serialize(), "");
}

#[test]
fn parse_reads_one_record_per_line() {
    let db = Database::parse("alice\t30\nbob\t25\n").unwrap();
    assert_eq!(db.len(), 2);
    assert_eq!(db.get("alice"), Some("30"));
    assert_eq!(db.get("bob"), Some("25"));
    assert_eq!(db.get("carol"), None);
}

#[test]
fn parse_takes_a_last_line_without_terminator() {
    let db = Database::parse("alice\t30\nbob\t25").unwrap();
    assert_eq!(db.len(), 2);
    assert_eq!(db.get("bob"), Some("25"));
}

#[test]
fn parse_splits_at_the_first_tab_only() {
    let db = Database::parse("path\ta\tb\tc\n").unwrap();
    assert_eq!(db.len(), 1);
    assert_eq!(db.get("path"), Some("a\tb\tc"));
}

#[test]
fn parse_takes_empty_key_and_empty_value() {
    let db = Database::parse("\tvalue\nkey\t\n").unwrap();
    assert_eq!(db.len(), 2);
    assert_eq!(db.get(""), Some("value"));
    assert_eq!(db.get("key"), Some(""));
    let lone = Database::parse("\t").unwrap();
    assert_eq!(lone.len(), 1);
    assert_eq!(lone.get(""), Some(""));
}

#[test]
fn parse_passes_over_empty_lines() {
    let db = Database::parse("\nalice\t30\n\n\nbob\t25\n\n").unwrap();
    assert_eq!(db.len(), 2);
    assert_eq!(db.get("alice"), Some("30"));
    assert_eq!(db.get("bob"), Some("25"));
    assert!(Database::parse("\n").unwrap().is_empty());
    assert!(Database::parse("\n\n\n").unwrap().is_empty());
}

#[test]
fn parse_keeps_a_carriage_return_in_the_value() {
    let db = Database::parse("alice\t30\r\n").unwrap();
    assert_eq!(db.get("alice"), Some("30\r"));
}

#[test]
fn parse_lets_the_last_line_of_a_key_win() {
    let db = Database::parse("k\tv1\nother\tx\nk\tv2\n").unwrap();
    assert_eq!(db.len(), 2);
    assert_eq!(db.get("k"), Some("v2"));
    assert_eq!(db.get("other"), Some("x"));
    assert_eq!(db.serialize(), "k\tv2\nother\tx\n");
}

#[test]
fn parse_refuses_a_line_without_tab() {
    let loaded = Database::parse("alice\t30\nbroken\nbob\t25\n");
    assert_eq!(loaded.unwrap_err(), LoadError::MalformedLine { line: 2 });
}

#[test]
fn parse_names_the_first_malformed_line() {
    assert_eq!(
        Database::parse("first\nsecond\n").unwrap_err(),
        LoadError::MalformedLine { line: 1 }
    );
    assert_eq!(
        Database::parse("\n\na\tb\nbad").unwrap_err(),
        LoadError::MalformedLine { line: 4 }
    );
    assert_eq!(
        Database::parse("a\tb\n \n").unwrap_err(),
        LoadError::MalformedLine { line: 2 }
    );
}

#[test]
fn insert_adds_a_new_key() {
    let mut db = Database::new();
    assert_eq!(db.insert(text("alice"), text("30")), Ok(()));
    assert_eq!(db.len(), 1);
    assert!(!db.is_empty());
    assert_eq!(db.get("alice"), Some("30"));
}

#[test]
fn insert_overwrites_the_value_of_a_key() {
    let mut db = Database::new();
    assert_eq!(db.insert(text("k"), text("v1")), Ok(()));
    assert_eq!(db.insert(text("other"), text("x")), Ok(()));
    assert_eq!(db.insert(text("k"), text("v2")), Ok(()));
    assert_eq!(db.len(), 2);
    assert_eq!(db.get("k"), Some("v2"));
    assert_eq!(db.get("other"), Some("x"));
    assert_eq!(db.serialize(), "k\tv2\nother\tx\n");
}

#[test]
fn insert_takes_empty_key_and_empty_value() {
    let mut db = Database::new();
    assert_eq!(db.insert(text(""), text("")), Ok(()));
    assert_eq!(db.get(""), Some(""));
    assert_eq!(db.serialize(), "\t\n");
}

#[test]
fn insert_refuses_a_delimiter_in_the_key() {
    let mut db = Database::new();
    assert_eq!(db.insert(text("a\tb"), text("v")), Err(InvalidRecordError::Key));
    assert_eq!(db.insert(text("a\nb"), text("v")), Err(InvalidRecordError::Key));
    assert_eq!(db.insert(text("\n"), text("v")), Err(InvalidRecordError::Key));
    assert!(db.is_empty());
}

#[test]
fn insert_refuses_a_delimiter_in_the_value() {
    let mut db = Database::new();
    assert_eq!(db.insert(text("k"), text("a\nb")), Err(InvalidRecordError::Value));
    assert_eq!(db.insert(text("k"), text("a\tb")), Err(InvalidRecordError::Value));
    assert!(db.is_empty());
}

#[test]
fn insert_names_the_key_where_both_hold_a_delimiter() {
    let mut db = Database::new();
    assert_eq!(db.insert(text("a\tb"), text("c\nd")), Err(InvalidRecordError::Key));
}

#[test]
fn refused_insert_leaves_the_store_as_it_was() {
    let mut db = Database::parse("alice\t30\nbob\t25\n").unwrap();
    assert_eq!(db.insert(text("alice"), text("3\n1")), Err(InvalidRecordError::Value));
    assert_eq!(db.insert(text("car\tol"), text("41")), Err(InvalidRecordError::Key));
    assert_eq!(db.len(), 2);
    assert_eq!(db.get("alice"), Some("30"));
    assert_eq!(db.serialize(), "alice\t30\nbob\t25\n");
}

#[test]
fn serialize_writes_records_in_the_order_of_their_keys() {
    let mut db = Database::new();
    assert_eq!(db.insert(text("zeta"), text("1")), Ok(()));
    assert_eq!(db.insert(text("alpha"), text("2")), Ok(()));
    assert_eq!(db.insert(text("mid"), text("3")), Ok(()));
    assert_eq!(db.serialize(), "zeta\t1\nalpha\t2\nmid\t3\n");
}

#[test]
fn serialize_ends_every_line() {
    let db = Database::parse("alice\t30\nbob\t25").unwrap();
    assert_eq!(db.serialize(), "alice\t30\nbob\t25\n");
}

#[test]
fn load_update_flush_reload() {
    let mut db = Database::parse("alice\t30\nbob\t25\n").unwrap();
    assert_eq!(db.insert(text("alice"), text("31")), Ok(()));
    let written = db.serialize();
    assert_eq!(written, "alice\t31\nbob\t25\n");
    let again = Database::parse(&written).unwrap();
    assert_eq!(again.len(), 2);
    assert_eq!(again.get("alice"), Some("31"));
    assert_eq!(again.get("bob"), Some("25"));
}

#[test]
fn round_trip_gives_the_same_mapping() {
    let mut db = Database::new();
    let pairs = [
        ("alice", "30"),
        ("bob", ""),
        ("", "nameless"),
        ("clé", "värde ✓"),
        ("spaced key", "  padded  "),
        ("cr", "line\r"),
    ];
    for (k, v) in pairs {
        assert_eq!(db.insert(text(k), text(v)), Ok(()));
    }
    let again = Database::parse(&db.serialize()).unwrap();
    assert_eq!(again.len(), pairs.len());
    for (k, v) in pairs {
        assert_eq!(again.get(k), Some(v));
    }
    assert_eq!(again.serialize(), db.serialize());
}

#[test]
fn round_trip_keeps_tabs_in_loaded_values() {
    let db = Database::parse("k\ta\tb\n").unwrap();
    let again = Database::parse(&db.serialize()).unwrap();
    assert_eq!(again.len(), 1);
    assert_eq!(again.get("k"), Some("a\tb"));
}

#[test]
fn flushing_twice_gives_the_same_text() {
    let mut db = Database::parse("b\t2\na\t1\n").unwrap();
    assert_eq!(db.insert(text("c"), text("3")), Ok(()));
    let first = db.serialize();
    let second = db.serialize();
    assert_eq!(first, second);
    let one = Database::parse(&first).unwrap();
    let two = Database::parse(&second).unwrap();
    assert_eq!(one.len(), 3);
    assert_eq!(two.len(), 3);
    for k in ["a", "b", "c"] {
        assert_eq!(one.get(k), two.get(k));
        assert_eq!(one.get(k), db.get(k));
    }
}

#[test]
fn load_parses_a_text_that_was_read() {
    let db = Database::load(Ok(text("alice\t30\n")), false).unwrap();
    assert_eq!(db.len(), 1);
    assert_eq!(db.get("alice"), Some("30"));
    let bad = Database::load(Ok(text("alice")), true);
    assert_eq!(bad.unwrap_err(), LoadError::MalformedLine { line: 1 });
}

#[test]
fn load_of_a_missing_store_is_not_found() {
    let loaded = Database::load(Err(ReadFailure::NotFound), false);
    assert_eq!(loaded.unwrap_err(), LoadError::Read(ReadFailure::NotFound));
}

#[test]
fn load_creates_a_missing_store_on_request() {
    let db = Database::load(Err(ReadFailure::NotFound), true).unwrap();
    assert!(db.is_empty());
    assert_eq!(db.serialize(), "");
}

#[test]
fn load_hands_on_every_other_read_failure() {
    for failure in [
        ReadFailure::PermissionDenied,
        ReadFailure::InvalidEncoding,
        ReadFailure::Other,
    ] {
        for create in [false, true] {
            let loaded = Database::load(Err(failure), create);
            assert_eq!(loaded.unwrap_err(), LoadError::Read(failure));
        }
    }
}
