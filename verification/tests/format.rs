use kvstore::format::{has_delimiter, parse_line, split_lines, write_line};
use kvstore::Record;

fn record(key: &str, value: &str) -> Record {
    Record { key: key.to_string(), value: value.to_string() }
}

#[test]
fn split_lines_of_empty_text() {
    assert_eq!(split_lines(""), Vec::<String>::new());
}

#[test]
fn split_lines_at_each_terminator() {
    assert_eq!(split_lines("a\nb\nc\n"), vec!["a", "b", "c"]);
    assert_eq!(split_lines("a\nb\nc"), vec!["a", "b", "c"]);
}

#[test]
fn split_lines_keeps_empty_lines_but_the_last() {
    assert_eq!(split_lines("\n"), vec![""]);
    assert_eq!(split_lines("\n\n"), vec!["", ""]);
    assert_eq!(split_lines("a\n\nb\n"), vec!["a", "", "b"]);
    assert_eq!(split_lines("\na"), vec!["", "a"]);
}

#[test]
fn split_lines_leaves_tabs_and_carriage_returns() {
    assert_eq!(split_lines("k\tv\r\nx\ty"), vec!["k\tv\r", "x\ty"]);
}

#[test]
fn split_lines_of_text_beyond_ascii() {
    assert_eq!(split_lines("clé\tvärde\n✓\t✗\n"), vec!["clé\tvärde", "✓\t✗"]);
}

#[test]
fn parse_line_parts_key_and_value() {
    let r = parse_line("alice\t30").unwrap();
    assert_eq!(r.key, "alice");
    assert_eq!(r.value, "30");
}

#[test]
fn parse_line_keeps_later_tabs_in_the_value() {
    let r = parse_line("k\ta\t\tb\t").unwrap();
    assert_eq!(r.key, "k");
    assert_eq!(r.value, "a\t\tb\t");
}

#[test]
fn parse_line_with_empty_fields() {
    let both = parse_line("\t").unwrap();
    assert_eq!(both.key, "");
    assert_eq!(both.value, "");
    let no_key = parse_line("\tv").unwrap();
    assert_eq!(no_key.key, "");
    assert_eq!(no_key.value, "v");
    let no_value = parse_line("k\t").unwrap();
    assert_eq!(no_value.key, "k");
    assert_eq!(no_value.value, "");
}

#[test]
fn parse_line_without_tab_stores_nothing() {
    assert!(parse_line("").is_none());
    assert!(parse_line("alice").is_none());
    assert!(parse_line("alice 30").is_none());
}

#[test]
fn write_line_appends_key_tab_value_terminator() {
    let mut out = String::new();
    write_line(&mut out, &record("alice", "30"));
    assert_eq!(out, "alice\t30\n");
    write_line(&mut out, &record("", ""));
    assert_eq!(out, "alice\t30\n\t\n");
    write_line(&mut out, &record("clé", "a\tb"));
    assert_eq!(out, "alice\t30\n\t\nclé\ta\tb\n");
}

#[test]
fn written_line_reads_back() {
    let mut out = String::new();
    write_line(&mut out, &record("key", "some value"));
    let lines = split_lines(&out);
    assert_eq!(lines.len(), 1);
    let r = parse_line(&lines[0]).unwrap();
    assert_eq!(r.key, "key");
    assert_eq!(r.value, "some value");
}

#[test]
fn has_delimiter_finds_tab_and_terminator() {
    assert!(has_delimiter("\t"));
    assert!(has_delimiter("\n"));
    assert!(has_delimiter("a\tb"));
    assert!(has_delimiter("ab\n"));
    assert!(has_delimiter("\tab"));
}

#[test]
fn has_delimiter_passes_other_text() {
    assert!(!has_delimiter(""));
    assert!(!has_delimiter("alice"));
    assert!(!has_delimiter("a b\rc"));
    assert!(!has_delimiter("värde ✓"));
}
