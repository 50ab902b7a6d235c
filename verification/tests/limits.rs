use copper::database::Database;
use copper::limits::{within_parser_limits, MAX_DEPTH, MAX_OPEN_KEY_BYTES};

fn nested(d: usize) -> String {
    "[".repeat(d) + &"]".repeat(d)
}

fn key(n: usize) -> String {
    "a".repeat(n)
}

#[test]
fn ordinary_documents_are_within_limits() {
    assert!(within_parser_limits("{\"a\":[1,2,{\"b\":1.5e10}],\"t\":true}"));
    assert!(within_parser_limits(""));
    assert!(within_parser_limits("12345678901234567890"));
    assert!(within_parser_limits("1E-123456789"));
}

#[test]
fn exponents_are_bounded_by_value() {
    assert!(within_parser_limits("1e0000000001"));
    assert!(within_parser_limits("[2.5E-00000000000000000000000001]"));
    assert!(within_parser_limits("1e4294967295"));
    assert!(!within_parser_limits("1e+100000000000000000000"));
    assert!(!within_parser_limits("1e999999999999999999999"));
}

#[test]
fn zero_padded_exponents_load() {
    let mut db = Database::new();
    assert_eq!(db.load_database_checked("1e0000000001\n[1E-0000000000002]\n"), Ok(2));
}

#[test]
fn nesting_is_bounded() {
    assert!(within_parser_limits(&nested(MAX_DEPTH)));
    assert!(!within_parser_limits(&nested(MAX_DEPTH + 1)));
    assert!(within_parser_limits(&"[[]]".repeat(10_000)));
}

#[test]
fn the_deepest_admitted_nesting_loads() {
    assert_eq!(MAX_DEPTH, 1024);
    let mut db = Database::new();
    let text = nested(MAX_DEPTH) + "\n";
    assert_eq!(db.load_database_checked(&text), Ok(1));
}

#[test]
fn open_keys_are_bounded_but_sibling_keys_are_not() {
    assert_eq!(MAX_OPEN_KEY_BYTES, 65535);
    let inner = format!("{{\"{}\":{{\"{}\":1}}}}", key(40_000), key(30_000));
    assert!(!within_parser_limits(&inner));
    let siblings = format!("{{\"{}\":1,\"{}\":2}}", key(40_000), key(30_000));
    assert!(within_parser_limits(&siblings));
    let mut db = Database::new();
    assert_eq!(db.load_database_checked(&(siblings + "\n")), Ok(1));
    let just = format!("{{\"{}\":{{\"{}\":1}}}}", key(40_000), key(25_535));
    assert!(within_parser_limits(&just));
}

#[test]
fn long_lines_load() {
    let line = format!("[{}]", vec!["\"abcdefgh\""; 5_000].join(","));
    assert!(line.len() > 16_383);
    let mut db = Database::new();
    assert_eq!(db.load_database_checked(&(line + "\n")), Ok(1));
}

#[test]
fn strings_do_not_count() {
    let bracketed = format!("\"{}\"", "[".repeat(MAX_DEPTH + 5));
    assert!(within_parser_limits(&bracketed));
    assert!(within_parser_limits("\"e12345678901234567890123\""));
    assert!(within_parser_limits("[\"\\\"[[[\", 1]"));
    let long_value = format!("{{\"k\":\"{}\"}}", key(100_000));
    assert!(within_parser_limits(&long_value));
}

#[test]
fn load_refuses_lines_beyond_the_limits_without_parsing_them() {
    let mut db = Database::new();
    let text = format!("{{}}\n{}\n", "[".repeat(300_000));
    assert_eq!(db.load_database_checked(&text), Err(1));
    assert_eq!(db.load_database_checked("[1]\n1e100000000000000000000\n"), Err(1));
    let keys = format!("{{\"{}\":{{\"{}\":1}}}}\n", key(40_000), key(30_000));
    assert_eq!(db.load_database_checked(&keys), Err(0));
    assert!(db.index("_id").is_none());
}
