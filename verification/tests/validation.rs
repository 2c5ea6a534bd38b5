use csv_ql::ast::Statement;
use csv_ql::lexer::tokenize;
use csv_ql::parser::Parser;
use csv_ql::semantic::{analyze, SemanticError, Warning};

const DATA: &[u8] = b"nama,umur,kota\nDika,22,Jakarta\nSiti,25,Bandung\nBudi,19,Jakarta\n";

fn parse(input: &str) -> Statement {
    Parser::new(tokenize(input)).parse().unwrap()
}

#[test]
fn valid_query_passes() {
    let stmt = parse("SELECT nama, umur FROM data.csv WHERE kota = \"Jakarta\"");
    let result = analyze(&stmt, Some(DATA));
    assert!(result.valid);
    assert!(result.errors.is_empty());
    assert!(result.warnings.is_empty());
}

#[test]
fn missing_file_is_the_only_error() {
    let stmt = parse("SELECT hobi FROM data.csv");
    let result = analyze(&stmt, None);
    assert!(!result.valid);
    assert_eq!(result.errors.len(), 1);
    assert!(matches!(&result.errors[0], SemanticError::FileNotFound(t) if t == "data.csv"));
    assert_eq!(result.errors[0].message(), "file 'data.csv' was not found");
    assert!(result.warnings.is_empty());
}

#[test]
fn unknown_projection_column_is_reported() {
    let stmt = parse("SELECT hobi FROM data.csv");
    let result = analyze(&stmt, Some(DATA));
    assert!(!result.valid);
    assert_eq!(result.errors.len(), 1);
    assert!(matches!(&result.errors[0], SemanticError::UnknownColumn(c) if c == "hobi"));
    assert_eq!(result.errors[0].message(), "column 'hobi' is not in the file header");
}

#[test]
fn unknown_where_column_is_reported() {
    let stmt = parse("SELECT nama FROM data.csv WHERE gaji > 10");
    let result = analyze(&stmt, Some(DATA));
    assert!(!result.valid);
    assert_eq!(result.errors.len(), 1);
    assert!(matches!(&result.errors[0], SemanticError::UnknownWhereColumn(c) if c == "gaji"));
    assert_eq!(
        result.errors[0].message(),
        "column 'gaji' in the WHERE clause is not in the file header"
    );
}

#[test]
fn every_offending_item_gets_an_error() {
    let stmt = parse("SELECT hobi, nama, alamat FROM data.csv WHERE gaji = 1 AND umur > 2");
    let result = analyze(&stmt, Some(DATA));
    assert!(!result.valid);
    assert_eq!(result.errors.len(), 3);
    assert!(matches!(&result.errors[0], SemanticError::UnknownColumn(c) if c == "hobi"));
    assert!(matches!(&result.errors[1], SemanticError::UnknownColumn(c) if c == "alamat"));
    assert!(matches!(&result.errors[2], SemanticError::UnknownWhereColumn(c) if c == "gaji"));
}

#[test]
fn star_is_never_checked() {
    let stmt = parse("SELECT * FROM data.csv");
    let result = analyze(&stmt, Some(DATA));
    assert!(result.valid);
}

#[test]
fn limit_zero_warns_without_blocking() {
    let stmt = parse("SELECT umur FROM data.csv LIMIT 0");
    let result = analyze(&stmt, Some(DATA));
    assert!(result.valid);
    assert_eq!(result.warnings, vec![Warning::LimitZero]);
    assert_eq!(result.warnings[0].message(), "LIMIT 0 always returns zero rows");
}

#[test]
fn positive_limit_draws_no_warning() {
    let stmt = parse("SELECT umur FROM data.csv LIMIT 3");
    let result = analyze(&stmt, Some(DATA));
    assert!(result.valid);
    assert!(result.warnings.is_empty());
}

#[test]
fn undecodable_bytes_are_an_error() {
    let stmt = parse("SELECT a FROM data.csv");
    let result = analyze(&stmt, Some(&[0xff, 0xfe, 0x00, 0x2c, 0x61][..]));
    assert!(!result.valid);
    assert_eq!(result.errors.len(), 1);
    assert!(matches!(&result.errors[0], SemanticError::Unreadable));
}

#[test]
fn empty_file_has_no_header_columns() {
    let stmt = parse("SELECT nama FROM data.csv");
    let result = analyze(&stmt, Some(b""));
    assert!(!result.valid);
    assert!(matches!(&result.errors[0], SemanticError::UnknownColumn(c) if c == "nama"));
}
