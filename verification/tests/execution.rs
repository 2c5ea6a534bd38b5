use csv_ql::ast::Statement;
use csv_ql::engine::execute;
use csv_ql::lexer::tokenize;
use csv_ql::parser::Parser;

const DATA: &[u8] = b"nama,umur,kota\nDika,22,Jakarta\nSiti,25,Bandung\nBudi,19,Jakarta\n";

fn parse(input: &str) -> Statement {
    Parser::new(tokenize(input)).parse().unwrap()
}

fn run(input: &str, data: &[u8]) -> (Vec<String>, Vec<Vec<String>>) {
    execute(&parse(input), data).unwrap()
}

fn row(fields: &[&str]) -> Vec<String> {
    fields.iter().map(|f| f.to_string()).collect()
}

#[test]
fn filter_project_and_limit() {
    // header `nama,umur,kota`, rows Dika/22/Jakarta, Siti/25/Bandung,
    // Budi/19/Jakarta
    let (headers, rows) = run("SELECT nama FROM data.csv WHERE umur > 20 LIMIT 5", DATA);
    assert_eq!(headers, vec!["nama".to_string()]);
    assert_eq!(rows, vec![row(&["Dika"]), row(&["Siti"])]);
}

#[test]
fn star_returns_the_header_row_in_order() {
    let (headers, rows) = run(
        "SELECT * FROM data.csv WHERE kota = \"Jakarta\" OR kota = \"Bandung\"",
        DATA,
    );
    assert_eq!(headers, row(&["nama", "umur", "kota"]));
    assert_eq!(
        rows,
        vec![
            row(&["Dika", "22", "Jakarta"]),
            row(&["Siti", "25", "Bandung"]),
            row(&["Budi", "19", "Jakarta"]),
        ]
    );
}

#[test]
fn no_match_is_an_empty_result_not_an_error() {
    let (headers, rows) = run("SELECT nama FROM data.csv WHERE kota = \"Surabaya\"", DATA);
    assert_eq!(headers, vec!["nama".to_string()]);
    assert!(rows.is_empty());
}

#[test]
fn limit_zero_returns_no_rows() {
    let (_, rows) = run("SELECT umur FROM data.csv LIMIT 0", DATA);
    assert!(rows.is_empty());
}

#[test]
fn limit_cuts_after_the_matching_rows() {
    let (_, rows) = run("SELECT nama FROM data.csv LIMIT 2", DATA);
    assert_eq!(rows, vec![row(&["Dika"]), row(&["Siti"])]);
    let (_, rows) = run("SELECT nama FROM data.csv WHERE kota = \"Jakarta\" LIMIT 1", DATA);
    assert_eq!(rows, vec![row(&["Dika"])]);
}

#[test]
fn equal_string_fields_match_even_when_numeric_looking() {
    let data = b"a,b\n22,22\nabc,abc\n22,23\nx,y\n";
    let (_, rows) = run("SELECT a FROM f.csv WHERE a = b", data);
    assert_eq!(rows, vec![row(&["22"]), row(&["abc"])]);
}

#[test]
fn numeric_comparison_treats_unparsable_fields_as_zero() {
    let data = b"nama,umur\nDika,22\nSiti,x\nBudi,19\n";
    let (_, rows) = run("SELECT nama FROM f.csv WHERE umur > 20", data);
    assert_eq!(rows, vec![row(&["Dika"])]);
    let (_, rows) = run("SELECT nama FROM f.csv WHERE umur < 5", data);
    assert_eq!(rows, vec![row(&["Siti"])]);
}

#[test]
fn equality_falls_back_to_numbers_against_a_literal() {
    let data = b"a\n22\n22.0\n23\n";
    // a number literal has no string value, so `a = 22` compares values:
    // the texts `22` and `22.0` both equal 22
    let (_, rows) = run("SELECT a FROM f.csv WHERE a = 22", data);
    assert_eq!(rows, vec![row(&["22"]), row(&["22.0"])]);
}

#[test]
fn not_equal_and_orderings() {
    let data = b"a\n1\n2\n3\n";
    let (_, rows) = run("SELECT a FROM f.csv WHERE a != 2", data);
    assert_eq!(rows, vec![row(&["1"]), row(&["3"])]);
    let (_, rows) = run("SELECT a FROM f.csv WHERE a >= 2", data);
    assert_eq!(rows, vec![row(&["2"]), row(&["3"])]);
    let (_, rows) = run("SELECT a FROM f.csv WHERE a <= 2", data);
    assert_eq!(rows, vec![row(&["1"]), row(&["2"])]);
    let (_, rows) = run("SELECT a FROM f.csv WHERE a < 2", data);
    assert_eq!(rows, vec![row(&["1"])]);
}

#[test]
fn and_requires_both_sides() {
    let (_, rows) = run("SELECT nama FROM data.csv WHERE umur > 20 AND kota = \"Jakarta\"", DATA);
    assert_eq!(rows, vec![row(&["Dika"])]);
}

#[test]
fn quoted_csv_fields_are_one_field() {
    // the CSV decoder, not this crate, handles quoting of the delimiter
    let data = b"a,b\n\"x,y\",2\n";
    let (_, rows) = run("SELECT a FROM f.csv", data);
    assert_eq!(rows, vec![row(&["x,y"])]);
}

#[test]
fn short_records_contribute_nothing_for_missing_fields() {
    let data = b"a,b\n1\n2,3\n";
    let (headers, rows) = run("SELECT a, b FROM f.csv", data);
    assert_eq!(headers, row(&["a", "b"]));
    assert_eq!(rows, vec![row(&["1"]), row(&["2", "3"])]);
}

#[test]
fn mixed_star_and_named_columns() {
    let data = b"a,b\n1,2\n";
    let (headers, rows) = run("SELECT a, * FROM f.csv", data);
    // the header list is the user's literal request; `*` expands per row
    assert_eq!(headers, row(&["a", "*"]));
    assert_eq!(rows, vec![row(&["1", "1", "2"])]);
}

#[test]
fn undecodable_bytes_are_an_execution_error() {
    let stmt = parse("SELECT a FROM f.csv");
    assert!(execute(&stmt, &[0xff, 0xfe, 0x00, 0x2c, 0x61][..]).is_err());
}

#[test]
fn empty_file_yields_the_literal_headers_and_no_rows() {
    let (headers, rows) = run("SELECT a FROM f.csv", b"");
    assert_eq!(headers, vec!["a".to_string()]);
    assert!(rows.is_empty());
    let (headers, rows) = run("SELECT * FROM f.csv", b"");
    assert!(headers.is_empty());
    assert!(rows.is_empty());
}

#[test]
fn same_query_twice_yields_identical_results() {
    let first = run("SELECT nama FROM data.csv WHERE umur > 20 LIMIT 5", DATA);
    let second = run("SELECT nama FROM data.csv WHERE umur > 20 LIMIT 5", DATA);
    assert_eq!(first, second);
}

#[test]
fn crlf_line_endings_decode_cleanly() {
    let data = b"a,b\r\n1,2\r\n3,4\r\n";
    let (headers, rows) = run("SELECT * FROM f.csv", data);
    assert_eq!(headers, row(&["a", "b"]));
    assert_eq!(rows, vec![row(&["1", "2"]), row(&["3", "4"])]);
}
