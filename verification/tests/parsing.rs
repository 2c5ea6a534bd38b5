use csv_ql::ast::{Expr, Op, Statement};
use csv_ql::lexer::tokenize;
use csv_ql::parser::{ParseError, Parser};

fn parse(input: &str) -> Result<Statement, ParseError> {
    Parser::new(tokenize(input)).parse()
}

fn parts(stmt: Statement) -> (Vec<String>, String, Option<Expr>, Option<usize>) {
    let Statement::Select { columns, table, where_clause, limit } = stmt;
    (columns, table, where_clause, limit)
}

#[test]
fn simple_star_select() {
    let (columns, table, where_clause, limit) = parts(parse("SELECT * FROM data.csv").unwrap());
    assert_eq!(columns, vec!["*".to_string()]);
    assert_eq!(table, "data.csv");
    assert!(where_clause.is_none());
    assert!(limit.is_none());
}

#[test]
fn column_list_keeps_order() {
    let (columns, table, _, _) = parts(parse("SELECT nama, umur, kota FROM f").unwrap());
    assert_eq!(columns, vec!["nama".to_string(), "umur".to_string(), "kota".to_string()]);
    assert_eq!(table, "f");
}

#[test]
fn where_comparison_structure() {
    let (_, _, where_clause, _) = parts(parse("SELECT a FROM f WHERE umur > 20").unwrap());
    match where_clause.unwrap() {
        Expr::BinaryOp { left, op, right } => {
            assert!(matches!(*left, Expr::Identifier(s) if s == "umur"));
            assert_eq!(op, Op::GreaterThan);
            assert!(matches!(*right, Expr::Number(t) if t == "20"));
        }
        other => panic!("expected a comparison, got {:?}", other),
    }
}

#[test]
fn string_literal_is_a_leaf() {
    let (_, _, where_clause, _) = parts(parse("SELECT a FROM f WHERE kota = \"Jakarta\"").unwrap());
    match where_clause.unwrap() {
        Expr::BinaryOp { left, op, right } => {
            assert!(matches!(*left, Expr::Identifier(s) if s == "kota"));
            assert_eq!(op, Op::Equal);
            assert!(matches!(*right, Expr::Literal(s) if s == "Jakarta"));
        }
        other => panic!("expected a comparison, got {:?}", other),
    }
}

#[test]
fn or_chain_folds_left() {
    let (_, _, where_clause, _) = parts(parse("SELECT a FROM f WHERE x = 1 OR y = 2 OR z = 3").unwrap());
    // ((x = 1 OR y = 2) OR z = 3)
    match where_clause.unwrap() {
        Expr::BinaryOp { left, op: Op::Or, right } => {
            assert!(matches!(*right, Expr::BinaryOp { op: Op::Equal, .. }));
            match *left {
                Expr::BinaryOp { op: Op::Or, left: ll, .. } => {
                    assert!(matches!(*ll, Expr::BinaryOp { op: Op::Equal, .. }));
                }
                other => panic!("expected a nested OR, got {:?}", other),
            }
        }
        other => panic!("expected an OR, got {:?}", other),
    }
}

#[test]
fn and_binds_tighter_than_or() {
    let (_, _, where_clause, _) = parts(parse("SELECT a FROM f WHERE x = 1 OR y = 2 AND z = 3").unwrap());
    // x = 1 OR (y = 2 AND z = 3)
    match where_clause.unwrap() {
        Expr::BinaryOp { left, op: Op::Or, right } => {
            assert!(matches!(*left, Expr::BinaryOp { op: Op::Equal, .. }));
            assert!(matches!(*right, Expr::BinaryOp { op: Op::And, .. }));
        }
        other => panic!("expected an OR at the top, got {:?}", other),
    }
}

#[test]
fn comparison_chains_to_the_right() {
    let (_, _, where_clause, _) = parts(parse("SELECT a FROM f WHERE x > y > z").unwrap());
    // x > (y > z)
    match where_clause.unwrap() {
        Expr::BinaryOp { left, op: Op::GreaterThan, right } => {
            assert!(matches!(*left, Expr::Identifier(s) if s == "x"));
            assert!(matches!(*right, Expr::BinaryOp { op: Op::GreaterThan, .. }));
        }
        other => panic!("expected a comparison, got {:?}", other),
    }
}

#[test]
fn limit_is_truncated_toward_zero() {
    let (_, _, _, limit) = parts(parse("SELECT a FROM f LIMIT 5").unwrap());
    assert_eq!(limit, Some(5));
    let (_, _, _, limit) = parts(parse("SELECT a FROM f LIMIT 5.9").unwrap());
    assert_eq!(limit, Some(5));
    let (_, _, _, limit) = parts(parse("SELECT a FROM f LIMIT 0").unwrap());
    assert_eq!(limit, Some(0));
}

#[test]
fn each_clause_has_its_own_error() {
    assert_eq!(parse("FROM x").unwrap_err(), ParseError::ExpectedSelect);
    assert_eq!(parse("").unwrap_err(), ParseError::ExpectedSelect);
    assert_eq!(parse("SELECT FROM x").unwrap_err(), ParseError::ExpectedColumn);
    assert_eq!(parse("SELECT a, FROM x").unwrap_err(), ParseError::ExpectedColumn);
    assert_eq!(parse("SELECT a b").unwrap_err(), ParseError::ExpectedFrom);
    assert_eq!(parse("SELECT a FROM").unwrap_err(), ParseError::ExpectedTable);
    assert_eq!(parse("SELECT a FROM *").unwrap_err(), ParseError::ExpectedTable);
    assert_eq!(parse("SELECT a FROM f LIMIT x").unwrap_err(), ParseError::ExpectedLimitNumber);
    assert_eq!(parse("SELECT a FROM f WHERE").unwrap_err(), ParseError::ExpectedLeaf);
    assert_eq!(parse("SELECT a FROM f WHERE x =").unwrap_err(), ParseError::ExpectedLeaf);
}

#[test]
fn parse_errors_carry_messages() {
    assert_eq!(ParseError::ExpectedSelect.message(), "the query must begin with SELECT");
    assert_eq!(ParseError::ExpectedLimitNumber.message(), "LIMIT must be followed by a number");
}

#[test]
fn trailing_comma_in_columns_is_an_error() {
    // `SELECT a, FROM x`: the comma promises another column, and `FROM` is
    // taken as the place where the column was expected
    assert_eq!(parse("SELECT a , FROM x").unwrap_err(), ParseError::ExpectedColumn);
}
