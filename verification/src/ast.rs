//! The abstract syntax tree the parser builds.

use vstd::prelude::*;

verus! {

/// A comparison or logical operator.
#[derive(Clone, Copy, Debug, PartialEq, Eq, Structural)]
pub enum Op {
    Equal,
    NotEqual,
    GreaterThan,
    LessThan,
    GreaterThanOrEq,
    LessThanOrEq,
    Or,
    And,
}

/// A WHERE expression: a binary tree whose leaves are identifiers, numeric
/// literals (carrying their scanned text) and string literals.
#[derive(Debug)]
pub enum Expr {
    BinaryOp { left: Box<Expr>, op: Op, right: Box<Expr> },
    Literal(String),
    Number(String),
    Identifier(String),
}

/// The mathematical shape of an expression.
pub enum ExprV {
    BinaryOp { left: Box<ExprV>, op: Op, right: Box<ExprV> },
    Literal(Seq<char>),
    Number(Seq<char>),
    Identifier(Seq<char>),
}

pub open spec fn expr_view(e: Expr) -> ExprV
    decreases e,
{
    match e {
        Expr::BinaryOp { left, op, right } => ExprV::BinaryOp {
            left: Box::new(expr_view(*left)),
            op,
            right: Box::new(expr_view(*right)),
        },
        Expr::Literal(s) => ExprV::Literal(s@),
        Expr::Number(s) => ExprV::Number(s@),
        Expr::Identifier(s) => ExprV::Identifier(s@),
    }
}

impl View for Expr {
    type V = ExprV;

    open spec fn view(&self) -> ExprV {
        expr_view(*self)
    }
}

/// One parsed query.
#[derive(Debug)]
pub enum Statement {
    Select {
        columns: Vec<String>,
        table: String,
        where_clause: Option<Expr>,
        limit: Option<usize>,
    },
}

/// The mathematical shape of a statement.
pub struct StatementV {
    pub columns: Seq<Seq<char>>,
    pub table: Seq<char>,
    pub where_clause: Option<ExprV>,
    pub limit: Option<int>,
}

impl View for Statement {
    type V = StatementV;

    open spec fn view(&self) -> StatementV {
        match self {
            Statement::Select { columns, table, where_clause, limit } => StatementV {
                columns: columns.deep_view(),
                table: table@,
                where_clause: match where_clause {
                    Some(e) => Some(e@),
                    None => None,
                },
                limit: match limit {
                    Some(n) => Some(*n as int),
                    None => None,
                },
            },
        }
    }
}

} // verus!
