//! The parser: tokens to one `Select` statement, by recursive descent with
//! one token of lookahead and no backtracking.
//!
//! Grammar, lowest precedence first:
//!
//! ```text
//! select_stmt  := SELECT column_list FROM table_name where_clause? limit_clause?
//! column_list  := column (',' column)*
//! column       := IDENTIFIER | '*'
//! table_name   := IDENTIFIER
//! where_clause := WHERE or_expr
//! or_expr      := and_expr (OR and_expr)*        left-folded
//! and_expr     := comparison (AND comparison)*   left-folded
//! comparison   := leaf (comp_op comparison)?     right-recursive
//! leaf         := IDENTIFIER | NUMBER | STRING_LITERAL
//! limit_clause := LIMIT NUMBER
//! ```
//!
//! `comparison` deliberately recurses into itself rather than into `leaf`,
//! so `a > b > c` parses as `a > (b > c)` without a logical connective;
//! tokens after a complete statement are ignored.

use vstd::prelude::*;

verus! {

use crate::ast::Expr;
use crate::ast::ExprV;
use crate::ast::Op;
use crate::ast::Statement;
use crate::ast::StatementV;
use crate::num::limit_of;
use crate::token::Token;
use crate::token::TokenV;
use vstd::string::StringExecFns;

/// A parse failure, naming the construct that was expected.
#[derive(Clone, Copy, Debug, PartialEq, Eq, Structural)]
pub enum ParseError {
    /// The query does not begin with `SELECT`.
    ExpectedSelect,
    /// A column name or `*` is missing after `SELECT` or a comma.
    ExpectedColumn,
    /// The keyword `FROM` is missing after the column list.
    ExpectedFrom,
    /// The table name after `FROM` is missing or not an identifier.
    ExpectedTable,
    /// `LIMIT` is not followed by a number.
    ExpectedLimitNumber,
    /// An expression leaf is missing: an identifier, a number or a string
    /// literal.
    ExpectedLeaf,
}

/// The operator a comparison token denotes.
pub open spec fn comp_op_of(t: TokenV) -> Option<Op> {
    match t {
        TokenV::Equal => Some(Op::Equal),
        TokenV::NotEqual => Some(Op::NotEqual),
        TokenV::GreaterThan => Some(Op::GreaterThan),
        TokenV::LessThan => Some(Op::LessThan),
        TokenV::GreaterThanOrEq => Some(Op::GreaterThanOrEq),
        TokenV::LessThanOrEq => Some(Op::LessThanOrEq),
        _ => None,
    }
}

/// Parses one expression leaf at `p`.
pub open spec fn sp_leaf(ts: Seq<TokenV>, p: int) -> Result<(ExprV, int), ParseError> {
    if p < ts.len() {
        match ts[p] {
            TokenV::Identifier(s) => Ok((ExprV::Identifier(s), p + 1)),
            TokenV::Number(t) => Ok((ExprV::Number(t), p + 1)),
            TokenV::StringLiteral(s) => Ok((ExprV::Literal(s), p + 1)),
            _ => Err(ParseError::ExpectedLeaf),
        }
    } else {
        Err(ParseError::ExpectedLeaf)
    }
}

/// Parses a comparison at `p`: a leaf, optionally followed by a comparison
/// operator and — right-recursively — another comparison.
pub open spec fn sp_comparison(ts: Seq<TokenV>, p: int) -> Result<(ExprV, int), ParseError>
    decreases ts.len() - p,
    when 0 <= p <= ts.len()
{
    match sp_leaf(ts, p) {
        Err(e) => Err(e),
        Ok((left, p1)) => if p1 < ts.len() && comp_op_of(ts[p1]) is Some {
            match comp_op_of(ts[p1]) {
                Some(op) => match sp_comparison(ts, p1 + 1) {
                    Err(e) => Err(e),
                    Ok((right, p2)) => Ok(
                        (ExprV::BinaryOp { left: Box::new(left), op, right: Box::new(right) }, p2),
                    ),
                },
                None => Ok((left, p1)),
            }
        } else {
            Ok((left, p1))
        },
    }
}

pub proof fn lemma_sp_comparison_advances(ts: Seq<TokenV>, p: int)
    requires
        0 <= p <= ts.len(),
    ensures
        match sp_comparison(ts, p) {
            Ok(r) => p < r.1 <= ts.len(),
            Err(_) => true,
        },
    decreases ts.len() - p,
{
    if sp_leaf(ts, p) is Ok {
        let p1 = p + 1;
        if p1 < ts.len() && comp_op_of(ts[p1]) is Some {
            lemma_sp_comparison_advances(ts, p1 + 1);
        }
    }
}

/// Folds further `AND comparison` steps onto `left`.
pub open spec fn sp_and_chain(left: ExprV, ts: Seq<TokenV>, p: int) -> Result<
    (ExprV, int),
    ParseError,
>
    decreases ts.len() - p,
    when 0 <= p <= ts.len()
    via sp_and_chain_decreases
{
    if p < ts.len() && ts[p] == TokenV::And {
        match sp_comparison(ts, p + 1) {
            Err(e) => Err(e),
            Ok((right, p2)) => sp_and_chain(
                ExprV::BinaryOp { left: Box::new(left), op: Op::And, right: Box::new(right) },
                ts,
                p2,
            ),
        }
    } else {
        Ok((left, p))
    }
}

#[via_fn]
proof fn sp_and_chain_decreases(left: ExprV, ts: Seq<TokenV>, p: int) {
    if p < ts.len() && ts[p] == TokenV::And {
        lemma_sp_comparison_advances(ts, p + 1);
    }
}

/// Parses an `AND`-chain at `p`, left-folded.
pub open spec fn sp_and(ts: Seq<TokenV>, p: int) -> Result<(ExprV, int), ParseError> {
    match sp_comparison(ts, p) {
        Err(e) => Err(e),
        Ok((left, p1)) => sp_and_chain(left, ts, p1),
    }
}

pub proof fn lemma_sp_and_chain_advances(left: ExprV, ts: Seq<TokenV>, p: int)
    requires
        0 <= p <= ts.len(),
    ensures
        match sp_and_chain(left, ts, p) {
            Ok(r) => p <= r.1 <= ts.len(),
            Err(_) => true,
        },
    decreases ts.len() - p,
{
    if p < ts.len() && ts[p] == TokenV::And {
        lemma_sp_comparison_advances(ts, p + 1);
        match sp_comparison(ts, p + 1) {
            Err(_) => {},
            Ok((right, p2)) => {
                lemma_sp_and_chain_advances(
                    ExprV::BinaryOp { left: Box::new(left), op: Op::And, right: Box::new(right) },
                    ts,
                    p2,
                );
            },
        }
    }
}

pub proof fn lemma_sp_and_advances(ts: Seq<TokenV>, p: int)
    requires
        0 <= p <= ts.len(),
    ensures
        match sp_and(ts, p) {
            Ok(r) => p < r.1 <= ts.len(),
            Err(_) => true,
        },
{
    lemma_sp_comparison_advances(ts, p);
    match sp_comparison(ts, p) {
        Err(_) => {},
        Ok((left, p1)) => {
            lemma_sp_and_chain_advances(left, ts, p1);
        },
    }
}

/// Folds further `OR and_expr` steps onto `left`.
pub open spec fn sp_or_chain(left: ExprV, ts: Seq<TokenV>, p: int) -> Result<
    (ExprV, int),
    ParseError,
>
    decreases ts.len() - p,
    when 0 <= p <= ts.len()
    via sp_or_chain_decreases
{
    if p < ts.len() && ts[p] == TokenV::Or {
        match sp_and(ts, p + 1) {
            Err(e) => Err(e),
            Ok((right, p2)) => sp_or_chain(
                ExprV::BinaryOp { left: Box::new(left), op: Op::Or, right: Box::new(right) },
                ts,
                p2,
            ),
        }
    } else {
        Ok((left, p))
    }
}

#[via_fn]
proof fn sp_or_chain_decreases(left: ExprV, ts: Seq<TokenV>, p: int) {
    if p < ts.len() && ts[p] == TokenV::Or {
        lemma_sp_and_advances(ts, p + 1);
    }
}

/// Parses an `OR`-chain at `p`, left-folded: a whole WHERE expression.
pub open spec fn sp_expression(ts: Seq<TokenV>, p: int) -> Result<(ExprV, int), ParseError> {
    match sp_and(ts, p) {
        Err(e) => Err(e),
        Ok((left, p1)) => sp_or_chain(left, ts, p1),
    }
}

/// Parses the column list at `p`: one column, then further comma-separated
/// columns; `*` stands for all columns.
pub open spec fn sp_columns(ts: Seq<TokenV>, p: int) -> Result<(Seq<Seq<char>>, int), ParseError>
    decreases ts.len() - p,
    when 0 <= p <= ts.len()
{
    if p < ts.len() {
        let col = match ts[p] {
            TokenV::Identifier(s) => Some(s),
            TokenV::Star => Some(seq!['*']),
            _ => None,
        };
        match col {
            None => Err(ParseError::ExpectedColumn),
            Some(c) => if p + 1 < ts.len() && ts[p + 1] == TokenV::Comma {
                match sp_columns(ts, p + 2) {
                    Err(e) => Err(e),
                    Ok((rest, p2)) => Ok((seq![c] + rest, p2)),
                }
            } else {
                Ok((seq![c], p + 1))
            },
        }
    } else {
        Err(ParseError::ExpectedColumn)
    }
}

/// Parses one whole `SELECT` statement from the start of the token
/// sequence; tokens after the statement are ignored.
pub open spec fn sp_select(ts: Seq<TokenV>) -> Result<StatementV, ParseError> {
    if !(0 < ts.len() && ts[0] == TokenV::Select) {
        Err(ParseError::ExpectedSelect)
    } else {
        match sp_columns(ts, 1) {
            Err(e) => Err(e),
            Ok((columns, p1)) => if !(p1 < ts.len() && ts[p1] == TokenV::From) {
                Err(ParseError::ExpectedFrom)
            } else {
                match if p1 + 1 < ts.len() {
                    match ts[p1 + 1] {
                        TokenV::Identifier(s) => Some(s),
                        _ => None,
                    }
                } else {
                    None
                } {
                    None => Err(ParseError::ExpectedTable),
                    Some(table) => {
                        let p2 = p1 + 2;
                        match if p2 < ts.len() && ts[p2] == TokenV::Where {
                            match sp_expression(ts, p2 + 1) {
                                Err(e) => Err(e),
                                Ok((e, p3)) => Ok((Some(e), p3)),
                            }
                        } else {
                            Ok((None, p2))
                        } {
                            Err(e) => Err(e),
                            Ok((where_clause, p3)) => if p3 < ts.len() && ts[p3]
                                == TokenV::Limit {
                                match if p3 + 1 < ts.len() {
                                    match ts[p3 + 1] {
                                        TokenV::Number(t) => Some(t),
                                        _ => None,
                                    }
                                } else {
                                    None
                                } {
                                    None => Err(ParseError::ExpectedLimitNumber),
                                    Some(t) => Ok(
                                        StatementV {
                                            columns,
                                            table,
                                            where_clause,
                                            limit: Some(limit_of(t)),
                                        },
                                    ),
                                }
                            } else {
                                Ok(StatementV { columns, table, where_clause, limit: None })
                            },
                        }
                    },
                }
            },
        }
    }
}

/// The token-list consumer that builds one `Select` statement.
pub struct Parser {
    tokens: Vec<Token>,
    pos: usize,
}

impl Parser {
    /// The token sequence being parsed.
    pub closed spec fn toks(&self) -> Seq<TokenV> {
        self.tokens@.map_values(|t: Token| t@)
    }

    /// The current position.
    pub closed spec fn at(&self) -> int {
        self.pos as int
    }

    pub open spec fn wf(&self) -> bool {
        0 <= self.at() <= self.toks().len()
    }

    pub fn new(tokens: Vec<Token>) -> (p: Parser)
        ensures
            p.toks() == tokens@.map_values(|t: Token| t@),
            p.at() == 0,
            p.wf(),
    {
        proof {
            assert(tokens@.map_values(|t: Token| t@).len() == tokens@.len());
        }
        Parser { tokens, pos: 0 }
    }

    fn current(&self) -> (r: Option<&Token>)
        requires
            self.wf(),
        ensures
            match r {
                Some(t) => self.at() < self.toks().len() && t@ == self.toks()[self.at()],
                None => self.at() >= self.toks().len(),
            },
    {
        if self.pos < self.tokens.len() {
            Some(&self.tokens[self.pos])
        } else {
            None
        }
    }

    fn advance(&mut self)
        requires
            old(self).wf(),
            old(self).at() < old(self).toks().len(),
        ensures
            final(self).toks() == old(self).toks(),
            final(self).at() == old(self).at() + 1,
            final(self).wf(),
    {
        proof {
            assert(old(self).tokens.len() == old(self).tokens@.len());
            assert(old(self).toks().len() == old(self).tokens@.len());
        }
        self.pos = self.pos + 1;
    }

    /// Consumes the current token when it equals `expected`.
    fn match_token(&mut self, expected: Token) -> (r: bool)
        requires
            old(self).wf(),
        ensures
            final(self).toks() == old(self).toks(),
            final(self).wf(),
            r == (old(self).at() < old(self).toks().len() && old(self).toks()[old(self).at()]
                == expected@),
            final(self).at() == old(self).at() + if r {
                1int
            } else {
                0int
            },
    {
        if self.pos < self.tokens.len() {
            let same = tok_eq(&self.tokens[self.pos], &expected);
            if same {
                self.pos = self.pos + 1;
                return true;
            }
        }
        false
    }

    /// Parses the whole token sequence into one statement.
    pub fn parse(&mut self) -> (r: Result<Statement, ParseError>)
        requires
            old(self).wf(),
            old(self).at() == 0,
        ensures
            match r {
                Ok(st) => sp_select(old(self).toks()) == Ok::<StatementV, ParseError>(st@),
                Err(e) => sp_select(old(self).toks()) == Err::<StatementV, ParseError>(e),
            },
    {
        self.parse_select()
    }

    fn parse_select(&mut self) -> (r: Result<Statement, ParseError>)
        requires
            old(self).wf(),
            old(self).at() == 0,
        ensures
            match r {
                Ok(st) => sp_select(old(self).toks()) == Ok::<StatementV, ParseError>(st@),
                Err(e) => sp_select(old(self).toks()) == Err::<StatementV, ParseError>(e),
            },
    {
        let ghost ts = self.toks();
        if !self.match_token(Token::Select) {
            return Err(ParseError::ExpectedSelect);
        }
        let columns = match self.parse_columns() {
            Ok(c) => c,
            Err(e) => {
                return Err(e);
            },
        };
        if !self.match_token(Token::From) {
            return Err(ParseError::ExpectedFrom);
        }
        let table = match self.current() {
            Some(t) => match t {
                Token::Identifier(name) => {
                    let n = name.clone();
                    self.advance();
                    n
                },
                _ => {
                    return Err(ParseError::ExpectedTable);
                },
            },
            _ => {
                return Err(ParseError::ExpectedTable);
            },
        };
        let mut where_clause: Option<Expr> = None;
        if self.match_token(Token::Where) {
            match self.parse_expression() {
                Ok(e) => {
                    where_clause = Some(e);
                },
                Err(e) => {
                    return Err(e);
                },
            }
        }
        let mut limit: Option<usize> = None;
        if self.match_token(Token::Limit) {
            match self.current() {
                Some(t) => match t {
                    Token::Number(text) => {
                        let n = crate::num::limit_value(text.as_str());
                        limit = Some(n);
                        self.advance();
                    },
                    _ => {
                        return Err(ParseError::ExpectedLimitNumber);
                    },
                },
                _ => {
                    return Err(ParseError::ExpectedLimitNumber);
                },
            }
        }
        Ok(Statement::Select { columns, table, where_clause, limit })
    }

    fn parse_columns(&mut self) -> (r: Result<Vec<String>, ParseError>)
        requires
            old(self).wf(),
        ensures
            final(self).toks() == old(self).toks(),
            final(self).wf(),
            old(self).at() <= final(self).at(),
            match r {
                Ok(cols) => sp_columns(old(self).toks(), old(self).at()) == Ok::<
                    (Seq<Seq<char>>, int),
                    ParseError,
                >((cols.deep_view(), final(self).at())),
                Err(e) => sp_columns(old(self).toks(), old(self).at()) == Err::<
                    (Seq<Seq<char>>, int),
                    ParseError,
                >(e),
            },
        decreases old(self).toks().len() - old(self).at(),
    {
        let col: String = match self.current() {
            Some(t) => match t {
                Token::Identifier(name) => {
                    let n = name.clone();
                    self.advance();
                    n
                },
                Token::Star => {
                    self.advance();
                    let star = String::from_str("*");
                    proof {
                        reveal_strlit("*");
                        assert(star@ =~= seq!['*']);
                    }
                    star
                },
                _ => {
                    return Err(ParseError::ExpectedColumn);
                },
            },
            None => {
                return Err(ParseError::ExpectedColumn);
            },
        };
        if self.match_token(Token::Comma) {
            match self.parse_columns() {
                Ok(rest) => {
                    let mut cols: Vec<String> = Vec::new();
                    cols.push(col);
                    let rest = rest;
                    let mut i: usize = 0;
                    proof {
                        assert(cols.deep_view() =~= seq![cols@[0]@]);
                    }
                    // prepend by appending the tail to a fresh vector
                    while i < rest.len()
                        invariant
                            0 <= i <= rest@.len(),
                            cols.deep_view() =~= seq![col@] + rest.deep_view().take(i as int),
                            col == cols@[0],
                        decreases rest@.len() - i,
                    {
                        let c = rest[i].clone();
                        proof {
                            assert(rest.deep_view().take(i + 1) =~= rest.deep_view().take(
                                i as int,
                            ).push(rest@[i as int]@));
                            assert(cols.deep_view().push(c@) =~= seq![col@]
                                + rest.deep_view().take(i + 1));
                        }
                        cols.push(c);
                        i = i + 1;
                    }
                    proof {
                        assert(rest.deep_view().take(rest@.len() as int) =~= rest.deep_view());
                    }
                    Ok(cols)
                },
                Err(e) => Err(e),
            }
        } else {
            let mut cols: Vec<String> = Vec::new();
            cols.push(col);
            proof {
                assert(cols.deep_view() =~= seq![col@]);
            }
            Ok(cols)
        }
    }

    fn parse_expression(&mut self) -> (r: Result<Expr, ParseError>)
        requires
            old(self).wf(),
        ensures
            final(self).toks() == old(self).toks(),
            final(self).wf(),
            old(self).at() < final(self).at() || r is Err,
            match r {
                Ok(e) => sp_expression(old(self).toks(), old(self).at()) == Ok::<
                    (ExprV, int),
                    ParseError,
                >((e@, final(self).at())),
                Err(pe) => sp_expression(old(self).toks(), old(self).at()) == Err::<
                    (ExprV, int),
                    ParseError,
                >(pe),
            },
    {
        let ghost ts = self.toks();
        let ghost p0 = self.at();
        let left = match self.parse_logic_and() {
            Ok(e) => e,
            Err(pe) => {
                return Err(pe);
            },
        };
        let mut left = left;
        loop
            invariant_except_break
                self.wf(),
                self.toks() == ts,
                p0 < self.at(),
                sp_or_chain(left@, ts, self.at()) == sp_expression(ts, p0),
            invariant
                ts == old(self).toks(),
                p0 == old(self).at(),
            ensures
                self.wf(),
                self.toks() == ts,
                p0 < self.at(),
                sp_expression(ts, p0) == Ok::<(ExprV, int), ParseError>((left@, self.at())),
            decreases ts.len() - self.at(),
        {
            if !self.match_token(Token::Or) {
                break ;
            }
            let right = match self.parse_logic_and() {
                Ok(e) => e,
                Err(pe) => {
                    return Err(pe);
                },
            };
            left = Expr::BinaryOp { left: Box::new(left), op: Op::Or, right: Box::new(right) };
        }
        Ok(left)
    }

    fn parse_logic_and(&mut self) -> (r: Result<Expr, ParseError>)
        requires
            old(self).wf(),
        ensures
            final(self).toks() == old(self).toks(),
            final(self).wf(),
            old(self).at() < final(self).at() || r is Err,
            match r {
                Ok(e) => sp_and(old(self).toks(), old(self).at()) == Ok::<
                    (ExprV, int),
                    ParseError,
                >((e@, final(self).at())),
                Err(pe) => sp_and(old(self).toks(), old(self).at()) == Err::<
                    (ExprV, int),
                    ParseError,
                >(pe),
            },
    {
        let ghost ts = self.toks();
        let ghost p0 = self.at();
        let left = match self.parse_comparison() {
            Ok(e) => e,
            Err(pe) => {
                return Err(pe);
            },
        };
        let mut left = left;
        loop
            invariant_except_break
                self.wf(),
                self.toks() == ts,
                p0 < self.at(),
                sp_and_chain(left@, ts, self.at()) == sp_and(ts, p0),
            invariant
                ts == old(self).toks(),
                p0 == old(self).at(),
            ensures
                self.wf(),
                self.toks() == ts,
                p0 < self.at(),
                sp_and(ts, p0) == Ok::<(ExprV, int), ParseError>((left@, self.at())),
            decreases ts.len() - self.at(),
        {
            if !self.match_token(Token::And) {
                break ;
            }
            let right = match self.parse_comparison() {
                Ok(e) => e,
                Err(pe) => {
                    return Err(pe);
                },
            };
            left = Expr::BinaryOp { left: Box::new(left), op: Op::And, right: Box::new(right) };
        }
        Ok(left)
    }

    fn parse_comparison(&mut self) -> (r: Result<Expr, ParseError>)
        requires
            old(self).wf(),
        ensures
            final(self).toks() == old(self).toks(),
            final(self).wf(),
            old(self).at() < final(self).at() || r is Err,
            match r {
                Ok(e) => sp_comparison(old(self).toks(), old(self).at()) == Ok::<
                    (ExprV, int),
                    ParseError,
                >((e@, final(self).at())),
                Err(pe) => sp_comparison(old(self).toks(), old(self).at()) == Err::<
                    (ExprV, int),
                    ParseError,
                >(pe),
            },
        decreases old(self).toks().len() - old(self).at(),
    {
        let left = match self.parse_leaf() {
            Ok(e) => e,
            Err(pe) => {
                return Err(pe);
            },
        };
        let op = match self.current() {
            Some(t) => match t {
                Token::Equal => Some(Op::Equal),
                Token::NotEqual => Some(Op::NotEqual),
                Token::GreaterThan => Some(Op::GreaterThan),
                Token::LessThan => Some(Op::LessThan),
                Token::GreaterThanOrEq => Some(Op::GreaterThanOrEq),
                Token::LessThanOrEq => Some(Op::LessThanOrEq),
                _ => None,
            },
            None => None,
        };
        let op = match op {
            Some(op) => op,
            None => {
                return Ok(left);
            },
        };
        self.advance();
        let right = match self.parse_comparison() {
            Ok(e) => e,
            Err(pe) => {
                return Err(pe);
            },
        };
        Ok(Expr::BinaryOp { left: Box::new(left), op, right: Box::new(right) })
    }

    fn parse_leaf(&mut self) -> (r: Result<Expr, ParseError>)
        requires
            old(self).wf(),
        ensures
            final(self).toks() == old(self).toks(),
            final(self).wf(),
            old(self).at() < final(self).at() || r is Err,
            match r {
                Ok(e) => sp_leaf(old(self).toks(), old(self).at()) == Ok::<
                    (ExprV, int),
                    ParseError,
                >((e@, final(self).at())),
                Err(pe) => sp_leaf(old(self).toks(), old(self).at()) == Err::<
                    (ExprV, int),
                    ParseError,
                >(pe),
            },
    {
        match self.current() {
            Some(t) => match t {
                Token::Identifier(s) => {
                    let e = Expr::Identifier(s.clone());
                    self.advance();
                    Ok(e)
                },
                Token::Number(n) => {
                    let e = Expr::Number(n.clone());
                    self.advance();
                    Ok(e)
                },
                Token::StringLiteral(s) => {
                    let e = Expr::Literal(s.clone());
                    self.advance();
                    Ok(e)
                },
                _ => Err(ParseError::ExpectedLeaf),
            },
            None => Err(ParseError::ExpectedLeaf),
        }
    }
}

/// Structural equality of two tokens.
fn tok_eq(a: &Token, b: &Token) -> (r: bool)
    ensures
        r == (a@ == b@),
{
    match (a, b) {
        (Token::Select, Token::Select) => true,
        (Token::From, Token::From) => true,
        (Token::Where, Token::Where) => true,
        (Token::Limit, Token::Limit) => true,
        (Token::Or, Token::Or) => true,
        (Token::And, Token::And) => true,
        (Token::OrderBy, Token::OrderBy) => true,
        (Token::GroupBy, Token::GroupBy) => true,
        (Token::Equal, Token::Equal) => true,
        (Token::NotEqual, Token::NotEqual) => true,
        (Token::GreaterThan, Token::GreaterThan) => true,
        (Token::LessThan, Token::LessThan) => true,
        (Token::GreaterThanOrEq, Token::GreaterThanOrEq) => true,
        (Token::LessThanOrEq, Token::LessThanOrEq) => true,
        (Token::Star, Token::Star) => true,
        (Token::Comma, Token::Comma) => true,
        (Token::EOF, Token::EOF) => true,
        (Token::Identifier(x), Token::Identifier(y)) => x.eq(y),
        (Token::Number(x), Token::Number(y)) => x.eq(y),
        (Token::StringLiteral(x), Token::StringLiteral(y)) => x.eq(y),
        _ => false,
    }
}

impl ParseError {
    /// A human-readable message naming the expected construct.
    pub fn message(&self) -> (r: String)
        ensures
            r@ == parse_error_text(*self),
    {
        match self {
            ParseError::ExpectedSelect => String::from_str("the query must begin with SELECT"),
            ParseError::ExpectedColumn => String::from_str(
                "a column name or * is required after SELECT",
            ),
            ParseError::ExpectedFrom => String::from_str("FROM is required after the column list"),
            ParseError::ExpectedTable => String::from_str(
                "a table or file name is required after FROM",
            ),
            ParseError::ExpectedLimitNumber => String::from_str(
                "LIMIT must be followed by a number",
            ),
            ParseError::ExpectedLeaf => String::from_str(
                "an identifier, number or string literal is required",
            ),
        }
    }
}

/// The message text of each parse error.
pub open spec fn parse_error_text(e: ParseError) -> Seq<char> {
    match e {
        ParseError::ExpectedSelect => "the query must begin with SELECT"@,
        ParseError::ExpectedColumn => "a column name or * is required after SELECT"@,
        ParseError::ExpectedFrom => "FROM is required after the column list"@,
        ParseError::ExpectedTable => "a table or file name is required after FROM"@,
        ParseError::ExpectedLimitNumber => "LIMIT must be followed by a number"@,
        ParseError::ExpectedLeaf => "an identifier, number or string literal is required"@,
    }
}

} // verus!
