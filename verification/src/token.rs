//! The token alphabet the tokenizer produces.

use vstd::prelude::*;

verus! {

/// One lexical unit of a query text.
///
/// `Number` carries the scanned digit-and-dot text itself; its value is
/// given by the numeric value model.  `OrderBy`, `GroupBy` and `EOF` are
/// reserved: the tokenizer never produces them.
#[derive(Debug, Clone)]
pub enum Token {
    // keywords
    Select,
    From,
    Where,
    Limit,
    Or,
    And,
    OrderBy,
    GroupBy,
    // operators
    Equal,
    NotEqual,
    GreaterThan,
    LessThan,
    GreaterThanOrEq,
    LessThanOrEq,
    Star,
    // literals and identifiers
    Identifier(String),
    Number(String),
    StringLiteral(String),
    // punctuation
    Comma,
    // special
    EOF,
}

/// The mathematical shape of a token: payloads are character sequences.
pub enum TokenV {
    Select,
    From,
    Where,
    Limit,
    Or,
    And,
    OrderBy,
    GroupBy,
    Equal,
    NotEqual,
    GreaterThan,
    LessThan,
    GreaterThanOrEq,
    LessThanOrEq,
    Star,
    Identifier(Seq<char>),
    Number(Seq<char>),
    StringLiteral(Seq<char>),
    Comma,
    EOF,
}

impl View for Token {
    type V = TokenV;

    open spec fn view(&self) -> TokenV {
        match self {
            Token::Select => TokenV::Select,
            Token::From => TokenV::From,
            Token::Where => TokenV::Where,
            Token::Limit => TokenV::Limit,
            Token::Or => TokenV::Or,
            Token::And => TokenV::And,
            Token::OrderBy => TokenV::OrderBy,
            Token::GroupBy => TokenV::GroupBy,
            Token::Equal => TokenV::Equal,
            Token::NotEqual => TokenV::NotEqual,
            Token::GreaterThan => TokenV::GreaterThan,
            Token::LessThan => TokenV::LessThan,
            Token::GreaterThanOrEq => TokenV::GreaterThanOrEq,
            Token::LessThanOrEq => TokenV::LessThanOrEq,
            Token::Star => TokenV::Star,
            Token::Identifier(s) => TokenV::Identifier(s@),
            Token::Number(s) => TokenV::Number(s@),
            Token::StringLiteral(s) => TokenV::StringLiteral(s@),
            Token::Comma => TokenV::Comma,
            Token::EOF => TokenV::EOF,
        }
    }
}

} // verus!
