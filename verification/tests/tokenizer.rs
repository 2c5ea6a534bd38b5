use csv_ql::lexer::{tokenize, Lexer};
use csv_ql::token::Token;

#[test]
fn star_query_tokens() {
    let toks = tokenize("SELECT * FROM data.csv");
    assert_eq!(toks.len(), 4);
    assert!(matches!(&toks[0], Token::Select));
    assert!(matches!(&toks[1], Token::Star));
    assert!(matches!(&toks[2], Token::From));
    assert!(matches!(&toks[3], Token::Identifier(s) if s == "data.csv"));
}

#[test]
fn keywords_are_case_insensitive() {
    let toks = tokenize("select FROM WhErE limit AnD oR");
    assert!(matches!(&toks[0], Token::Select));
    assert!(matches!(&toks[1], Token::From));
    assert!(matches!(&toks[2], Token::Where));
    assert!(matches!(&toks[3], Token::Limit));
    assert!(matches!(&toks[4], Token::And));
    assert!(matches!(&toks[5], Token::Or));
    assert_eq!(toks.len(), 6);
}

#[test]
fn identifiers_allow_underscore_digits_dots() {
    let toks = tokenize("col_1.part");
    assert_eq!(toks.len(), 1);
    assert!(matches!(&toks[0], Token::Identifier(s) if s == "col_1.part"));
}

#[test]
fn number_token_keeps_its_text() {
    let toks = tokenize("12.5 007 1.2.3");
    assert_eq!(toks.len(), 3);
    assert!(matches!(&toks[0], Token::Number(t) if t == "12.5"));
    assert!(matches!(&toks[1], Token::Number(t) if t == "007"));
    assert!(matches!(&toks[2], Token::Number(t) if t == "1.2.3"));
}

#[test]
fn operators_and_punctuation() {
    let toks = tokenize("= != > < >= <= <> * ,");
    assert!(matches!(&toks[0], Token::Equal));
    assert!(matches!(&toks[1], Token::NotEqual));
    assert!(matches!(&toks[2], Token::GreaterThan));
    assert!(matches!(&toks[3], Token::LessThan));
    assert!(matches!(&toks[4], Token::GreaterThanOrEq));
    assert!(matches!(&toks[5], Token::LessThanOrEq));
    assert!(matches!(&toks[6], Token::NotEqual));
    assert!(matches!(&toks[7], Token::Star));
    assert!(matches!(&toks[8], Token::Comma));
    assert_eq!(toks.len(), 9);
}

#[test]
fn string_literals_single_and_double_quoted() {
    let toks = tokenize("\"Jakarta\" 'Ban dung'");
    assert_eq!(toks.len(), 2);
    assert!(matches!(&toks[0], Token::StringLiteral(s) if s == "Jakarta"));
    assert!(matches!(&toks[1], Token::StringLiteral(s) if s == "Ban dung"));
}

#[test]
fn unterminated_string_keeps_what_was_collected() {
    let toks = tokenize("'abc");
    assert_eq!(toks.len(), 1);
    assert!(matches!(&toks[0], Token::StringLiteral(s) if s == "abc"));
}

#[test]
fn unrecognized_character_ends_the_stream() {
    let toks = tokenize("SELECT ; FROM");
    assert_eq!(toks.len(), 1);
    assert!(matches!(&toks[0], Token::Select));
}

#[test]
fn bare_bang_ends_the_stream() {
    let toks = tokenize("a ! b");
    assert_eq!(toks.len(), 1);
    assert!(matches!(&toks[0], Token::Identifier(s) if s == "a"));
}

#[test]
fn whitespace_only_input_has_no_tokens() {
    assert_eq!(tokenize("   \t\n  ").len(), 0);
    assert_eq!(tokenize("").len(), 0);
}

#[test]
fn end_of_input_and_lexical_error_are_distinct() {
    // a clean query ends with the lexer at the end of the text
    let mut lexer = Lexer::new("SELECT a");
    while let Some(_) = lexer.next_token() {}
    assert!(lexer.at_end());

    // an unrecognized character stops the stream before the end
    let mut lexer = Lexer::new("SELECT ; FROM");
    while let Some(_) = lexer.next_token() {}
    assert!(!lexer.at_end());

    // a bare `!` is such a character too
    let mut lexer = Lexer::new("a ! b");
    while let Some(_) = lexer.next_token() {}
    assert!(!lexer.at_end());
}

#[test]
fn lexer_pulls_one_token_at_a_time() {
    let mut lexer = Lexer::new("SELECT nama");
    assert!(matches!(lexer.next_token(), Some(Token::Select)));
    assert!(matches!(lexer.next_token(), Some(Token::Identifier(s)) if s == "nama"));
    assert!(lexer.next_token().is_none());
}

#[test]
fn unicode_whitespace_separates_tokens() {
    let toks = tokenize("SELECT\u{a0}nama\u{2003}FROM\tf");
    assert_eq!(toks.len(), 4);
    assert!(matches!(&toks[0], Token::Select));
    assert!(matches!(&toks[1], Token::Identifier(s) if s == "nama"));
    assert!(matches!(&toks[2], Token::From));
    assert!(matches!(&toks[3], Token::Identifier(s) if s == "f"));
}
