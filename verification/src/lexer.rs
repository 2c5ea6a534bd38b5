//! The tokenizer: query text to a finite sequence of tokens.
//!
//! Tokens are pulled one at a time.  The stream ends both at the end of the
//! input and at the first character that starts no token, exactly as
//! `sp_next` describes; `Lexer::at_end` separates the two, so a caller can
//! surface a lexical error rather than a silently truncated query.

use vstd::prelude::*;

verus! {

use crate::num::is_digit;
use crate::token::Token;
use crate::token::TokenV;
use vstd::string::StrSliceExecFns;
use vstd::string::StringExecFns;

/// A Unicode whitespace character (the `White_Space` property).
pub open spec fn is_space(c: char) -> bool {
    ||| ('\u{09}' <= c && c <= '\u{0d}')
    ||| c == ' '
    ||| c == '\u{85}'
    ||| c == '\u{a0}'
    ||| c == '\u{1680}'
    ||| ('\u{2000}' <= c && c <= '\u{200a}')
    ||| c == '\u{2028}'
    ||| c == '\u{2029}'
    ||| c == '\u{202f}'
    ||| c == '\u{205f}'
    ||| c == '\u{3000}'
}

/// A character that may open an identifier.
pub open spec fn is_ident_start(c: char) -> bool {
    ||| ('a' <= c && c <= 'z')
    ||| ('A' <= c && c <= 'Z')
    ||| c == '_'
}

/// A character that may continue an identifier; dots support dotted column
/// references and file names.
pub open spec fn is_ident_char(c: char) -> bool {
    is_ident_start(c) || is_digit(c) || c == '.'
}

/// A character that may continue a numeric literal.
pub open spec fn is_number_char(c: char) -> bool {
    is_digit(c) || c == '.'
}

/// Decides `is_space`.
pub fn ws_char(c: char) -> (b: bool)
    ensures
        b == is_space(c),
{
    ('\u{09}' <= c && c <= '\u{0d}') || c == ' ' || c == '\u{85}' || c == '\u{a0}' || c
        == '\u{1680}' || ('\u{2000}' <= c && c <= '\u{200a}') || c == '\u{2028}' || c == '\u{2029}'
        || c == '\u{202f}' || c == '\u{205f}' || c == '\u{3000}'
}

/// The first index at or after `p` holding a non-whitespace character, or
/// the end of the text.
pub open spec fn skip_ws(s: Seq<char>, p: int) -> int
    decreases s.len() - p,
    when 0 <= p <= s.len()
{
    if p < s.len() && is_space(s[p]) {
        skip_ws(s, p + 1)
    } else {
        p
    }
}

/// The end of the maximal identifier-character run starting at `p`.
pub open spec fn ident_end(s: Seq<char>, p: int) -> int
    decreases s.len() - p,
    when 0 <= p <= s.len()
{
    if p < s.len() && is_ident_char(s[p]) {
        ident_end(s, p + 1)
    } else {
        p
    }
}

/// The end of the maximal number-character run starting at `p`.
pub open spec fn number_end(s: Seq<char>, p: int) -> int
    decreases s.len() - p,
    when 0 <= p <= s.len()
{
    if p < s.len() && is_number_char(s[p]) {
        number_end(s, p + 1)
    } else {
        p
    }
}

/// The first index at or after `p` holding character `c`, or the end of the
/// text.
pub open spec fn find_char(s: Seq<char>, p: int, c: char) -> int
    decreases s.len() - p,
    when 0 <= p <= s.len()
{
    if p < s.len() && s[p] != c {
        find_char(s, p + 1, c)
    } else {
        p
    }
}

/// Case-insensitive match of one character against a lower/upper pair.
pub open spec fn cieq(c: char, lo: char, up: char) -> bool {
    c == lo || c == up
}

pub open spec fn is_kw_select(t: Seq<char>) -> bool {
    t.len() == 6 && cieq(t[0], 's', 'S') && cieq(t[1], 'e', 'E') && cieq(t[2], 'l', 'L') && cieq(
        t[3],
        'e',
        'E',
    ) && cieq(t[4], 'c', 'C') && cieq(t[5], 't', 'T')
}

pub open spec fn is_kw_from(t: Seq<char>) -> bool {
    t.len() == 4 && cieq(t[0], 'f', 'F') && cieq(t[1], 'r', 'R') && cieq(t[2], 'o', 'O') && cieq(
        t[3],
        'm',
        'M',
    )
}

pub open spec fn is_kw_where(t: Seq<char>) -> bool {
    t.len() == 5 && cieq(t[0], 'w', 'W') && cieq(t[1], 'h', 'H') && cieq(t[2], 'e', 'E') && cieq(
        t[3],
        'r',
        'R',
    ) && cieq(t[4], 'e', 'E')
}

pub open spec fn is_kw_limit(t: Seq<char>) -> bool {
    t.len() == 5 && cieq(t[0], 'l', 'L') && cieq(t[1], 'i', 'I') && cieq(t[2], 'm', 'M') && cieq(
        t[3],
        'i',
        'I',
    ) && cieq(t[4], 't', 'T')
}

pub open spec fn is_kw_or(t: Seq<char>) -> bool {
    t.len() == 2 && cieq(t[0], 'o', 'O') && cieq(t[1], 'r', 'R')
}

pub open spec fn is_kw_and(t: Seq<char>) -> bool {
    t.len() == 3 && cieq(t[0], 'a', 'A') && cieq(t[1], 'n', 'N') && cieq(t[2], 'd', 'D')
}

/// The token a scanned word denotes: a keyword, case-insensitively, or an
/// identifier.
pub open spec fn keyword_of(t: Seq<char>) -> TokenV {
    if is_kw_select(t) {
        TokenV::Select
    } else if is_kw_from(t) {
        TokenV::From
    } else if is_kw_where(t) {
        TokenV::Where
    } else if is_kw_limit(t) {
        TokenV::Limit
    } else if is_kw_or(t) {
        TokenV::Or
    } else if is_kw_and(t) {
        TokenV::And
    } else {
        TokenV::Identifier(t)
    }
}

/// The next token of `s` at or after `p`, with the position just past it;
/// `None` both at the end of the text and at a character that starts no
/// token.
pub open spec fn sp_next(s: Seq<char>, p: int) -> Option<(TokenV, int)> {
    let q = skip_ws(s, p);
    if q >= s.len() {
        None
    } else {
        let c = s[q];
        if is_ident_start(c) {
            let e = ident_end(s, q);
            Some((keyword_of(s.subrange(q, e)), e))
        } else if is_digit(c) {
            let e = number_end(s, q);
            Some((TokenV::Number(s.subrange(q, e)), e))
        } else if c == '"' || c == '\'' {
            let close = find_char(s, q + 1, c);
            let np = if close < s.len() {
                close + 1
            } else {
                close
            };
            Some((TokenV::StringLiteral(s.subrange(q + 1, close)), np))
        } else if c == '*' {
            Some((TokenV::Star, q + 1))
        } else if c == ',' {
            Some((TokenV::Comma, q + 1))
        } else if c == '=' {
            Some((TokenV::Equal, q + 1))
        } else if c == '!' {
            if q + 1 < s.len() && s[q + 1] == '=' {
                Some((TokenV::NotEqual, q + 2))
            } else {
                None
            }
        } else if c == '>' {
            if q + 1 < s.len() && s[q + 1] == '=' {
                Some((TokenV::GreaterThanOrEq, q + 2))
            } else {
                Some((TokenV::GreaterThan, q + 1))
            }
        } else if c == '<' {
            if q + 1 < s.len() && s[q + 1] == '=' {
                Some((TokenV::LessThanOrEq, q + 2))
            } else if q + 1 < s.len() && s[q + 1] == '>' {
                Some((TokenV::NotEqual, q + 2))
            } else {
                Some((TokenV::LessThan, q + 1))
            }
        } else {
            None
        }
    }
}

/// All tokens of `s` from `p` on.
pub open spec fn sp_tokens(s: Seq<char>, p: int) -> Seq<TokenV>
    decreases s.len() - p,
    when 0 <= p <= s.len()
    via sp_tokens_decreases
{
    match sp_next(s, p) {
        None => Seq::empty(),
        Some((t, p2)) => seq![t] + sp_tokens(s, p2),
    }
}

#[via_fn]
proof fn sp_tokens_decreases(s: Seq<char>, p: int) {
    lemma_sp_next_advances(s, p);
}

pub proof fn lemma_skip_ws(s: Seq<char>, p: int)
    requires
        0 <= p <= s.len(),
    ensures
        p <= skip_ws(s, p) <= s.len(),
        skip_ws(s, p) < s.len() ==> !is_space(s[skip_ws(s, p)]),
    decreases s.len() - p,
{
    if p < s.len() && is_space(s[p]) {
        lemma_skip_ws(s, p + 1);
    }
}

pub proof fn lemma_ident_end(s: Seq<char>, p: int)
    requires
        0 <= p <= s.len(),
    ensures
        p <= ident_end(s, p) <= s.len(),
        forall|j: int| p <= j < ident_end(s, p) ==> is_ident_char(s[j]),
        ident_end(s, p) < s.len() ==> !is_ident_char(s[ident_end(s, p)]),
    decreases s.len() - p,
{
    if p < s.len() && is_ident_char(s[p]) {
        lemma_ident_end(s, p + 1);
    }
}

pub proof fn lemma_number_end(s: Seq<char>, p: int)
    requires
        0 <= p <= s.len(),
    ensures
        p <= number_end(s, p) <= s.len(),
        forall|j: int| p <= j < number_end(s, p) ==> is_number_char(s[j]),
        number_end(s, p) < s.len() ==> !is_number_char(s[number_end(s, p)]),
    decreases s.len() - p,
{
    if p < s.len() && is_number_char(s[p]) {
        lemma_number_end(s, p + 1);
    }
}

pub proof fn lemma_find_char(s: Seq<char>, p: int, c: char)
    requires
        0 <= p <= s.len(),
    ensures
        p <= find_char(s, p, c) <= s.len(),
        forall|j: int| p <= j < find_char(s, p, c) ==> s[j] != c,
        find_char(s, p, c) < s.len() ==> s[find_char(s, p, c)] == c,
    decreases s.len() - p,
{
    if p < s.len() && s[p] != c {
        lemma_find_char(s, p + 1, c);
    }
}

/// A produced token always stands past its start position.
pub proof fn lemma_sp_next_advances(s: Seq<char>, p: int)
    requires
        0 <= p <= s.len(),
    ensures
        match sp_next(s, p) {
            Some(tp) => p < tp.1 <= s.len(),
            None => true,
        },
{
    lemma_skip_ws(s, p);
    let q = skip_ws(s, p);
    if q < s.len() {
        let c = s[q];
        if is_ident_start(c) {
            lemma_ident_end(s, q);
            assert(ident_end(s, q) == ident_end(s, q + 1) >= q + 1);
        } else if is_digit(c) {
            lemma_number_end(s, q);
            assert(number_end(s, q) == number_end(s, q + 1) >= q + 1);
        } else if c == '"' || c == '\'' {
            lemma_find_char(s, q + 1, c);
        }
    }
}

/// The pull-one-token-at-a-time interface over a query text.
pub struct Lexer {
    text: String,
    pos: usize,
}

impl Lexer {
    /// The character sequence being tokenized.
    pub closed spec fn src(&self) -> Seq<char> {
        self.text@
    }

    /// The current scan position.
    pub closed spec fn at(&self) -> int {
        self.pos as int
    }

    pub open spec fn wf(&self) -> bool {
        0 <= self.at() <= self.src().len()
    }

    pub fn new(input: &str) -> (l: Lexer)
        ensures
            l.src() == input@,
            l.at() == 0,
            l.wf(),
    {
        Lexer { text: input.to_owned(), pos: 0 }
    }

    fn skip_whitespace(&mut self)
        requires
            old(self).wf(),
        ensures
            final(self).src() == old(self).src(),
            final(self).wf(),
            final(self).at() == skip_ws(final(self).src(), old(self).at()),
    {
        let n = self.text.as_str().unicode_len();
        loop
            invariant
                self.wf(),
                n == self.src().len(),
                self.src() == old(self).src(),
                skip_ws(self.src(), self.at()) == skip_ws(self.src(), old(self).at()),
            ensures
                self.src() == old(self).src(),
                self.at() == skip_ws(self.src(), old(self).at()),
            decreases n - self.pos,
        {
            if self.pos >= n {
                break ;
            }
            let c = self.text.as_str().get_char(self.pos);
            if !(('\u{09}' <= c && c <= '\u{0d}') || c == ' ' || c == '\u{85}' || c == '\u{a0}'
                || c == '\u{1680}' || ('\u{2000}' <= c && c <= '\u{200a}') || c == '\u{2028}' || c
                == '\u{2029}' || c == '\u{202f}' || c == '\u{205f}' || c == '\u{3000}') {
                proof {
                    assert(!is_space(self.src()[self.at()]));
                }
                break ;
            }
            self.pos = self.pos + 1;
        }
    }

    /// Pulls the next token, or reports the end of the stream — both at
    /// the true end of the text and at a character that starts no token.
    /// The two cases stay distinguishable: after a `None` the position
    /// stands at the end of the text or at the offending character, and
    /// `at_end` tells which.
    pub fn next_token(&mut self) -> (r: Option<Token>)
        requires
            old(self).wf(),
        ensures
            final(self).src() == old(self).src(),
            final(self).wf(),
            old(self).at() <= final(self).at(),
            match r {
                Some(t) => sp_next(final(self).src(), old(self).at()) == Some((t@, final(self).at())),
                None => sp_next(final(self).src(), old(self).at()) is None && final(self).at()
                    == skip_ws(final(self).src(), old(self).at()),
            },
    {
        self.skip_whitespace();
        proof {
            lemma_skip_ws(self.src(), old(self).at());
            assert(skip_ws(self.src(), self.at()) == self.at());
            lemma_sp_next_advances(self.src(), old(self).at());
        }
        let n = self.text.as_str().unicode_len();
        if self.pos >= n {
            return None;
        }
        let c = self.text.as_str().get_char(self.pos);
        if ('a' <= c && c <= 'z') || ('A' <= c && c <= 'Z') || c == '_' {
            Some(self.scan_identifier())
        } else if '0' <= c && c <= '9' {
            Some(self.scan_number())
        } else if c == '"' || c == '\'' {
            Some(self.scan_string())
        } else {
            self.scan_symbol()
        }
    }

    /// Whether the whole text has been consumed.  After `next_token`
    /// returns `None`, this separates the true end of the input from a
    /// stop at an unrecognized character.
    pub fn at_end(&self) -> (b: bool)
        requires
            self.wf(),
        ensures
            b == (self.at() == self.src().len()),
    {
        self.pos >= self.text.as_str().unicode_len()
    }

    fn scan_identifier(&mut self) -> (r: Token)
        requires
            old(self).wf(),
            old(self).at() < old(self).src().len(),
            is_ident_start(old(self).src()[old(self).at()]),
            skip_ws(old(self).src(), old(self).at()) == old(self).at(),
        ensures
            final(self).src() == old(self).src(),
            final(self).wf(),
            sp_next(final(self).src(), old(self).at()) == Some((r@, final(self).at())),
    {
        let start = self.pos;
        let n = self.text.as_str().unicode_len();
        proof {
            lemma_ident_end(self.src(), start as int);
        }
        loop
            invariant
                self.src() == old(self).src(),
                n == self.src().len(),
                start <= self.pos,
                self.wf(),
                ident_end(self.src(), start as int) == ident_end(self.src(), self.at()),
                self.at() <= ident_end(self.src(), start as int),
            ensures
                self.src() == old(self).src(),
                self.at() == ident_end(self.src(), start as int),
            decreases n - self.pos,
        {
            if self.pos >= n {
                break ;
            }
            let c = self.text.as_str().get_char(self.pos);
            if !(('a' <= c && c <= 'z') || ('A' <= c && c <= 'Z') || c == '_' || ('0' <= c && c
                <= '9') || c == '.') {
                proof {
                    assert(!is_ident_char(self.src()[self.at()]));
                }
                break ;
            }
            proof {
                lemma_ident_end(self.src(), self.at() + 1);
            }
            self.pos = self.pos + 1;
        }
        let word = self.text.as_str().substring_char(start, self.pos);
        proof {
            assert(word@ =~= self.src().subrange(start as int, self.at()));
        }
        match keyword_token(word) {
            Some(t) => t,
            None => Token::Identifier(word.to_owned()),
        }
    }

    fn scan_number(&mut self) -> (r: Token)
        requires
            old(self).wf(),
            old(self).at() < old(self).src().len(),
            is_digit(old(self).src()[old(self).at()]),
            skip_ws(old(self).src(), old(self).at()) == old(self).at(),
        ensures
            final(self).src() == old(self).src(),
            final(self).wf(),
            sp_next(final(self).src(), old(self).at()) == Some((r@, final(self).at())),
    {
        let start = self.pos;
        let n = self.text.as_str().unicode_len();
        proof {
            lemma_number_end(self.src(), start as int);
        }
        loop
            invariant
                self.src() == old(self).src(),
                n == self.src().len(),
                start <= self.pos,
                self.wf(),
                number_end(self.src(), start as int) == number_end(self.src(), self.at()),
                self.at() <= number_end(self.src(), start as int),
            ensures
                self.src() == old(self).src(),
                self.at() == number_end(self.src(), start as int),
            decreases n - self.pos,
        {
            if self.pos >= n {
                break ;
            }
            let c = self.text.as_str().get_char(self.pos);
            if !(('0' <= c && c <= '9') || c == '.') {
                proof {
                    assert(!is_number_char(self.src()[self.at()]));
                }
                break ;
            }
            proof {
                lemma_number_end(self.src(), self.at() + 1);
            }
            self.pos = self.pos + 1;
        }
        let text = self.text.as_str().substring_char(start, self.pos);
        proof {
            assert(text@ =~= self.src().subrange(start as int, self.at()));
        }
        Token::Number(text.to_owned())
    }

    fn scan_string(&mut self) -> (r: Token)
        requires
            old(self).wf(),
            old(self).at() < old(self).src().len(),
            old(self).src()[old(self).at()] == '"' || old(self).src()[old(self).at()] == '\'',
            !is_ident_start(old(self).src()[old(self).at()]),
            !is_digit(old(self).src()[old(self).at()]),
            skip_ws(old(self).src(), old(self).at()) == old(self).at(),
        ensures
            final(self).src() == old(self).src(),
            final(self).wf(),
            sp_next(final(self).src(), old(self).at()) == Some((r@, final(self).at())),
    {
        let start = self.pos;
        let quote = self.text.as_str().get_char(start);
        let n = self.text.as_str().unicode_len();
        proof {
            lemma_find_char(self.src(), start + 1, quote);
        }
        self.pos = start + 1;
        loop
            invariant
                self.src() == old(self).src(),
                n == self.src().len(),
                start + 1 <= self.pos,
                self.wf(),
                find_char(self.src(), start + 1, quote) == find_char(self.src(), self.at(), quote),
                self.at() <= find_char(self.src(), start + 1, quote),
            ensures
                self.src() == old(self).src(),
                self.at() == find_char(self.src(), start + 1, quote),
            decreases n - self.pos,
        {
            if self.pos >= n {
                break ;
            }
            let c = self.text.as_str().get_char(self.pos);
            if c == quote {
                break ;
            }
            proof {
                lemma_find_char(self.src(), self.at() + 1, quote);
            }
            self.pos = self.pos + 1;
        }
        let text = self.text.as_str().substring_char(start + 1, self.pos);
        proof {
            assert(text@ =~= self.src().subrange(start + 1, self.at()));
        }
        let t = Token::StringLiteral(text.to_owned());
        if self.pos < n {
            // consume the closing quote
            self.pos = self.pos + 1;
        }
        t
    }

    fn scan_symbol(&mut self) -> (r: Option<Token>)
        requires
            old(self).wf(),
            old(self).at() < old(self).src().len(),
            !is_ident_start(old(self).src()[old(self).at()]),
            !is_digit(old(self).src()[old(self).at()]),
            old(self).src()[old(self).at()] != '"',
            old(self).src()[old(self).at()] != '\'',
            skip_ws(old(self).src(), old(self).at()) == old(self).at(),
        ensures
            final(self).src() == old(self).src(),
            final(self).wf(),
            old(self).at() <= final(self).at(),
            match r {
                Some(t) => sp_next(final(self).src(), old(self).at()) == Some((t@, final(self).at())),
                None => sp_next(final(self).src(), old(self).at()) is None && final(self).at()
                    == old(self).at(),
            },
    {
        let n = self.text.as_str().unicode_len();
        let c = self.text.as_str().get_char(self.pos);
        if c == '*' {
            self.pos = self.pos + 1;
            Some(Token::Star)
        } else if c == ',' {
            self.pos = self.pos + 1;
            Some(Token::Comma)
        } else if c == '=' {
            self.pos = self.pos + 1;
            Some(Token::Equal)
        } else if c == '!' {
            if self.pos + 1 < n && self.text.as_str().get_char(self.pos + 1) == '=' {
                self.pos = self.pos + 2;
                Some(Token::NotEqual)
            } else {
                // a bare `!` starts no token; leave the position on it
                None
            }
        } else if c == '>' {
            if self.pos + 1 < n && self.text.as_str().get_char(self.pos + 1) == '=' {
                self.pos = self.pos + 2;
                Some(Token::GreaterThanOrEq)
            } else {
                self.pos = self.pos + 1;
                Some(Token::GreaterThan)
            }
        } else if c == '<' {
            if self.pos + 1 < n && self.text.as_str().get_char(self.pos + 1) == '=' {
                self.pos = self.pos + 2;
                Some(Token::LessThanOrEq)
            } else if self.pos + 1 < n && self.text.as_str().get_char(self.pos + 1) == '>' {
                self.pos = self.pos + 2;
                Some(Token::NotEqual)
            } else {
                self.pos = self.pos + 1;
                Some(Token::LessThan)
            }
        } else {
            None
        }
    }
}

/// Classifies a scanned word as a keyword token, case-insensitively.
fn keyword_token(t: &str) -> (r: Option<Token>)
    ensures
        match r {
            Some(k) => k@ == keyword_of(t@) && !(keyword_of(t@) is Identifier),
            None => keyword_of(t@) == TokenV::Identifier(t@),
        },
{
    let n = t.unicode_len();
    if n == 6 {
        let c0 = t.get_char(0);
        let c1 = t.get_char(1);
        let c2 = t.get_char(2);
        let c3 = t.get_char(3);
        let c4 = t.get_char(4);
        let c5 = t.get_char(5);
        if (c0 == 's' || c0 == 'S') && (c1 == 'e' || c1 == 'E') && (c2 == 'l' || c2 == 'L') && (c3
            == 'e' || c3 == 'E') && (c4 == 'c' || c4 == 'C') && (c5 == 't' || c5 == 'T') {
            return Some(Token::Select);
        }
    }
    if n == 4 {
        let c0 = t.get_char(0);
        let c1 = t.get_char(1);
        let c2 = t.get_char(2);
        let c3 = t.get_char(3);
        if (c0 == 'f' || c0 == 'F') && (c1 == 'r' || c1 == 'R') && (c2 == 'o' || c2 == 'O') && (c3
            == 'm' || c3 == 'M') {
            return Some(Token::From);
        }
    }
    if n == 5 {
        let c0 = t.get_char(0);
        let c1 = t.get_char(1);
        let c2 = t.get_char(2);
        let c3 = t.get_char(3);
        let c4 = t.get_char(4);
        if (c0 == 'w' || c0 == 'W') && (c1 == 'h' || c1 == 'H') && (c2 == 'e' || c2 == 'E') && (c3
            == 'r' || c3 == 'R') && (c4 == 'e' || c4 == 'E') {
            return Some(Token::Where);
        }
        if (c0 == 'l' || c0 == 'L') && (c1 == 'i' || c1 == 'I') && (c2 == 'm' || c2 == 'M') && (c3
            == 'i' || c3 == 'I') && (c4 == 't' || c4 == 'T') {
            return Some(Token::Limit);
        }
    }
    if n == 2 {
        let c0 = t.get_char(0);
        let c1 = t.get_char(1);
        if (c0 == 'o' || c0 == 'O') && (c1 == 'r' || c1 == 'R') {
            return Some(Token::Or);
        }
    }
    if n == 3 {
        let c0 = t.get_char(0);
        let c1 = t.get_char(1);
        let c2 = t.get_char(2);
        if (c0 == 'a' || c0 == 'A') && (c1 == 'n' || c1 == 'N') && (c2 == 'd' || c2 == 'D') {
            return Some(Token::And);
        }
    }
    None
}

/// Tokenizes a whole query text: all tokens up to the end of the input or
/// the first unrecognized character.
pub fn tokenize(input: &str) -> (r: Vec<Token>)
    ensures
        r@.map_values(|t: Token| t@) == sp_tokens(input@, 0),
{
    let mut lexer = Lexer::new(input);
    let mut tokens: Vec<Token> = Vec::new();
    loop
        invariant_except_break
            tokens@.map_values(|t: Token| t@) + sp_tokens(input@, lexer.at()) == sp_tokens(
                input@,
                0,
            ),
        invariant
            lexer.wf(),
            lexer.src() == input@,
        ensures
            tokens@.map_values(|t: Token| t@) == sp_tokens(input@, 0),
        decreases input@.len() - lexer.at(),
    {
        proof {
            lemma_sp_next_advances(input@, lexer.at());
        }
        let ghost prev = lexer.at();
        match lexer.next_token() {
            Some(t) => {
                proof {
                    let f = |t: Token| t@;
                    assert(tokens@.push(t).map_values(f) =~= tokens@.map_values(f).push(t@));
                    assert(sp_tokens(input@, prev) == seq![t@] + sp_tokens(input@, lexer.at()));
                    assert(tokens@.map_values(f).push(t@) + sp_tokens(input@, lexer.at()) =~= (
                    tokens@.map_values(f) + sp_tokens(input@, prev)));
                }
                tokens.push(t);
            },
            None => {
                proof {
                    assert(sp_tokens(input@, prev) =~= Seq::<TokenV>::empty());
                    assert(tokens@.map_values(|t: Token| t@) + sp_tokens(input@, prev)
                        =~= tokens@.map_values(|t: Token| t@));
                }
                break ;
            },
        }
    }
    tokens
}

} // verus!
