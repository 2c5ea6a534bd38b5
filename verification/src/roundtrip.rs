//! The pipeline inverts the canonical rendering: for every statement whose
//! expression tree respects the grammar's precedence layering and whose
//! names are lexically sound, tokenizing the statement's canonical
//! rendering yields its canonical token sequence, and parsing those tokens
//! reproduces the statement exactly.

use vstd::prelude::*;

verus! {

use crate::ast::ExprV;
use crate::ast::Op;
use crate::ast::StatementV;
use crate::ir::sp_digit;
use crate::ir::sp_op_text;
use crate::ir::sp_render_expr;
use crate::ir::sp_digits;
use crate::num::all_digits;
use crate::num::dec_val;
use crate::num::dec_valid;
use crate::num::digits_val;
use crate::num::frac_part;
use crate::num::int_part;
use crate::num::is_digit;
use crate::num::lemma_first_dot_is;
use crate::num::limit_of;
use crate::num::FRAC_DIGITS;
use crate::num::MAX_INT_PART;
use crate::parser::comp_op_of;
use crate::parser::ParseError;
use crate::token::TokenV;
use vstd::arithmetic::power::lemma_pow_positive;
use vstd::arithmetic::power::pow;

/// A grammar-shaped expression leaf.
pub open spec fn wf_leaf(e: ExprV) -> bool {
    e is Identifier || e is Number || e is Literal
}

/// An operator of the comparison level.
pub open spec fn is_cmp_op(op: Op) -> bool {
    op != Op::And && op != Op::Or
}

/// A grammar-shaped comparison: a leaf, or a leaf compared — right
/// recursively — with another comparison.
pub open spec fn wf_cmp(e: ExprV) -> bool
    decreases e,
{
    match e {
        ExprV::BinaryOp { left, op, right } => is_cmp_op(op) && wf_leaf(*left) && wf_cmp(*right),
        _ => wf_leaf(e),
    }
}

/// A grammar-shaped `AND` chain: comparisons folded to the left.
pub open spec fn wf_and(e: ExprV) -> bool
    decreases e,
{
    match e {
        ExprV::BinaryOp { left, op: Op::And, right } => wf_and(*left) && wf_cmp(*right),
        _ => wf_cmp(e),
    }
}

/// A grammar-shaped expression: `AND` chains folded to the left under
/// `OR`.
pub open spec fn wf_expr(e: ExprV) -> bool
    decreases e,
{
    match e {
        ExprV::BinaryOp { left, op: Op::Or, right } => wf_expr(*left) && wf_and(*right),
        _ => wf_and(e),
    }
}

/// A grammar-shaped statement: at least one column, a layered WHERE
/// expression, and a LIMIT that both the token text and a `usize` carry.
pub open spec fn wf_statement(st: StatementV) -> bool {
    &&& st.columns.len() >= 1
    &&& match st.where_clause {
        Some(e) => wf_expr(e),
        None => true,
    }
    &&& match st.limit {
        Some(k) => 0 <= k <= MAX_INT_PART as int && k <= usize::MAX as int,
        None => true,
    }
}

/// The token of a leaf.
pub open spec fn leaf_token(e: ExprV) -> TokenV {
    match e {
        ExprV::Identifier(s) => TokenV::Identifier(s),
        ExprV::Number(t) => TokenV::Number(t),
        ExprV::Literal(s) => TokenV::StringLiteral(s),
        _ => TokenV::EOF,
    }
}

/// The token of a comparison operator.
pub open spec fn op_token(op: Op) -> TokenV {
    match op {
        Op::Equal => TokenV::Equal,
        Op::NotEqual => TokenV::NotEqual,
        Op::GreaterThan => TokenV::GreaterThan,
        Op::LessThan => TokenV::LessThan,
        Op::GreaterThanOrEq => TokenV::GreaterThanOrEq,
        Op::LessThanOrEq => TokenV::LessThanOrEq,
        Op::And => TokenV::And,
        Op::Or => TokenV::Or,
    }
}

/// The canonical tokens of a comparison.
pub open spec fn cmp_tokens(e: ExprV) -> Seq<TokenV>
    decreases e,
{
    match e {
        ExprV::BinaryOp { left, op, right } => seq![leaf_token(*left)] + seq![op_token(op)]
            + cmp_tokens(*right),
        _ => seq![leaf_token(e)],
    }
}

/// The comparisons of an `AND` chain, in source order.
pub open spec fn and_items(e: ExprV) -> Seq<ExprV>
    decreases e,
{
    match e {
        ExprV::BinaryOp { left, op: Op::And, right } => and_items(*left).push(*right),
        _ => seq![e],
    }
}

/// Left-folds comparisons onto `first` with `AND`.
pub open spec fn and_fold(first: ExprV, rest: Seq<ExprV>) -> ExprV
    decreases rest.len(),
{
    if rest.len() == 0 {
        first
    } else {
        and_fold(
            ExprV::BinaryOp { left: Box::new(first), op: Op::And, right: Box::new(rest[0]) },
            rest.skip(1),
        )
    }
}

/// The canonical tokens of the tail of an `AND` chain.
pub open spec fn and_tail_tokens(items: Seq<ExprV>) -> Seq<TokenV>
    decreases items.len(),
{
    if items.len() == 0 {
        Seq::empty()
    } else {
        seq![TokenV::And] + cmp_tokens(items[0]) + and_tail_tokens(items.skip(1))
    }
}

/// The canonical tokens of an `AND` chain.
pub open spec fn and_tokens(e: ExprV) -> Seq<TokenV> {
    cmp_tokens(and_items(e)[0]) + and_tail_tokens(and_items(e).skip(1))
}

/// The `AND` chains of an `OR` chain, in source order.
pub open spec fn or_items(e: ExprV) -> Seq<ExprV>
    decreases e,
{
    match e {
        ExprV::BinaryOp { left, op: Op::Or, right } => or_items(*left).push(*right),
        _ => seq![e],
    }
}

/// Left-folds `AND` chains onto `first` with `OR`.
pub open spec fn or_fold(first: ExprV, rest: Seq<ExprV>) -> ExprV
    decreases rest.len(),
{
    if rest.len() == 0 {
        first
    } else {
        or_fold(
            ExprV::BinaryOp { left: Box::new(first), op: Op::Or, right: Box::new(rest[0]) },
            rest.skip(1),
        )
    }
}

/// The canonical tokens of the tail of an `OR` chain.
pub open spec fn or_tail_tokens(items: Seq<ExprV>) -> Seq<TokenV>
    decreases items.len(),
{
    if items.len() == 0 {
        Seq::empty()
    } else {
        seq![TokenV::Or] + and_tokens(items[0]) + or_tail_tokens(items.skip(1))
    }
}

/// The canonical tokens of a whole expression.
pub open spec fn expr_tokens(e: ExprV) -> Seq<TokenV> {
    and_tokens(or_items(e)[0]) + or_tail_tokens(or_items(e).skip(1))
}

/// The token of one projection column.
pub open spec fn col_token(c: Seq<char>) -> TokenV {
    if c == seq!['*'] {
        TokenV::Star
    } else {
        TokenV::Identifier(c)
    }
}

/// The canonical tokens of the column list.
pub open spec fn cols_tokens(cols: Seq<Seq<char>>) -> Seq<TokenV>
    decreases cols.len(),
{
    if cols.len() == 0 {
        Seq::empty()
    } else if cols.len() == 1 {
        seq![col_token(cols[0])]
    } else {
        seq![col_token(cols[0])] + seq![TokenV::Comma] + cols_tokens(cols.skip(1))
    }
}

/// The canonical token sequence of a statement.
pub open spec fn stmt_tokens(st: StatementV) -> Seq<TokenV> {
    seq![TokenV::Select] + cols_tokens(st.columns) + seq![
        TokenV::From,
        TokenV::Identifier(st.table),
    ] + (match st.where_clause {
        Some(e) => seq![TokenV::Where] + expr_tokens(e),
        None => Seq::empty(),
    }) + (match st.limit {
        Some(k) => seq![TokenV::Limit, TokenV::Number(sp_digits(k))],
        None => Seq::empty(),
    })
}

/// Rendering one digit and reading it back is the identity.
pub proof fn lemma_digit_round_trip(k: int)
    requires
        0 <= k < 10,
    ensures
        crate::num::digit_val(sp_digit(k)) == k,
        is_digit(sp_digit(k)),
{
    if k == 0 {
        assert(crate::num::digit_val('0') == 0);
    } else if k == 1 {
        assert(crate::num::digit_val('1') == 1);
    } else if k == 2 {
        assert(crate::num::digit_val('2') == 2);
    } else if k == 3 {
        assert(crate::num::digit_val('3') == 3);
    } else if k == 4 {
        assert(crate::num::digit_val('4') == 4);
    } else if k == 5 {
        assert(crate::num::digit_val('5') == 5);
    } else if k == 6 {
        assert(crate::num::digit_val('6') == 6);
    } else if k == 7 {
        assert(crate::num::digit_val('7') == 7);
    } else if k == 8 {
        assert(crate::num::digit_val('8') == 8);
    } else {
        assert(crate::num::digit_val('9') == 9);
    }
}

/// The decimal rendering of `k` is a digit run valuing `k`.
pub proof fn lemma_digits_value(k: int)
    requires
        k >= 0,
    ensures
        all_digits(sp_digits(k)),
        sp_digits(k).len() >= 1,
        digits_val(sp_digits(k)) == k,
    decreases k,
{
    if k < 10 {
        lemma_digit_round_trip(k);
        assert(sp_digits(k) =~= seq![sp_digit(k)]);
        assert(sp_digits(k).drop_last() =~= Seq::<char>::empty());
        assert(digits_val(Seq::<char>::empty()) == 0);
        assert(digits_val(sp_digits(k)) == digits_val(sp_digits(k).drop_last()) * 10
            + crate::num::digit_val(sp_digits(k).last()));
    } else {
        lemma_digit_round_trip(k % 10);
        lemma_digits_value(k / 10);
        assert(sp_digits(k) == sp_digits(k / 10) + seq![sp_digit(k % 10)]);
        assert(sp_digits(k).drop_last() =~= sp_digits(k / 10));
        assert(sp_digits(k).last() == sp_digit(k % 10));
        assert(forall|i: int|
            0 <= i < sp_digits(k).len() ==> (if i < sp_digits(k / 10).len() {
                sp_digits(k)[i] == sp_digits(k / 10)[i]
            } else {
                sp_digits(k)[i] == sp_digit(k % 10)
            }));
    }
}

/// The LIMIT a rendered number denotes is the number itself.
pub proof fn lemma_limit_round_trip(k: int)
    requires
        0 <= k <= MAX_INT_PART as int,
        k <= usize::MAX as int,
    ensures
        limit_of(sp_digits(k)) == k,
{
    let d = sp_digits(k);
    lemma_digits_value(k);
    assert(!is_digit('-') && !is_digit('+') && !is_digit('.'));
    assert(crate::num::sign_len(d) == 0);
    assert(crate::num::body_of(d) =~= d);
    lemma_first_dot_is(d, d.len() as int);
    assert(int_part(d) =~= d);
    assert(frac_part(d) =~= Seq::<char>::empty());
    assert(dec_valid(d));
    assert(crate::num::frac_kept(frac_part(d)) =~= Seq::<char>::empty());
    let p18 = pow(10, FRAC_DIGITS as nat);
    lemma_pow_positive(10, FRAC_DIGITS as nat);
    assert(digits_val(Seq::<char>::empty()) == 0);
    assert(crate::num::dec_mag(d) == k * p18);
    assert(!crate::num::is_negative(d));
    assert(dec_val(d) == k * p18);
    if k == 0 {
        assert(dec_val(d) == 0);
        assert(limit_of(d) == 0);
    } else {
        assert(dec_val(d) > 0) by (nonlinear_arith)
            requires
                dec_val(d) == k * p18,
                k >= 1,
                p18 >= 1,
        ;
        assert(dec_val(d) / p18 == k) by (nonlinear_arith)
            requires
                dec_val(d) == k * p18,
                p18 >= 1,
        ;
    }
}

/// No comparison operator may stand at `q`: where a comparison must stop.
pub open spec fn cmp_boundary(ts: Seq<TokenV>, q: int) -> bool {
    q == ts.len() || comp_op_of(ts[q]) is None
}

/// Where an `AND` chain must stop.
pub open spec fn and_boundary(ts: Seq<TokenV>, q: int) -> bool {
    q == ts.len() || (ts[q] != TokenV::And && comp_op_of(ts[q]) is None)
}

/// Where a whole expression must stop.
pub open spec fn expr_boundary(ts: Seq<TokenV>, q: int) -> bool {
    q == ts.len() || (ts[q] != TokenV::Or && ts[q] != TokenV::And && comp_op_of(ts[q]) is None)
}


/// A segment of a segment of `ts` is the corresponding segment of `ts`.
proof fn lemma_nested_segment<A>(ts: Seq<A>, p: int, whole: Seq<A>, off: int, part: Seq<A>)
    requires
        0 <= p,
        p + whole.len() <= ts.len(),
        ts.subrange(p, p + whole.len() as int) == whole,
        0 <= off,
        off + part.len() <= whole.len(),
        part == whole.subrange(off, off + part.len() as int),
    ensures
        ts.subrange(p + off, p + off + part.len() as int) == part,
{
    assert forall|i: int|
        0 <= i < part.len() implies ts.subrange(p + off, p + off + part.len() as int)[i]
        == part[i] by {
        assert(whole.subrange(off, off + part.len() as int)[i] == whole[off + i]);
        assert(ts.subrange(p, p + whole.len() as int)[off + i] == ts[p + off + i]);
    }
    assert(ts.subrange(p + off, p + off + part.len() as int) =~= part);
}

proof fn lemma_parse_leaf(e: ExprV, ts: Seq<TokenV>, p: int)
    requires
        wf_leaf(e),
        0 <= p < ts.len(),
        ts[p] == leaf_token(e),
    ensures
        crate::parser::sp_leaf(ts, p) == Ok::<(ExprV, int), ParseError>((e, p + 1)),
{
}

proof fn lemma_parse_cmp(e: ExprV, ts: Seq<TokenV>, p: int)
    requires
        wf_cmp(e),
        0 <= p,
        p + cmp_tokens(e).len() <= ts.len(),
        ts.subrange(p, p + cmp_tokens(e).len() as int) == cmp_tokens(e),
        cmp_boundary(ts, p + cmp_tokens(e).len() as int),
    ensures
        crate::parser::sp_comparison(ts, p) == Ok::<(ExprV, int), ParseError>(
            (e, p + cmp_tokens(e).len() as int),
        ),
    decreases e,
{
    let tk = cmp_tokens(e);
    let seg = ts.subrange(p, p + tk.len() as int);
    match e {
        ExprV::BinaryOp { left, op, right } => {
            let rtk = cmp_tokens(*right);
            assert(tk == seq![leaf_token(*left)] + seq![op_token(op)] + rtk);
            assert(tk.len() == 2 + rtk.len());
            assert(ts[p] == seg[0] && seg[0] == tk[0] && tk[0] == leaf_token(*left));
            assert(ts[p + 1] == seg[1] && seg[1] == tk[1] && tk[1] == op_token(op));
            lemma_parse_leaf(*left, ts, p);
            assert(comp_op_of(op_token(op)) == Some(op));
            assert(tk.subrange(2, 2 + rtk.len() as int) =~= rtk);
            lemma_nested_segment(ts, p, tk, 2, rtk);
            lemma_parse_cmp(*right, ts, p + 2);
            assert(crate::parser::sp_comparison(ts, p) == Ok::<(ExprV, int), ParseError>(
                (e, p + tk.len() as int),
            ));
        },
        _ => {
            assert(tk == seq![leaf_token(e)]);
            assert(ts[p] == seg[0] && seg[0] == tk[0]);
            lemma_parse_leaf(e, ts, p);
            assert(crate::parser::sp_comparison(ts, p) == Ok::<(ExprV, int), ParseError>(
                (e, p + 1),
            ));
        },
    }
}

proof fn lemma_and_fold_push(first: ExprV, rest: Seq<ExprV>, x: ExprV)
    ensures
        and_fold(first, rest.push(x)) == (ExprV::BinaryOp {
            left: Box::new(and_fold(first, rest)),
            op: Op::And,
            right: Box::new(x),
        }),
    decreases rest.len(),
{
    if rest.len() == 0 {
        let inner = ExprV::BinaryOp { left: Box::new(first), op: Op::And, right: Box::new(x) };
        assert(rest.push(x)[0] == x);
        assert(rest.push(x).skip(1) =~= Seq::<ExprV>::empty());
        assert(and_fold(inner, rest.push(x).skip(1)) == inner);
        assert(and_fold(first, rest) == first);
    } else {
        let step = ExprV::BinaryOp { left: Box::new(first), op: Op::And, right: Box::new(rest[0]) };
        assert(rest.push(x)[0] == rest[0]);
        assert(rest.push(x).skip(1) =~= rest.skip(1).push(x));
        lemma_and_fold_push(step, rest.skip(1), x);
        assert(and_fold(first, rest.push(x)) == and_fold(step, rest.skip(1).push(x)));
        assert(and_fold(first, rest) == and_fold(step, rest.skip(1)));
    }
}

proof fn lemma_and_items(e: ExprV)
    requires
        wf_and(e),
    ensures
        and_items(e).len() >= 1,
        forall|i: int| 0 <= i < and_items(e).len() ==> wf_cmp(#[trigger] and_items(e)[i]),
        and_fold(and_items(e)[0], and_items(e).skip(1)) == e,
    decreases e,
{
    match e {
        ExprV::BinaryOp { left, op: Op::And, right } => {
            lemma_and_items(*left);
            let li = and_items(*left);
            assert(and_items(e) == li.push(*right));
            assert(li.push(*right)[0] == li[0]);
            assert(li.push(*right).skip(1) =~= li.skip(1).push(*right));
            lemma_and_fold_push(li[0], li.skip(1), *right);
            assert(forall|i: int|
                0 <= i < li.push(*right).len() ==> wf_cmp(#[trigger] li.push(*right)[i]));
        },
        _ => {
            assert(and_items(e) == seq![e]);
            assert(and_items(e).skip(1) =~= Seq::<ExprV>::empty());
        },
    }
}

proof fn lemma_parse_and_tail(acc: ExprV, items: Seq<ExprV>, ts: Seq<TokenV>, p: int)
    requires
        forall|i: int| 0 <= i < items.len() ==> wf_cmp(#[trigger] items[i]),
        0 <= p,
        p + and_tail_tokens(items).len() <= ts.len(),
        ts.subrange(p, p + and_tail_tokens(items).len() as int) == and_tail_tokens(items),
        and_boundary(ts, p + and_tail_tokens(items).len() as int),
    ensures
        crate::parser::sp_and_chain(acc, ts, p) == Ok::<(ExprV, int), ParseError>(
            (and_fold(acc, items), p + and_tail_tokens(items).len() as int),
        ),
    decreases items.len(),
{
    let tk = and_tail_tokens(items);
    let seg = ts.subrange(p, p + tk.len() as int);
    if items.len() == 0 {
        assert(tk.len() == 0);
    } else {
        let ctk = cmp_tokens(items[0]);
        let rest_tk = and_tail_tokens(items.skip(1));
        assert(tk == seq![TokenV::And] + ctk + rest_tk);
        assert(ts[p] == seg[0] && seg[0] == tk[0] && tk[0] == TokenV::And);
        let q = p + 1 + ctk.len() as int;
        assert(tk.subrange(1, 1 + ctk.len() as int) =~= ctk);
        lemma_nested_segment(ts, p, tk, 1, ctk);
        assert(cmp_boundary(ts, q)) by {
            if items.skip(1).len() > 0 {
                assert(ts[q] == seg[1 + ctk.len() as int]);
                assert(tk[1 + ctk.len() as int] == rest_tk[0]);
                assert(rest_tk[0] == TokenV::And);
                assert(comp_op_of(TokenV::And) is None);
            }
        }
        lemma_parse_cmp(items[0], ts, p + 1);
        assert(tk.subrange(1 + ctk.len() as int, tk.len() as int) =~= rest_tk);
        lemma_nested_segment(ts, p, tk, 1 + ctk.len() as int, rest_tk);
        let acc2 = ExprV::BinaryOp {
            left: Box::new(acc),
            op: Op::And,
            right: Box::new(items[0]),
        };
        assert(forall|i: int|
            0 <= i < items.skip(1).len() ==> wf_cmp(#[trigger] items.skip(1)[i]));
        lemma_parse_and_tail(acc2, items.skip(1), ts, q);
        assert(and_fold(acc, items) == and_fold(acc2, items.skip(1)));
    }
}

proof fn lemma_parse_and(e: ExprV, ts: Seq<TokenV>, p: int)
    requires
        wf_and(e),
        0 <= p,
        p + and_tokens(e).len() <= ts.len(),
        ts.subrange(p, p + and_tokens(e).len() as int) == and_tokens(e),
        and_boundary(ts, p + and_tokens(e).len() as int),
    ensures
        crate::parser::sp_and(ts, p) == Ok::<(ExprV, int), ParseError>(
            (e, p + and_tokens(e).len() as int),
        ),
{
    lemma_and_items(e);
    let items = and_items(e);
    let ctk = cmp_tokens(items[0]);
    let rest_tk = and_tail_tokens(items.skip(1));
    let tk = and_tokens(e);
    let seg = ts.subrange(p, p + tk.len() as int);
    assert(tk == ctk + rest_tk);
    let q = p + ctk.len() as int;
    assert(tk.subrange(0, ctk.len() as int) =~= ctk);
    lemma_nested_segment(ts, p, tk, 0, ctk);
    assert(cmp_boundary(ts, q)) by {
        if items.skip(1).len() > 0 {
            assert(ts[q] == seg[ctk.len() as int]);
            assert(tk[ctk.len() as int] == rest_tk[0]);
            assert(rest_tk[0] == TokenV::And);
            assert(comp_op_of(TokenV::And) is None);
        }
    }
    lemma_parse_cmp(items[0], ts, p);
    assert(tk.subrange(ctk.len() as int, tk.len() as int) =~= rest_tk);
    lemma_nested_segment(ts, p, tk, ctk.len() as int, rest_tk);
    lemma_parse_and_tail(items[0], items.skip(1), ts, q);
}

proof fn lemma_or_fold_push(first: ExprV, rest: Seq<ExprV>, x: ExprV)
    ensures
        or_fold(first, rest.push(x)) == (ExprV::BinaryOp {
            left: Box::new(or_fold(first, rest)),
            op: Op::Or,
            right: Box::new(x),
        }),
    decreases rest.len(),
{
    if rest.len() == 0 {
        let inner = ExprV::BinaryOp { left: Box::new(first), op: Op::Or, right: Box::new(x) };
        assert(rest.push(x)[0] == x);
        assert(rest.push(x).skip(1) =~= Seq::<ExprV>::empty());
        assert(or_fold(inner, rest.push(x).skip(1)) == inner);
        assert(or_fold(first, rest) == first);
    } else {
        let step = ExprV::BinaryOp { left: Box::new(first), op: Op::Or, right: Box::new(rest[0]) };
        assert(rest.push(x)[0] == rest[0]);
        assert(rest.push(x).skip(1) =~= rest.skip(1).push(x));
        lemma_or_fold_push(step, rest.skip(1), x);
        assert(or_fold(first, rest.push(x)) == or_fold(step, rest.skip(1).push(x)));
        assert(or_fold(first, rest) == or_fold(step, rest.skip(1)));
    }
}

proof fn lemma_or_items(e: ExprV)
    requires
        wf_expr(e),
    ensures
        or_items(e).len() >= 1,
        forall|i: int| 0 <= i < or_items(e).len() ==> wf_and(#[trigger] or_items(e)[i]),
        or_fold(or_items(e)[0], or_items(e).skip(1)) == e,
    decreases e,
{
    match e {
        ExprV::BinaryOp { left, op: Op::Or, right } => {
            lemma_or_items(*left);
            let li = or_items(*left);
            assert(or_items(e) == li.push(*right));
            assert(li.push(*right)[0] == li[0]);
            assert(li.push(*right).skip(1) =~= li.skip(1).push(*right));
            lemma_or_fold_push(li[0], li.skip(1), *right);
            assert(forall|i: int|
                0 <= i < li.push(*right).len() ==> wf_and(#[trigger] li.push(*right)[i]));
        },
        _ => {
            assert(or_items(e) == seq![e]);
            assert(or_items(e).skip(1) =~= Seq::<ExprV>::empty());
        },
    }
}

proof fn lemma_parse_or_tail(acc: ExprV, items: Seq<ExprV>, ts: Seq<TokenV>, p: int)
    requires
        forall|i: int| 0 <= i < items.len() ==> wf_and(#[trigger] items[i]),
        0 <= p,
        p + or_tail_tokens(items).len() <= ts.len(),
        ts.subrange(p, p + or_tail_tokens(items).len() as int) == or_tail_tokens(items),
        expr_boundary(ts, p + or_tail_tokens(items).len() as int),
    ensures
        crate::parser::sp_or_chain(acc, ts, p) == Ok::<(ExprV, int), ParseError>(
            (or_fold(acc, items), p + or_tail_tokens(items).len() as int),
        ),
    decreases items.len(),
{
    let tk = or_tail_tokens(items);
    let seg = ts.subrange(p, p + tk.len() as int);
    if items.len() == 0 {
        assert(tk.len() == 0);
    } else {
        let atk = and_tokens(items[0]);
        let rest_tk = or_tail_tokens(items.skip(1));
        assert(tk == seq![TokenV::Or] + atk + rest_tk);
        assert(ts[p] == seg[0] && seg[0] == tk[0] && tk[0] == TokenV::Or);
        let q = p + 1 + atk.len() as int;
        assert(tk.subrange(1, 1 + atk.len() as int) =~= atk);
        lemma_nested_segment(ts, p, tk, 1, atk);
        assert(and_boundary(ts, q)) by {
            if items.skip(1).len() > 0 {
                assert(ts[q] == seg[1 + atk.len() as int]);
                assert(tk[1 + atk.len() as int] == rest_tk[0]);
                assert(rest_tk[0] == TokenV::Or);
                assert(comp_op_of(TokenV::Or) is None);
            }
        }
        lemma_parse_and(items[0], ts, p + 1);
        assert(tk.subrange(1 + atk.len() as int, tk.len() as int) =~= rest_tk);
        lemma_nested_segment(ts, p, tk, 1 + atk.len() as int, rest_tk);
        let acc2 = ExprV::BinaryOp { left: Box::new(acc), op: Op::Or, right: Box::new(items[0]) };
        assert(forall|i: int|
            0 <= i < items.skip(1).len() ==> wf_and(#[trigger] items.skip(1)[i]));
        lemma_parse_or_tail(acc2, items.skip(1), ts, q);
        assert(or_fold(acc, items) == or_fold(acc2, items.skip(1)));
    }
}

/// Parsing the canonical tokens of a grammar-shaped expression, at any
/// position whose end no expression token follows, reproduces the
/// expression.
pub proof fn lemma_parse_expr(e: ExprV, ts: Seq<TokenV>, p: int)
    requires
        wf_expr(e),
        0 <= p,
        p + expr_tokens(e).len() <= ts.len(),
        ts.subrange(p, p + expr_tokens(e).len() as int) == expr_tokens(e),
        expr_boundary(ts, p + expr_tokens(e).len() as int),
    ensures
        crate::parser::sp_expression(ts, p) == Ok::<(ExprV, int), ParseError>(
            (e, p + expr_tokens(e).len() as int),
        ),
{
    lemma_or_items(e);
    let items = or_items(e);
    let atk = and_tokens(items[0]);
    let rest_tk = or_tail_tokens(items.skip(1));
    let tk = expr_tokens(e);
    let seg = ts.subrange(p, p + tk.len() as int);
    assert(tk == atk + rest_tk);
    let q = p + atk.len() as int;
    assert(tk.subrange(0, atk.len() as int) =~= atk);
    lemma_nested_segment(ts, p, tk, 0, atk);
    assert(and_boundary(ts, q)) by {
        if items.skip(1).len() > 0 {
            assert(ts[q] == seg[atk.len() as int]);
            assert(tk[atk.len() as int] == rest_tk[0]);
            assert(rest_tk[0] == TokenV::Or);
            assert(comp_op_of(TokenV::Or) is None);
        }
    }
    lemma_parse_and(items[0], ts, p);
    assert(tk.subrange(atk.len() as int, tk.len() as int) =~= rest_tk);
    lemma_nested_segment(ts, p, tk, atk.len() as int, rest_tk);
    lemma_parse_or_tail(items[0], items.skip(1), ts, q);
}

proof fn lemma_parse_cols(cols: Seq<Seq<char>>, ts: Seq<TokenV>, p: int)
    requires
        cols.len() >= 1,
        0 <= p,
        p + cols_tokens(cols).len() <= ts.len(),
        ts.subrange(p, p + cols_tokens(cols).len() as int) == cols_tokens(cols),
        p + cols_tokens(cols).len() == ts.len() || ts[p + cols_tokens(cols).len() as int]
            != TokenV::Comma,
    ensures
        crate::parser::sp_columns(ts, p) == Ok::<(Seq<Seq<char>>, int), ParseError>(
            (cols, p + cols_tokens(cols).len() as int),
        ),
    decreases cols.len(),
{
    let tk = cols_tokens(cols);
    let seg = ts.subrange(p, p + tk.len() as int);
    if cols.len() == 1 {
        assert(tk == seq![col_token(cols[0])]);
        assert(ts[p] == seg[0] && seg[0] == tk[0]);
        if cols[0] == seq!['*'] {
            assert(ts[p] == TokenV::Star);
        } else {
            assert(ts[p] == TokenV::Identifier(cols[0]));
        }
        assert(crate::parser::sp_columns(ts, p) == Ok::<(Seq<Seq<char>>, int), ParseError>(
            (seq![cols[0]], p + 1),
        ));
        assert(seq![cols[0]] =~= cols);
    } else {
        let rest_tk = cols_tokens(cols.skip(1));
        assert(tk == seq![col_token(cols[0])] + seq![TokenV::Comma] + rest_tk);
        assert(ts[p] == seg[0] && seg[0] == tk[0]);
        assert(ts[p + 1] == seg[1] && seg[1] == tk[1] && tk[1] == TokenV::Comma);
        assert(tk.subrange(2, tk.len() as int) =~= rest_tk);
        lemma_nested_segment(ts, p, tk, 2, rest_tk);
        lemma_parse_cols(cols.skip(1), ts, p + 2);
        assert(seq![cols[0]] + cols.skip(1) =~= cols);
    }
}

/// Parsing the canonical token sequence of a grammar-shaped statement
/// reproduces the statement exactly.
pub proof fn lemma_parse_round_trip(st: StatementV)
    requires
        wf_statement(st),
    ensures
        crate::parser::sp_select(stmt_tokens(st)) == Ok::<StatementV, ParseError>(st),
{
    let ts = stmt_tokens(st);
    let ctk = cols_tokens(st.columns);
    let wtk: Seq<TokenV> = match st.where_clause {
        Some(e) => seq![TokenV::Where] + expr_tokens(e),
        None => Seq::empty(),
    };
    let ltk: Seq<TokenV> = match st.limit {
        Some(k) => seq![TokenV::Limit, TokenV::Number(sp_digits(k))],
        None => Seq::empty(),
    };
    let t1 = seq![TokenV::Select] + ctk;
    let t2 = t1 + seq![TokenV::From, TokenV::Identifier(st.table)];
    let t3 = t2 + wtk;
    assert(ts == t3 + ltk);
    assert(ts[0] == TokenV::Select);
    lemma_cols_tokens_len(st.columns);
    let p1 = 1 + ctk.len() as int;
    assert(ts.subrange(1, p1) =~= ctk);
    assert(ts[p1] == TokenV::From);
    lemma_parse_cols(st.columns, ts, 1);
    assert(ts[p1 + 1] == TokenV::Identifier(st.table));
    let p2 = p1 + 2;
    match st.where_clause {
        Some(e) => {
            assert(ts[p2] == TokenV::Where);
            let etk = expr_tokens(e);
            assert(ts.subrange(p2 + 1, p2 + 1 + etk.len() as int) =~= etk);
            let p3 = p2 + 1 + etk.len() as int;
            assert(expr_boundary(ts, p3)) by {
                if p3 < ts.len() {
                    assert(ts[p3] == ltk[0]);
                    assert(ltk[0] == TokenV::Limit);
                    assert(comp_op_of(TokenV::Limit) is None);
                }
            }
            lemma_parse_expr(e, ts, p2 + 1);
            lemma_parse_limit(st, ts, p3);
        },
        None => {
            assert(wtk.len() == 0);
            if p2 < ts.len() {
                assert(ts[p2] == ltk[0]);
                assert(ltk[0] == TokenV::Limit);
                assert(ts[p2] != TokenV::Where);
            }
            lemma_parse_limit(st, ts, p2);
        },
    }
}

/// A list of `n` columns renders to `2n - 1` tokens.
proof fn lemma_cols_tokens_len(cols: Seq<Seq<char>>)
    requires
        cols.len() >= 1,
    ensures
        cols_tokens(cols).len() == 2 * cols.len() - 1,
    decreases cols.len(),
{
    if cols.len() > 1 {
        lemma_cols_tokens_len(cols.skip(1));
    }
}

/// The tail of `sp_select` from the position after the WHERE clause.
proof fn lemma_parse_limit(st: StatementV, ts: Seq<TokenV>, p3: int)
    requires
        wf_statement(st),
        ts == stmt_tokens(st),
        0 <= p3,
        p3 + (match st.limit {
            Some(k) => 2int,
            None => 0int,
        }) == ts.len(),
        match st.limit {
            Some(k) => ts[p3] == TokenV::Limit && ts[p3 + 1] == TokenV::Number(sp_digits(k)),
            None => true,
        },
    ensures
        match st.limit {
            Some(k) => p3 < ts.len() && ts[p3] == TokenV::Limit && p3 + 1 < ts.len() && (
            match ts[p3 + 1] {
                TokenV::Number(t) => limit_of(t) == k,
                _ => false,
            }),
            None => p3 == ts.len(),
        },
{
    match st.limit {
        Some(k) => {
            lemma_limit_round_trip(k);
        },
        None => {
        },
    }
}

/// `ident_end` is pinned by a run of identifier characters and what
/// follows it.
proof fn lemma_ident_end_is(s: Seq<char>, p: int, k: int)
    requires
        0 <= p <= k <= s.len(),
        forall|j: int| p <= j < k ==> crate::lexer::is_ident_char(s[j]),
        k < s.len() ==> !crate::lexer::is_ident_char(s[k]),
    ensures
        crate::lexer::ident_end(s, p) == k,
    decreases k - p,
{
    if p < k {
        lemma_ident_end_is(s, p + 1, k);
    }
}

/// `number_end` is pinned the same way.
proof fn lemma_number_end_is(s: Seq<char>, p: int, k: int)
    requires
        0 <= p <= k <= s.len(),
        forall|j: int| p <= j < k ==> crate::lexer::is_number_char(s[j]),
        k < s.len() ==> !crate::lexer::is_number_char(s[k]),
    ensures
        crate::lexer::number_end(s, p) == k,
    decreases k - p,
{
    if p < k {
        lemma_number_end_is(s, p + 1, k);
    }
}

/// `find_char` is pinned by a run free of `c` and a hit.
proof fn lemma_find_char_is(s: Seq<char>, p: int, c: char, k: int)
    requires
        0 <= p <= k <= s.len(),
        forall|j: int| p <= j < k ==> s[j] != c,
        k < s.len() ==> s[k] == c,
    ensures
        crate::lexer::find_char(s, p, c) == k,
    decreases k - p,
{
    if p < k {
        lemma_find_char_is(s, p + 1, c, k);
    }
}

/// Tokenizing from a whitespace character is tokenizing from past it.
proof fn lemma_tokens_skip_space(s: Seq<char>, p: int)
    requires
        0 <= p < s.len(),
        crate::lexer::is_space(s[p]),
    ensures
        crate::lexer::sp_tokens(s, p) == crate::lexer::sp_tokens(s, p + 1),
{
    assert(crate::lexer::skip_ws(s, p) == crate::lexer::skip_ws(s, p + 1));
    assert(crate::lexer::sp_next(s, p) == crate::lexer::sp_next(s, p + 1));
    match crate::lexer::sp_next(s, p) {
        None => {
            assert(crate::lexer::sp_tokens(s, p) =~= Seq::<TokenV>::empty());
            assert(crate::lexer::sp_tokens(s, p + 1) =~= Seq::<TokenV>::empty());
        },
        Some((t, p2)) => {
            crate::lexer::lemma_sp_next_advances(s, p);
            assert(crate::lexer::sp_tokens(s, p) == seq![t] + crate::lexer::sp_tokens(s, p2));
            assert(crate::lexer::sp_tokens(s, p + 1) == seq![t] + crate::lexer::sp_tokens(
                s,
                p2,
            ));
        },
    }
}

/// A lexically valid identifier text.
pub open spec fn is_ident_text(w: Seq<char>) -> bool {
    &&& w.len() >= 1
    &&& crate::lexer::is_ident_start(w[0])
    &&& forall|i: int| 0 <= i < w.len() ==> crate::lexer::is_ident_char(#[trigger] w[i])
}

/// The text is none of the keywords, in any casing.
pub open spec fn not_keyword(w: Seq<char>) -> bool {
    &&& !crate::lexer::is_kw_select(w)
    &&& !crate::lexer::is_kw_from(w)
    &&& !crate::lexer::is_kw_where(w)
    &&& !crate::lexer::is_kw_limit(w)
    &&& !crate::lexer::is_kw_or(w)
    &&& !crate::lexer::is_kw_and(w)
}

/// A lexically valid numeric literal text.
pub open spec fn is_number_text(w: Seq<char>) -> bool {
    &&& w.len() >= 1
    &&& is_digit(w[0])
    &&& forall|i: int| 0 <= i < w.len() ==> crate::lexer::is_number_char(#[trigger] w[i])
}

/// A string literal's content must not hold the quote that delimits it.
pub open spec fn clean_literal(w: Seq<char>) -> bool {
    forall|i: int| 0 <= i < w.len() ==> (#[trigger] w[i]) != '"'
}

/// The canonical rendering separates tokens with spaces and commas; at a
/// boundary one of them, or the end of the text, follows.
pub open spec fn sep_boundary(s: Seq<char>, q: int) -> bool {
    q == s.len() || s[q] == ' ' || s[q] == ','
}

/// The next token at a rendered word is the word's keyword or identifier.
proof fn lemma_next_word(s: Seq<char>, p: int, w: Seq<char>)
    requires
        is_ident_text(w),
        0 <= p,
        p + w.len() <= s.len(),
        s.subrange(p, p + w.len() as int) == w,
        p + w.len() == s.len() || !crate::lexer::is_ident_char(s[p + w.len() as int]),
    ensures
        crate::lexer::sp_next(s, p) == Some((crate::lexer::keyword_of(w), p + w.len() as int)),
{
    assert(s[p] == s.subrange(p, p + w.len() as int)[0]);
    assert(!crate::lexer::is_space(s[p]));
    assert(crate::lexer::skip_ws(s, p) == p);
    assert(forall|j: int|
        p <= j < p + w.len() ==> s[j] == s.subrange(p, p + w.len() as int)[j - p]);
    lemma_ident_end_is(s, p, p + w.len() as int);
    assert(s.subrange(p, crate::lexer::ident_end(s, p)) == w);
}

/// The next token at a rendered number is that number token.
proof fn lemma_next_number(s: Seq<char>, p: int, w: Seq<char>)
    requires
        is_number_text(w),
        0 <= p,
        p + w.len() <= s.len(),
        s.subrange(p, p + w.len() as int) == w,
        p + w.len() == s.len() || !crate::lexer::is_number_char(s[p + w.len() as int]),
    ensures
        crate::lexer::sp_next(s, p) == Some((TokenV::Number(w), p + w.len() as int)),
{
    assert(s[p] == s.subrange(p, p + w.len() as int)[0]);
    assert(is_digit(s[p]));
    assert(!crate::lexer::is_space(s[p]));
    assert(!crate::lexer::is_ident_start(s[p]));
    assert(crate::lexer::skip_ws(s, p) == p);
    assert(forall|j: int|
        p <= j < p + w.len() ==> s[j] == s.subrange(p, p + w.len() as int)[j - p]);
    lemma_number_end_is(s, p, p + w.len() as int);
    assert(s.subrange(p, crate::lexer::number_end(s, p)) == w);
}

/// The next token at a rendered string literal is that literal.
proof fn lemma_next_literal(s: Seq<char>, p: int, w: Seq<char>)
    requires
        clean_literal(w),
        0 <= p,
        p + w.len() + 2 <= s.len(),
        s[p] == '"',
        s.subrange(p + 1, p + 1 + w.len() as int) == w,
        s[p + 1 + w.len() as int] == '"',
    ensures
        crate::lexer::sp_next(s, p) == Some(
            (TokenV::StringLiteral(w), p + w.len() as int + 2),
        ),
{
    assert(!crate::lexer::is_space(s[p]));
    assert(!crate::lexer::is_ident_start(s[p]));
    assert(!is_digit(s[p]));
    assert(crate::lexer::skip_ws(s, p) == p);
    assert(forall|j: int|
        p + 1 <= j < p + 1 + w.len() ==> s[j] == s.subrange(p + 1, p + 1 + w.len() as int)[j - (p
            + 1)]);
    lemma_find_char_is(s, p + 1, '"', p + 1 + w.len() as int);
    assert(s.subrange(p + 1, crate::lexer::find_char(s, p + 1, '"')) == w);
}

/// The next token at a rendered comparison operator is that operator.
proof fn lemma_next_op(s: Seq<char>, p: int, op: Op)
    requires
        is_cmp_op(op),
        0 <= p,
        p + sp_op_text(op).len() <= s.len(),
        s.subrange(p, p + sp_op_text(op).len() as int) == sp_op_text(op),
        sep_boundary(s, p + sp_op_text(op).len() as int),
    ensures
        crate::lexer::sp_next(s, p) == Some((op_token(op), p + sp_op_text(op).len() as int)),
{
    let w = sp_op_text(op);
    assert(forall|j: int|
        p <= j < p + w.len() ==> s[j] == s.subrange(p, p + w.len() as int)[j - p]);
    assert(s[p] == w[0]);
    assert(!crate::lexer::is_space(s[p]));
    assert(crate::lexer::skip_ws(s, p) == p);
    match op {
        Op::Equal => {
            assert(s[p] == '=');
        },
        Op::NotEqual => {
            assert(s[p] == '!' && s[p + 1] == '=');
        },
        Op::GreaterThan => {
            assert(s[p] == '>');
            if p + 1 < s.len() {
                assert(s[p + 1] == ' ' || s[p + 1] == ',');
            }
        },
        Op::LessThan => {
            assert(s[p] == '<');
            if p + 1 < s.len() {
                assert(s[p + 1] == ' ' || s[p + 1] == ',');
            }
        },
        Op::GreaterThanOrEq => {
            assert(s[p] == '>' && s[p + 1] == '=');
        },
        Op::LessThanOrEq => {
            assert(s[p] == '<' && s[p + 1] == '=');
        },
        _ => {
            assert(false);
        },
    }
}

/// The in-order token sequence of an expression tree.
pub open spec fn flat_tokens(e: ExprV) -> Seq<TokenV>
    decreases e,
{
    match e {
        ExprV::BinaryOp { left, op, right } => flat_tokens(*left) + seq![op_token(op)]
            + flat_tokens(*right),
        _ => seq![leaf_token(e)],
    }
}

proof fn lemma_cmp_flat(e: ExprV)
    requires
        wf_cmp(e),
    ensures
        cmp_tokens(e) == flat_tokens(e),
    decreases e,
{
    match e {
        ExprV::BinaryOp { left, op, right } => {
            lemma_cmp_flat(*right);
            assert(flat_tokens(*left) == seq![leaf_token(*left)]);
            assert(cmp_tokens(e) =~= flat_tokens(e));
        },
        _ => {
        },
    }
}

proof fn lemma_and_tail_push(items: Seq<ExprV>, x: ExprV)
    ensures
        and_tail_tokens(items.push(x)) == and_tail_tokens(items) + seq![TokenV::And]
            + cmp_tokens(x),
    decreases items.len(),
{
    if items.len() == 0 {
        assert(items.push(x)[0] == x);
        assert(items.push(x).skip(1) =~= Seq::<ExprV>::empty());
        assert(and_tail_tokens(items.push(x).skip(1)) == Seq::<TokenV>::empty());
        assert(and_tail_tokens(items.push(x)) =~= and_tail_tokens(items) + seq![TokenV::And]
            + cmp_tokens(x));
    } else {
        assert(items.push(x)[0] == items[0]);
        assert(items.push(x).skip(1) =~= items.skip(1).push(x));
        lemma_and_tail_push(items.skip(1), x);
        assert(and_tail_tokens(items.push(x)) =~= and_tail_tokens(items) + seq![TokenV::And]
            + cmp_tokens(x));
    }
}

proof fn lemma_and_flat(e: ExprV)
    requires
        wf_and(e),
    ensures
        and_tokens(e) == flat_tokens(e),
    decreases e,
{
    match e {
        ExprV::BinaryOp { left, op: Op::And, right } => {
            lemma_and_flat(*left);
            lemma_cmp_flat(*right);
            lemma_and_items(*left);
            let li = and_items(*left);
            assert(and_items(e) == li.push(*right));
            assert(and_items(e)[0] == li[0]);
            assert(and_items(e).skip(1) =~= li.skip(1).push(*right));
            lemma_and_tail_push(li.skip(1), *right);
            assert(and_tokens(e) =~= flat_tokens(*left) + seq![op_token(Op::And)] + flat_tokens(
                *right,
            ));
        },
        _ => {
            lemma_cmp_flat(e);
            assert(and_items(e) == seq![e]);
            assert(and_items(e).skip(1) =~= Seq::<ExprV>::empty());
            assert(and_tail_tokens(Seq::<ExprV>::empty()) == Seq::<TokenV>::empty());
            assert(and_tokens(e) =~= cmp_tokens(e));
        },
    }
}

proof fn lemma_or_tail_push(items: Seq<ExprV>, x: ExprV)
    ensures
        or_tail_tokens(items.push(x)) == or_tail_tokens(items) + seq![TokenV::Or] + and_tokens(
            x,
        ),
    decreases items.len(),
{
    if items.len() == 0 {
        assert(items.push(x)[0] == x);
        assert(items.push(x).skip(1) =~= Seq::<ExprV>::empty());
        assert(or_tail_tokens(items.push(x).skip(1)) == Seq::<TokenV>::empty());
        assert(or_tail_tokens(items.push(x)) =~= or_tail_tokens(items) + seq![TokenV::Or]
            + and_tokens(x));
    } else {
        assert(items.push(x)[0] == items[0]);
        assert(items.push(x).skip(1) =~= items.skip(1).push(x));
        lemma_or_tail_push(items.skip(1), x);
        assert(or_tail_tokens(items.push(x)) =~= or_tail_tokens(items) + seq![TokenV::Or]
            + and_tokens(x));
    }
}

proof fn lemma_expr_flat(e: ExprV)
    requires
        wf_expr(e),
    ensures
        expr_tokens(e) == flat_tokens(e),
    decreases e,
{
    match e {
        ExprV::BinaryOp { left, op: Op::Or, right } => {
            lemma_expr_flat(*left);
            lemma_and_flat(*right);
            lemma_or_items(*left);
            let li = or_items(*left);
            assert(or_items(e) == li.push(*right));
            assert(or_items(e)[0] == li[0]);
            assert(or_items(e).skip(1) =~= li.skip(1).push(*right));
            lemma_or_tail_push(li.skip(1), *right);
            assert(expr_tokens(e) =~= flat_tokens(*left) + seq![op_token(Op::Or)] + flat_tokens(
                *right,
            ));
        },
        _ => {
            lemma_and_flat(e);
            assert(or_items(e) == seq![e]);
            assert(or_items(e).skip(1) =~= Seq::<ExprV>::empty());
            assert(or_tail_tokens(Seq::<ExprV>::empty()) == Seq::<TokenV>::empty());
            assert(expr_tokens(e) =~= and_tokens(e));
        },
    }
}

/// Every leaf of the tree is lexically valid: identifiers that are no
/// keyword, digit-run numbers, and literals free of the double quote.
pub open spec fn wf_lex_expr(e: ExprV) -> bool
    decreases e,
{
    match e {
        ExprV::BinaryOp { left, op, right } => wf_lex_expr(*left) && wf_lex_expr(*right),
        ExprV::Identifier(s) => is_ident_text(s) && not_keyword(s),
        ExprV::Number(t) => is_number_text(t),
        ExprV::Literal(s) => clean_literal(s),
    }
}

/// One definitional step of the token stream.
proof fn lemma_tokens_step(s: Seq<char>, p: int, t: TokenV, p2: int)
    requires
        0 <= p <= s.len(),
        crate::lexer::sp_next(s, p) == Some((t, p2)),
        0 <= p2 <= s.len(),
    ensures
        crate::lexer::sp_tokens(s, p) == seq![t] + crate::lexer::sp_tokens(s, p2),
{
}

/// The token stream ends at the end of the text.
proof fn lemma_tokens_end(s: Seq<char>)
    ensures
        crate::lexer::sp_tokens(s, s.len() as int) == Seq::<TokenV>::empty(),
{
    assert(crate::lexer::skip_ws(s, s.len() as int) == s.len() as int);
    assert(crate::lexer::sp_tokens(s, s.len() as int) =~= Seq::<TokenV>::empty());
}

/// The next token at a rendered leaf is the leaf's token.
proof fn lemma_tok_leaf(e: ExprV, s: Seq<char>, p: int)
    requires
        wf_leaf(e),
        wf_lex_expr(e),
        0 <= p,
        p + sp_render_expr(e).len() <= s.len(),
        s.subrange(p, p + sp_render_expr(e).len() as int) == sp_render_expr(e),
        sep_boundary(s, p + sp_render_expr(e).len() as int),
    ensures
        crate::lexer::sp_next(s, p) == Some((leaf_token(e), p + sp_render_expr(e).len() as int)),
{
    let w = sp_render_expr(e);
    match e {
        ExprV::Identifier(name) => {
            lemma_next_word(s, p, name);
        },
        ExprV::Number(t) => {
            lemma_next_number(s, p, t);
        },
        ExprV::Literal(lit) => {
            assert(w == seq!['"'] + lit + seq!['"']);
            assert(s[p] == s.subrange(p, p + w.len() as int)[0]);
            assert(w.subrange(1, 1 + lit.len() as int) =~= lit);
            lemma_nested_segment(s, p, w, 1, lit);
            assert(s[p + 1 + lit.len() as int] == s.subrange(p, p + w.len() as int)[1
                + lit.len() as int]);
            lemma_next_literal(s, p, lit);
        },
        _ => {
            assert(false);
        },
    }
}

/// Tokenizing a rendered expression yields its in-order tokens and goes on
/// past it.
proof fn lemma_tok_expr(e: ExprV, s: Seq<char>, p: int)
    requires
        wf_lex_expr(e),
        0 <= p,
        p + sp_render_expr(e).len() <= s.len(),
        s.subrange(p, p + sp_render_expr(e).len() as int) == sp_render_expr(e),
        sep_boundary(s, p + sp_render_expr(e).len() as int),
    ensures
        crate::lexer::sp_tokens(s, p) == flat_tokens(e) + crate::lexer::sp_tokens(
            s,
            p + sp_render_expr(e).len() as int,
        ),
    decreases e,
{
    let w = sp_render_expr(e);
    let fin = p + w.len() as int;
    match e {
        ExprV::BinaryOp { left, op, right } => {
            let rl = sp_render_expr(*left);
            let ot = sp_op_text(op);
            let rr = sp_render_expr(*right);
            assert(w == rl + seq![' '] + ot + seq![' '] + rr);
            let q1 = p + rl.len() as int;
            let q2 = q1 + 1;
            let q3 = q2 + ot.len() as int;
            let q4 = q3 + 1;
            assert(w.subrange(0, rl.len() as int) =~= rl);
            lemma_nested_segment(s, p, w, 0, rl);
            assert(s[q1] == s.subrange(p, fin)[rl.len() as int]);
            assert(s[q1] == ' ');
            assert(w.subrange(rl.len() as int + 1, rl.len() as int + 1 + ot.len() as int) =~= ot);
            lemma_nested_segment(s, p, w, rl.len() as int + 1, ot);
            assert(s[q3] == s.subrange(p, fin)[rl.len() as int + 1 + ot.len() as int]);
            assert(s[q3] == ' ');
            assert(w.subrange(rl.len() as int + 2 + ot.len() as int, w.len() as int) =~= rr);
            lemma_nested_segment(s, p, w, rl.len() as int + 2 + ot.len() as int, rr);
            // left operand, then the separating space
            lemma_tok_expr(*left, s, p);
            lemma_tokens_skip_space(s, q1);
            // the operator: a keyword for AND and OR, a symbol otherwise
            if op == Op::And || op == Op::Or {
                assert(is_ident_text(ot));
                assert(crate::lexer::keyword_of(ot) == op_token(op));
                lemma_next_word(s, q2, ot);
            } else {
                lemma_next_op(s, q2, op);
            }
            lemma_tokens_step(s, q2, op_token(op), q3);
            lemma_tokens_skip_space(s, q3);
            // right operand
            lemma_tok_expr(*right, s, q4);
            assert(crate::lexer::sp_tokens(s, p) =~= flat_tokens(e) + crate::lexer::sp_tokens(
                s,
                fin,
            ));
        },
        _ => {
            lemma_tok_leaf(e, s, p);
            lemma_tokens_step(s, p, leaf_token(e), fin);
        },
    }
}

/// A column is the star sentinel or a lexically valid, non-keyword name.
pub open spec fn wf_lex_col(c: Seq<char>) -> bool {
    c == seq!['*'] || (is_ident_text(c) && not_keyword(c))
}

/// The joined column list, read from the front.
proof fn lemma_join_head(cols: Seq<Seq<char>>)
    requires
        cols.len() >= 2,
    ensures
        crate::ir::sp_join_cols(cols) == cols[0] + seq![',', ' '] + crate::ir::sp_join_cols(
            cols.skip(1),
        ),
    decreases cols.len(),
{
    if cols.len() == 2 {
        assert(cols.drop_last() =~= seq![cols[0]]);
        assert(crate::ir::sp_join_cols(seq![cols[0]]) == cols[0]);
        assert(cols.skip(1) =~= seq![cols[1]]);
        assert(crate::ir::sp_join_cols(seq![cols[1]]) == cols[1]);
    } else {
        let d = cols.drop_last();
        lemma_join_head(d);
        assert(d[0] == cols[0]);
        assert(d.skip(1) =~= cols.skip(1).drop_last());
        assert(cols.skip(1).len() >= 2);
        assert(cols.skip(1).last() == cols.last());
        assert(crate::ir::sp_join_cols(cols.skip(1)) == crate::ir::sp_join_cols(
            cols.skip(1).drop_last(),
        ) + seq![',', ' '] + cols.skip(1).last());
        assert(crate::ir::sp_join_cols(cols) =~= cols[0] + seq![',', ' ']
            + crate::ir::sp_join_cols(cols.skip(1)));
    }
}

/// Tokenizing a rendered column list yields its tokens and goes on past
/// it.
proof fn lemma_tok_cols(cols: Seq<Seq<char>>, s: Seq<char>, p: int)
    requires
        cols.len() >= 1,
        forall|i: int| 0 <= i < cols.len() ==> wf_lex_col(#[trigger] cols[i]),
        0 <= p,
        p + crate::ir::sp_join_cols(cols).len() <= s.len(),
        s.subrange(p, p + crate::ir::sp_join_cols(cols).len() as int) == crate::ir::sp_join_cols(
            cols,
        ),
        p + crate::ir::sp_join_cols(cols).len() == s.len() || s[p + crate::ir::sp_join_cols(
            cols,
        ).len() as int] == ' ',
    ensures
        crate::lexer::sp_tokens(s, p) == cols_tokens(cols) + crate::lexer::sp_tokens(
            s,
            p + crate::ir::sp_join_cols(cols).len() as int,
        ),
    decreases cols.len(),
{
    let w = crate::ir::sp_join_cols(cols);
    let fin = p + w.len() as int;
    if cols.len() == 1 {
        assert(w == cols[0]);
        lemma_tok_one_col(cols[0], s, p);
        lemma_tokens_step(s, p, col_token(cols[0]), fin);
        assert(cols_tokens(cols) == seq![col_token(cols[0])]);
        assert(crate::lexer::sp_tokens(s, p) =~= cols_tokens(cols) + crate::lexer::sp_tokens(
            s,
            fin,
        ));
    } else {
        lemma_join_head(cols);
        let c0 = cols[0];
        let rest = crate::ir::sp_join_cols(cols.skip(1));
        assert(w == c0 + seq![',', ' '] + rest);
        let q1 = p + c0.len() as int;
        let q2 = q1 + 1;
        let q3 = q2 + 1;
        assert(w.subrange(0, c0.len() as int) =~= c0);
        lemma_nested_segment(s, p, w, 0, c0);
        assert(s[q1] == s.subrange(p, fin)[c0.len() as int]);
        assert(s[q1] == ',');
        assert(s[q2] == s.subrange(p, fin)[c0.len() as int + 1]);
        assert(s[q2] == ' ');
        assert(w.subrange(c0.len() as int + 2, w.len() as int) =~= rest);
        lemma_nested_segment(s, p, w, c0.len() as int + 2, rest);
        lemma_tok_one_col(c0, s, p);
        lemma_tokens_step(s, p, col_token(c0), q1);
        // the comma token
        assert(!crate::lexer::is_space(s[q1]));
        assert(!crate::lexer::is_ident_start(s[q1]));
        assert(!is_digit(s[q1]));
        assert(crate::lexer::skip_ws(s, q1) == q1);
        assert(crate::lexer::sp_next(s, q1) == Some((TokenV::Comma, q2)));
        lemma_tokens_step(s, q1, TokenV::Comma, q2);
        lemma_tokens_skip_space(s, q2);
        lemma_tok_cols(cols.skip(1), s, q3);
        assert(cols_tokens(cols) == seq![col_token(c0)] + seq![TokenV::Comma] + cols_tokens(
            cols.skip(1),
        ));
        assert(crate::lexer::sp_tokens(s, p) =~= cols_tokens(cols) + crate::lexer::sp_tokens(
            s,
            fin,
        ));
    }
}

/// The next token at one rendered column.
proof fn lemma_tok_one_col(c: Seq<char>, s: Seq<char>, p: int)
    requires
        wf_lex_col(c),
        0 <= p,
        p + c.len() <= s.len(),
        s.subrange(p, p + c.len() as int) == c,
        sep_boundary(s, p + c.len() as int),
    ensures
        crate::lexer::sp_next(s, p) == Some((col_token(c), p + c.len() as int)),
{
    if c == seq!['*'] {
        assert(s[p] == s.subrange(p, p + 1)[0]);
        assert(s[p] == '*');
        assert(!crate::lexer::is_space(s[p]));
        assert(!crate::lexer::is_ident_start(s[p]));
        assert(!is_digit(s[p]));
        assert(crate::lexer::skip_ws(s, p) == p);
        assert(crate::lexer::sp_next(s, p) == Some((TokenV::Star, p + 1)));
    } else {
        lemma_next_word(s, p, c);
    }
}

/// Every name a statement renders is lexically sound: columns and table
/// are identifiers (or the star sentinel) and no keyword, and the WHERE
/// leaves are valid.
pub open spec fn wf_lex_statement(st: StatementV) -> bool {
    &&& forall|i: int| 0 <= i < st.columns.len() ==> wf_lex_col(#[trigger] st.columns[i])
    &&& is_ident_text(st.table)
    &&& not_keyword(st.table)
    &&& match st.where_clause {
        Some(e) => wf_lex_expr(e),
        None => true,
    }
}

/// Tokenizing the canonical rendering of a statement yields exactly its
/// canonical token sequence.
#[verifier::rlimit(80)]
pub proof fn lemma_tokenize_render(st: StatementV)
    requires
        wf_statement(st),
        wf_lex_statement(st),
    ensures
        crate::lexer::sp_tokens(crate::ir::sp_render_statement(st), 0) == stmt_tokens(st),
{
    reveal_strlit("SELECT ");
    reveal_strlit(" FROM ");
    reveal_strlit(" WHERE ");
    reveal_strlit(" LIMIT ");
    let s = crate::ir::sp_render_statement(st);
    let join = crate::ir::sp_join_cols(st.columns);
    let jl = join.len() as int;
    let table = st.table;
    let tl = table.len() as int;
    let wpart: Seq<char> = match st.where_clause {
        Some(e) => " WHERE "@ + sp_render_expr(e),
        None => Seq::empty(),
    };
    let lpart: Seq<char> = match st.limit {
        Some(k) => " LIMIT "@ + sp_digits(k),
        None => Seq::empty(),
    };
    if st.limit is Some {
        let k = match st.limit {
            Some(k) => k,
            None => 0,
        };
        assert((if k < 0 {
            0int
        } else {
            k
        }) == k);
    }
    assert("SELECT "@ =~= seq!['S', 'E', 'L', 'E', 'C', 'T', ' ']);
    assert(" FROM "@ =~= seq![' ', 'F', 'R', 'O', 'M', ' ']);
    assert(s == "SELECT "@ + join + " FROM "@ + table + wpart + lpart);
    let sel6 = seq!['S', 'E', 'L', 'E', 'C', 'T'];
    let from4 = seq!['F', 'R', 'O', 'M'];
    // SELECT
    assert(s.subrange(0, 6) =~= sel6);
    assert(s[6] == ' ');
    assert(is_ident_text(sel6));
    assert(crate::lexer::keyword_of(sel6) == TokenV::Select);
    lemma_next_word(s, 0, sel6);
    lemma_tokens_step(s, 0, TokenV::Select, 6);
    lemma_tokens_skip_space(s, 6);
    // the column list
    assert(s.subrange(7, 7 + jl) =~= join);
    assert(s[7 + jl] == ' ');
    lemma_tok_cols(st.columns, s, 7);
    lemma_tokens_skip_space(s, 7 + jl);
    // FROM
    assert(s.subrange(8 + jl, 12 + jl) =~= from4);
    assert(s[12 + jl] == ' ');
    assert(is_ident_text(from4));
    assert(crate::lexer::keyword_of(from4) == TokenV::From);
    lemma_next_word(s, 8 + jl, from4);
    lemma_tokens_step(s, 8 + jl, TokenV::From, 12 + jl);
    lemma_tokens_skip_space(s, 12 + jl);
    // the table name
    let pt = 13 + jl;
    assert(s.subrange(pt, pt + tl) =~= table);
    assert(sep_boundary(s, pt + tl)) by {
        if wpart.len() > 0 {
            assert(s[pt + tl] == wpart[0]);
            assert(" WHERE "@[0] == ' ');
        } else if lpart.len() > 0 {
            assert(s[pt + tl] == lpart[0]);
            assert(" LIMIT "@[0] == ' ');
        }
    }
    assert(crate::lexer::keyword_of(table) == TokenV::Identifier(table));
    lemma_next_word(s, pt, table);
    lemma_tokens_step(s, pt, TokenV::Identifier(table), pt + tl);
    // the WHERE clause, when present
    let qw = pt + tl;
    let ql = qw + wpart.len() as int;
    match st.where_clause {
        Some(e) => {
            let wh5 = seq!['W', 'H', 'E', 'R', 'E'];
            assert(" WHERE "@ =~= seq![' ', 'W', 'H', 'E', 'R', 'E', ' ']);
            assert(s[qw] == ' ');
            lemma_tokens_skip_space(s, qw);
            assert(s.subrange(qw + 1, qw + 6) =~= wh5);
            assert(s[qw + 6] == ' ');
            assert(is_ident_text(wh5));
            assert(crate::lexer::keyword_of(wh5) == TokenV::Where);
            lemma_next_word(s, qw + 1, wh5);
            lemma_tokens_step(s, qw + 1, TokenV::Where, qw + 6);
            lemma_tokens_skip_space(s, qw + 6);
            let re = sp_render_expr(e);
            assert(s.subrange(qw + 7, qw + 7 + re.len() as int) =~= re);
            assert(sep_boundary(s, ql)) by {
                if lpart.len() > 0 {
                    assert(s[ql] == lpart[0]);
                    assert(" LIMIT "@[0] == ' ');
                }
            }
            lemma_tok_expr(e, s, qw + 7);
            lemma_expr_flat(e);
        },
        None => {
            assert(wpart.len() == 0);
        },
    }
    // the LIMIT clause, when present
    match st.limit {
        Some(k) => {
            let li5 = seq!['L', 'I', 'M', 'I', 'T'];
            assert(" LIMIT "@ =~= seq![' ', 'L', 'I', 'M', 'I', 'T', ' ']);
            assert(s[ql] == ' ');
            lemma_tokens_skip_space(s, ql);
            assert(s.subrange(ql + 1, ql + 6) =~= li5);
            assert(s[ql + 6] == ' ');
            assert(is_ident_text(li5));
            assert(crate::lexer::keyword_of(li5) == TokenV::Limit);
            lemma_next_word(s, ql + 1, li5);
            lemma_tokens_step(s, ql + 1, TokenV::Limit, ql + 6);
            lemma_tokens_skip_space(s, ql + 6);
            let d = sp_digits(k);
            lemma_digits_value(k);
            assert(forall|i: int| 0 <= i < d.len() ==> crate::lexer::is_number_char(#[trigger] d[i]));
            assert(is_number_text(d));
            assert(s.subrange(ql + 7, ql + 7 + d.len() as int) =~= d);
            assert(ql + 7 + d.len() as int == s.len() as int);
            lemma_next_number(s, ql + 7, d);
            lemma_tokens_step(s, ql + 7, TokenV::Number(d), s.len() as int);
            lemma_tokens_end(s);
        },
        None => {
            assert(lpart.len() == 0);
            assert(ql == s.len() as int);
            lemma_tokens_end(s);
        },
    }
    assert(crate::lexer::sp_tokens(s, 0) =~= stmt_tokens(st));
}

/// Round trip: tokenizing and then parsing the canonical rendering of a
/// grammar-shaped, lexically valid statement reproduces the statement
/// exactly.
pub proof fn lemma_render_round_trip(st: StatementV)
    requires
        wf_statement(st),
        wf_lex_statement(st),
    ensures
        crate::parser::sp_select(
            crate::lexer::sp_tokens(crate::ir::sp_render_statement(st), 0),
        ) == Ok::<StatementV, ParseError>(st),
{
    lemma_tokenize_render(st);
    lemma_parse_round_trip(st);
}

} // verus!
