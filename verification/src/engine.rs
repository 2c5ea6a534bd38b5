//! The executor: a validated statement against a file's bytes — decode,
//! scan row by row, filter on the WHERE predicate, project the chosen
//! columns, stop at the LIMIT, and return the output header names with the
//! matching rows.

use vstd::prelude::*;

verus! {

use crate::ast::Expr;
use crate::ast::ExprV;
use crate::ast::Op;
use crate::ast::Statement;
use crate::ast::StatementV;
use crate::columns::col_idx;
use crate::columns::find_col;
use crate::num::dec_val;
use crate::num::dec_valid;
use crate::num::parse_number;
use crate::rows::csv_records;
use crate::rows::data_rows_of;
use crate::rows::decode_csv;
use crate::rows::header_of;
use crate::semantic::sp_analyze_warnings;
use crate::semantic::Warning;
use vstd::math::min;
use vstd::string::StringExecFns;

/// A failure while executing a validated statement.
#[derive(Debug)]
pub enum ExecError {
    /// The file's bytes do not decode as CSV; carries the decoder's
    /// message.
    Unreadable(String),
}

impl ExecError {
    /// The decoder's message.
    pub fn message(&self) -> (r: String)
        ensures
            self matches ExecError::Unreadable(m) ==> r@ == m@,
    {
        match self {
            ExecError::Unreadable(m) => m.clone(),
        }
    }
}

/// What an operand contributes to a string comparison: a string literal's
/// text, or the raw field text an identifier resolves to; numbers and
/// nested operations have no string value.
pub open spec fn sp_str_value(e: ExprV, header: Seq<Seq<char>>, row: Seq<Seq<char>>) -> Option<
    Seq<char>,
> {
    match e {
        ExprV::Literal(s) => Some(s),
        ExprV::Identifier(n) => {
            let i = col_idx(header, n);
            if 0 <= i < row.len() {
                Some(row[i])
            } else {
                None
            }
        },
        _ => None,
    }
}

/// What an operand contributes to a numeric comparison: the value of a
/// number or string literal's text, or of the field an identifier resolves
/// to; anything unresolvable or unparsable counts as zero.
pub open spec fn sp_num_value(e: ExprV, header: Seq<Seq<char>>, row: Seq<Seq<char>>) -> int {
    match e {
        ExprV::Number(t) => dec_val(t),
        ExprV::Literal(s) => dec_val(s),
        ExprV::Identifier(n) => {
            let i = col_idx(header, n);
            if 0 <= i < row.len() {
                dec_val(row[i])
            } else {
                0
            }
        },
        ExprV::BinaryOp { .. } => 0,
    }
}

/// The WHERE predicate on one row.  `AND`/`OR` combine both operands;
/// equality compares texts when both sides resolve to strings and values
/// otherwise; the ordering operators always compare values.  A leaf alone
/// is no predicate and holds of no row.
pub open spec fn sp_eval(e: ExprV, header: Seq<Seq<char>>, row: Seq<Seq<char>>) -> bool
    decreases e,
{
    match e {
        ExprV::BinaryOp { left, op, right } => {
            let l = *left;
            let r = *right;
            match op {
                Op::And => sp_eval(l, header, row) && sp_eval(r, header, row),
                Op::Or => sp_eval(l, header, row) || sp_eval(r, header, row),
                Op::Equal => match (sp_str_value(l, header, row), sp_str_value(r, header, row)) {
                    (Some(a), Some(b)) => a == b,
                    _ => sp_num_value(l, header, row) == sp_num_value(r, header, row),
                },
                Op::NotEqual => match (
                    sp_str_value(l, header, row),
                    sp_str_value(r, header, row),
                ) {
                    (Some(a), Some(b)) => a != b,
                    _ => sp_num_value(l, header, row) != sp_num_value(r, header, row),
                },
                Op::GreaterThan => sp_num_value(l, header, row) > sp_num_value(r, header, row),
                Op::LessThan => sp_num_value(l, header, row) < sp_num_value(r, header, row),
                Op::GreaterThanOrEq => sp_num_value(l, header, row) >= sp_num_value(
                    r,
                    header,
                    row,
                ),
                Op::LessThanOrEq => sp_num_value(l, header, row) <= sp_num_value(r, header, row),
            }
        },
        _ => false,
    }
}

/// Whether a data row passes the statement's WHERE clause; a statement
/// without one passes every row.
pub open spec fn sp_row_passes(stmt: StatementV, header: Seq<Seq<char>>, row: Seq<Seq<char>>,
) -> bool {
    match stmt.where_clause {
        None => true,
        Some(e) => sp_eval(e, header, row),
    }
}

/// The data rows that pass the WHERE clause, in source order.
pub open spec fn sp_matched_rows(
    stmt: StatementV,
    header: Seq<Seq<char>>,
    rows: Seq<Seq<Seq<char>>>,
) -> Seq<Seq<Seq<char>>> {
    rows.filter(|r: Seq<Seq<char>>| sp_row_passes(stmt, header, r))
}

/// What one projection entry contributes to an output row: every field for
/// `*`, the resolved field for a named column, and nothing for a name that
/// does not resolve.
pub open spec fn sp_project_one(c: Seq<char>, header: Seq<Seq<char>>, row: Seq<Seq<char>>) -> Seq<
    Seq<char>,
> {
    if c == seq!['*'] {
        row
    } else {
        let i = col_idx(header, c);
        if 0 <= i < row.len() {
            seq![row[i]]
        } else {
            Seq::empty()
        }
    }
}

/// One output row: the projection entries' contributions, in order.
pub open spec fn sp_project_row(
    cols: Seq<Seq<char>>,
    header: Seq<Seq<char>>,
    row: Seq<Seq<char>>,
) -> Seq<Seq<char>>
    decreases cols.len(),
{
    if cols.len() == 0 {
        Seq::empty()
    } else {
        sp_project_row(cols.drop_last(), header, row) + sp_project_one(cols.last(), header, row)
    }
}

/// The output header names: the full header row when the projection is
/// exactly the single `*`, and the user's literal column list otherwise.
pub open spec fn sp_output_headers(stmt: StatementV, header: Seq<Seq<char>>) -> Seq<Seq<char>> {
    if stmt.columns.len() == 1 && stmt.columns[0] == seq!['*'] {
        header
    } else {
        stmt.columns
    }
}

/// The returned rows: the matching rows, cut at the LIMIT, each projected.
pub open spec fn sp_result_rows(
    stmt: StatementV,
    header: Seq<Seq<char>>,
    rows: Seq<Seq<Seq<char>>>,
) -> Seq<Seq<Seq<char>>> {
    let m = sp_matched_rows(stmt, header, rows);
    let l = match stmt.limit {
        Some(k) => if k < 0 {
            Seq::empty()
        } else if k < m.len() {
            m.take(k)
        } else {
            m
        },
        None => m,
    };
    l.map_values(|r: Seq<Seq<char>>| sp_project_row(stmt.columns, header, r))
}

/// What one operand contributes to a string comparison.
fn str_value(e: &Expr, header: &Vec<String>, row: &Vec<String>) -> (r: Option<String>)
    ensures
        match r {
            Some(s) => sp_str_value(e@, header.deep_view(), row.deep_view()) == Some(s@),
            None => sp_str_value(e@, header.deep_view(), row.deep_view()) is None,
        },
{
    match e {
        Expr::Literal(s) => Some(s.clone()),
        Expr::Identifier(n) => match find_col(header, n) {
            Some(i) => if i < row.len() {
                proof {
                    assert(row.deep_view()[i as int] == row@[i as int]@);
                }
                Some(row[i].clone())
            } else {
                None
            },
            None => None,
        },
        _ => None,
    }
}

/// What one operand contributes to a numeric comparison.
fn num_value(e: &Expr, header: &Vec<String>, row: &Vec<String>) -> (v: i128)
    ensures
        v == sp_num_value(e@, header.deep_view(), row.deep_view()),
{
    match e {
        Expr::Number(t) => parse_number(t.as_str()),
        Expr::Literal(s) => parse_number(s.as_str()),
        Expr::Identifier(n) => match find_col(header, n) {
            Some(i) => if i < row.len() {
                proof {
                    assert(row.deep_view()[i as int] == row@[i as int]@);
                }
                parse_number(row[i].as_str())
            } else {
                0
            },
            None => 0,
        },
        Expr::BinaryOp { .. } => 0,
    }
}

/// Evaluates the WHERE predicate on one row.
fn eval(expr: &Expr, row: &Vec<String>, header: &Vec<String>) -> (b: bool)
    ensures
        b == sp_eval(expr@, header.deep_view(), row.deep_view()),
    decreases *expr,
{
    match expr {
        Expr::BinaryOp { left, op, right } => match op {
            Op::And => {
                let l = eval(left, row, header);
                let r = eval(right, row, header);
                l && r
            },
            Op::Or => {
                let l = eval(left, row, header);
                let r = eval(right, row, header);
                l || r
            },
            Op::Equal => {
                let ls = str_value(left, header, row);
                let rs = str_value(right, header, row);
                match (ls, rs) {
                    (Some(a), Some(b)) => a.eq(&b),
                    _ => num_value(left, header, row) == num_value(right, header, row),
                }
            },
            Op::NotEqual => {
                let ls = str_value(left, header, row);
                let rs = str_value(right, header, row);
                match (ls, rs) {
                    (Some(a), Some(b)) => !a.eq(&b),
                    _ => num_value(left, header, row) != num_value(right, header, row),
                }
            },
            Op::GreaterThan => num_value(left, header, row) > num_value(right, header, row),
            Op::LessThan => num_value(left, header, row) < num_value(right, header, row),
            Op::GreaterThanOrEq => num_value(left, header, row) >= num_value(right, header, row),
            Op::LessThanOrEq => num_value(left, header, row) <= num_value(right, header, row),
        },
        _ => false,
    }
}

/// Copies a list of field texts.
fn clone_string_vec(v: &Vec<String>) -> (r: Vec<String>)
    ensures
        r.deep_view() == v.deep_view(),
{
    let mut r: Vec<String> = Vec::new();
    let n = v.len();
    let mut i: usize = 0;
    while i < n
        invariant
            0 <= i <= n,
            n == v@.len(),
            r.deep_view() =~= v.deep_view().take(i as int),
        decreases n - i,
    {
        let c = v[i].clone();
        proof {
            assert(v.deep_view().take(i + 1) =~= v.deep_view().take(i as int).push(v@[i as int]@));
            assert(r.deep_view().push(c@) =~= v.deep_view().take(i + 1));
        }
        r.push(c);
        i = i + 1;
    }
    proof {
        assert(v.deep_view().take(n as int) =~= v.deep_view());
    }
    r
}

/// Builds one output row for the statement's projection.
fn project_row(columns: &Vec<String>, header: &Vec<String>, row: &Vec<String>) -> (out: Vec<
    String,
>)
    ensures
        out.deep_view() == sp_project_row(columns.deep_view(), header.deep_view(), row.deep_view()),
{
    let ghost cols = columns.deep_view();
    let ghost hdr = header.deep_view();
    let ghost rw = row.deep_view();
    let star = String::from_str("*");
    proof {
        reveal_strlit("*");
        assert(star@ =~= seq!['*']);
    }
    let mut out: Vec<String> = Vec::new();
    let n = columns.len();
    proof {
        assert(cols.len() == columns@.len());
    }
    let mut i: usize = 0;
    while i < n
        invariant
            0 <= i <= n,
            n == columns@.len(),
            cols == columns.deep_view(),
            hdr == header.deep_view(),
            rw == row.deep_view(),
            star@ == seq!['*'],
            out.deep_view() == sp_project_row(cols.take(i as int), hdr, rw),
        decreases n - i,
    {
        proof {
            assert(cols.take(i + 1).drop_last() =~= cols.take(i as int));
            assert(cols.take(i + 1).last() == cols[i as int]);
            assert(columns@[i as int]@ == cols[i as int]);
        }
        let ghost before = out.deep_view();
        if columns[i].eq(&star) {
            // expand `*` into every field of the raw row, by position
            let m = row.len();
            let mut j: usize = 0;
            while j < m
                invariant
                    0 <= j <= m,
                    m == row@.len(),
                    rw == row.deep_view(),
                    out.deep_view() == before + rw.take(j as int),
                decreases m - j,
            {
                let c = row[j].clone();
                proof {
                    assert(rw.take(j + 1) =~= rw.take(j as int).push(rw[j as int]));
                    assert(rw[j as int] == row@[j as int]@);
                    assert(out.deep_view().push(c@) =~= before + rw.take(j + 1));
                }
                out.push(c);
                j = j + 1;
            }
            proof {
                assert(rw.take(row@.len() as int) =~= rw);
                assert(out.deep_view() =~= sp_project_row(cols.take(i + 1), hdr, rw));
            }
        } else {
            match find_col(header, &columns[i]) {
                Some(k) => {
                    if k < row.len() {
                        let c = row[k].clone();
                        proof {
                            assert(rw[k as int] == row@[k as int]@);
                            assert(out.deep_view().push(c@) =~= sp_project_row(
                                cols.take(i + 1),
                                hdr,
                                rw,
                            ));
                        }
                        out.push(c);
                    } else {
                        proof {
                            assert(out.deep_view() =~= sp_project_row(cols.take(i + 1), hdr, rw));
                        }
                    }
                },
                None => {
                    proof {
                        assert(out.deep_view() =~= sp_project_row(cols.take(i + 1), hdr, rw));
                    }
                },
            }
        }
        i = i + 1;
    }
    proof {
        assert(cols.take(n as int) =~= cols);
    }
    out
}

/// Executes a statement against the table file's bytes: decodes the
/// records, filters the data rows on the WHERE clause, projects the chosen
/// columns, and stops at the LIMIT.  Rows beyond the limit are never
/// evaluated.
#[verifier::rlimit(80)]
pub fn execute(query: &Statement, data: &[u8]) -> (r: Result<
    (Vec<String>, Vec<Vec<String>>),
    ExecError,
>)
    ensures
        match (r, csv_records(data@)) {
            (Ok(hr), Some(recs)) => hr.0.deep_view() == sp_output_headers(query@, header_of(recs))
                && hr.1.deep_view() == sp_result_rows(
                query@,
                header_of(recs),
                data_rows_of(recs),
            ),
            (Err(_), None) => true,
            _ => false,
        },
{
    let Statement::Select { columns, table, where_clause, limit } = query;
    let ghost st = query@;
    let recs = match decode_csv(data) {
        Ok(recs) => recs,
        Err(m) => {
            return Err(ExecError::Unreadable(m));
        },
    };
    let ghost all = recs.deep_view();
    let ghost hdr = header_of(all);
    let ghost rows = data_rows_of(all);
    let empty_header: Vec<String> = Vec::new();
    let header: &Vec<String> = if recs.len() > 0 {
        &recs[0]
    } else {
        &empty_header
    };
    proof {
        if recs.len() > 0 {
            assert(all[0] == recs@[0].deep_view());
        }
        assert(header.deep_view() =~= hdr);
    }
    let star = String::from_str("*");
    proof {
        reveal_strlit("*");
        assert(star@ =~= seq!['*']);
    }
    let out_headers: Vec<String> = if columns.len() == 1 && columns[0].eq(&star) {
        clone_string_vec(header)
    } else {
        clone_string_vec(columns)
    };
    proof {
        assert(st.columns == columns.deep_view());
        assert(out_headers.deep_view() == sp_output_headers(st, hdr));
    }
    let nrec = recs.len();
    let mut out_rows: Vec<Vec<String>> = Vec::new();
    let mut count: usize = 0;
    let mut i: usize = 1;
    let ghost pass = |r: Seq<Seq<char>>| sp_row_passes(st, hdr, r);
    let ghost proj = |r: Seq<Seq<char>>| sp_project_row(st.columns, hdr, r);
    proof {
        if nrec > 0 {
            assert(rows =~= all.skip(1));
        } else {
            assert(rows =~= Seq::<Seq<Seq<char>>>::empty());
        }
        assert(rows.take(0) =~= Seq::<Seq<Seq<char>>>::empty());
        assert(sp_matched_rows(st, hdr, rows.take(0)) =~= Seq::<Seq<Seq<char>>>::empty());
    }
    loop
        invariant_except_break
            1 <= i,
            i - 1 <= rows.len(),
            nrec > 0 ==> i <= nrec,
            count <= i - 1,
            match st.limit {
                Some(k) => count == min(sp_matched_rows(st, hdr, rows.take(i - 1)).len() as int, k),
                None => count == sp_matched_rows(st, hdr, rows.take(i - 1)).len(),
            },
            out_rows.deep_view() == sp_matched_rows(st, hdr, rows.take(i - 1)).take(
                count as int,
            ).map_values(proj),
        invariant
            nrec == recs@.len(),
            all == recs.deep_view(),
            hdr == header.deep_view(),
            rows == data_rows_of(all),
            rows.len() == if nrec > 0 {
                (nrec - 1) as int
            } else {
                0int
            },
            st == query@,
            st.columns == columns.deep_view(),
            st.limit == (match limit {
                Some(k) => Some(*k as int),
                None => None::<int>,
            }),
            st.where_clause == (match where_clause {
                Some(e) => Some(e@),
                None => None::<ExprV>,
            }),
            pass == (|r: Seq<Seq<char>>| sp_row_passes(st, hdr, r)),
            proj == (|r: Seq<Seq<char>>| sp_project_row(st.columns, hdr, r)),
        ensures
            out_rows.deep_view() == sp_result_rows(st, hdr, rows),
        decreases rows.len() + 1 - i,
    {
        let stop = match limit {
            Some(k) => count >= *k,
            None => false,
        };
        if stop {
            proof {
                let m_pre = sp_matched_rows(st, hdr, rows.take(i - 1));
                let m_all = sp_matched_rows(st, hdr, rows);
                match st.limit {
                    Some(k) => {
                        assert(rows =~= rows.take(i - 1) + rows.skip(i - 1));
                        Seq::filter_distributes_over_add(rows.take(i - 1), rows.skip(i - 1), pass);
                        assert(m_all == m_pre + rows.skip(i - 1).filter(pass));
                        assert(count == k);
                        assert(m_pre.len() >= k);
                        assert(m_all.take(k) =~= m_pre.take(k));
                        assert(out_rows.deep_view() == sp_result_rows(st, hdr, rows));
                    },
                    None => {
                        assert(false);
                    },
                }
            }
            break ;
        }
        if i >= nrec {
            proof {
                assert(rows.take(i - 1) =~= rows);
                match st.limit {
                    Some(k) => {
                        let m = sp_matched_rows(st, hdr, rows);
                        assert(count < k);
                        assert(count == m.len());
                        assert(m.take(count as int) =~= m);
                    },
                    None => {
                        let m = sp_matched_rows(st, hdr, rows);
                        assert(m.take(count as int) =~= m);
                    },
                }
            }
            break ;
        }
        let row = &recs[i];
        let ghost rv = rows[i - 1];
        proof {
            assert(all[i as int] == recs@[i as int].deep_view());
            assert(rv == row.deep_view());
            assert(rows.take(i as int) =~= rows.take(i - 1).push(rv));
            rows.take(i - 1).lemma_filter_push(rv, pass);
        }
        let passes = match where_clause {
            Some(e) => eval(e, row, header),
            None => true,
        };
        proof {
            assert(passes == sp_row_passes(st, hdr, rv));
        }
        if passes {
            let out = project_row(columns, header, row);
            let ghost m_pre = sp_matched_rows(st, hdr, rows.take(i - 1));
            let ghost m_new = sp_matched_rows(st, hdr, rows.take(i as int));
            proof {
                assert(m_new == m_pre.push(rv));
                match st.limit {
                    Some(k) => {
                        assert(count < k);
                        assert(count == m_pre.len());
                    },
                    None => {
                        assert(count == m_pre.len());
                    },
                }
                assert(m_pre.take(count as int) =~= m_pre);
                assert(m_new.take(count + 1) =~= m_pre.push(rv));
                assert(m_pre.push(rv).map_values(proj) =~= m_pre.map_values(proj).push(proj(rv)));
                assert(out.deep_view() == proj(rv));
                assert(out_rows.deep_view().push(out.deep_view()) =~= m_new.take(
                    count + 1,
                ).map_values(proj));
            }
            out_rows.push(out);
            count = count + 1;
        } else {
            proof {
                assert(sp_matched_rows(st, hdr, rows.take(i as int)) == sp_matched_rows(
                    st,
                    hdr,
                    rows.take(i - 1),
                ));
            }
        }
        i = i + 1;
    }
    Ok((out_headers, out_rows))
}

/// For a `SELECT * FROM f` statement, the output header list is the
/// file's header row, in original order.
pub proof fn lemma_star_headers(stmt: StatementV, recs: Seq<Seq<Seq<char>>>)
    requires
        stmt.columns == seq![seq!['*']],
    ensures
        sp_output_headers(stmt, header_of(recs)) == header_of(recs),
{
}

/// With `LIMIT n`, the number of returned rows is the lesser of `n` and
/// the number of data rows that satisfy the WHERE clause; without a
/// LIMIT it is the full count.
pub proof fn lemma_limit_count(
    stmt: StatementV,
    header: Seq<Seq<char>>,
    rows: Seq<Seq<Seq<char>>>,
)
    requires
        stmt.limit matches Some(k) ==> k >= 0,
    ensures
        match stmt.limit {
            Some(k) => sp_result_rows(stmt, header, rows).len() == min(
                k,
                sp_matched_rows(stmt, header, rows).len() as int,
            ),
            None => sp_result_rows(stmt, header, rows).len() == sp_matched_rows(
                stmt,
                header,
                rows,
            ).len(),
        },
{
}

/// `LIMIT 0` always yields zero rows, and validation warns about it on
/// every readable file.
pub proof fn lemma_limit_zero(
    stmt: StatementV,
    header: Seq<Seq<char>>,
    rows: Seq<Seq<Seq<char>>>,
    data: Seq<u8>,
)
    requires
        stmt.limit == Some(0int),
        csv_records(data) is Some,
    ensures
        sp_result_rows(stmt, header, rows).len() == 0,
        sp_analyze_warnings(stmt, Some(data)) == seq![Warning::LimitZero],
{
}

/// A row passes `WHERE colA = colB` whenever both columns resolve to the
/// same field text — whatever that text looks like, numeric or not.
pub proof fn lemma_string_equal_included(
    stmt: StatementV,
    header: Seq<Seq<char>>,
    row: Seq<Seq<char>>,
    a: Seq<char>,
    b: Seq<char>,
)
    requires
        stmt.where_clause == Some(
            ExprV::BinaryOp {
                left: Box::new(ExprV::Identifier(a)),
                op: Op::Equal,
                right: Box::new(ExprV::Identifier(b)),
            },
        ),
        0 <= col_idx(header, a) < row.len(),
        0 <= col_idx(header, b) < row.len(),
        row[col_idx(header, a)] == row[col_idx(header, b)],
    ensures
        sp_row_passes(stmt, header, row),
{
}

/// A row passes `WHERE col > k`, for a number literal `k`, exactly when
/// the numeric value of its field exceeds the literal's value; a field
/// that fails to parse — or is absent from a short record — counts as
/// zero.
pub proof fn lemma_numeric_greater(
    stmt: StatementV,
    header: Seq<Seq<char>>,
    row: Seq<Seq<char>>,
    col: Seq<char>,
    k: Seq<char>,
)
    requires
        stmt.where_clause == Some(
            ExprV::BinaryOp {
                left: Box::new(ExprV::Identifier(col)),
                op: Op::GreaterThan,
                right: Box::new(ExprV::Number(k)),
            },
        ),
        0 <= col_idx(header, col),
    ensures
        sp_row_passes(stmt, header, row) == (if col_idx(header, col) < row.len() {
            dec_val(row[col_idx(header, col)])
        } else {
            0
        } > dec_val(k)),
        col_idx(header, col) < row.len() && !dec_valid(row[col_idx(header, col)]) ==> (
        sp_row_passes(stmt, header, row) == (0 > dec_val(k))),
{
}

/// The result of a query is a function of the statement and the file's
/// bytes alone: two executions of the same statement against the same
/// bytes yield the same headers and the same rows.
pub proof fn lemma_execute_deterministic(
    stmt: StatementV,
    data: Seq<u8>,
    recs: Seq<Seq<Seq<char>>>,
    h1: Seq<Seq<char>>,
    r1: Seq<Seq<Seq<char>>>,
    h2: Seq<Seq<char>>,
    r2: Seq<Seq<Seq<char>>>,
)
    requires
        csv_records(data) == Some(recs),
        h1 == sp_output_headers(stmt, header_of(recs)),
        r1 == sp_result_rows(stmt, header_of(recs), data_rows_of(recs)),
        h2 == sp_output_headers(stmt, header_of(recs)),
        r2 == sp_result_rows(stmt, header_of(recs), data_rows_of(recs)),
    ensures
        h1 == h2,
        r1 == r2,
{
}

} // verus!
