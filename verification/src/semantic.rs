//! The semantic validator: before any row is scanned, a parsed statement
//! is checked against the target file — the file must be readable, and
//! every column named in the projection or the WHERE clause must be a
//! header column.  `LIMIT 0` draws a warning, never an error.

use vstd::prelude::*;

verus! {

use crate::ast::Expr;
use crate::ast::ExprV;
use crate::ast::Statement;
use crate::ast::StatementV;
use crate::columns::find_col;
use crate::columns::has_col;
use crate::rows::csv_records;
use crate::rows::decode_csv;
use crate::rows::header_of;
use vstd::string::StringExecFns;

/// One semantic error.
#[derive(Debug)]
pub enum SemanticError {
    /// The table file does not exist or could not be read.
    FileNotFound(String),
    /// The file's bytes do not decode as CSV.
    Unreadable,
    /// A projected column is not in the file header.
    UnknownColumn(String),
    /// A column named in the WHERE clause is not in the file header.
    UnknownWhereColumn(String),
}

/// The mathematical shape of a semantic error.
pub enum SemanticErrorV {
    FileNotFound(Seq<char>),
    Unreadable,
    UnknownColumn(Seq<char>),
    UnknownWhereColumn(Seq<char>),
}

impl View for SemanticError {
    type V = SemanticErrorV;

    open spec fn view(&self) -> SemanticErrorV {
        match self {
            SemanticError::FileNotFound(t) => SemanticErrorV::FileNotFound(t@),
            SemanticError::Unreadable => SemanticErrorV::Unreadable,
            SemanticError::UnknownColumn(c) => SemanticErrorV::UnknownColumn(c@),
            SemanticError::UnknownWhereColumn(c) => SemanticErrorV::UnknownWhereColumn(c@),
        }
    }
}

impl DeepView for SemanticError {
    type V = SemanticErrorV;

    open spec fn deep_view(&self) -> SemanticErrorV {
        self.view()
    }
}

/// An advisory warning; it never blocks execution.
#[derive(Clone, Copy, Debug, PartialEq, Eq, Structural)]
pub enum Warning {
    /// `LIMIT 0` deterministically yields zero rows.
    LimitZero,
}

/// What the validator found: `valid` holds exactly when `errors` is empty.
#[derive(Debug)]
pub struct SemanticResult {
    pub valid: bool,
    pub errors: Vec<SemanticError>,
    pub warnings: Vec<Warning>,
}

/// The errors of the projection list: one per named column absent from the
/// header, in projection order; `*` is never checked.
pub open spec fn sp_missing_cols(cols: Seq<Seq<char>>, header: Seq<Seq<char>>) -> Seq<
    SemanticErrorV,
>
    decreases cols.len(),
{
    if cols.len() == 0 {
        Seq::empty()
    } else {
        let last = cols.last();
        sp_missing_cols(cols.drop_last(), header) + if last == seq!['*'] || has_col(
            header,
            last,
        ) {
            Seq::empty()
        } else {
            seq![SemanticErrorV::UnknownColumn(last)]
        }
    }
}

/// The errors of a WHERE expression: one per identifier leaf absent from
/// the header, in left-to-right order; literal and number leaves are never
/// checked.
pub open spec fn sp_expr_errors(e: ExprV, header: Seq<Seq<char>>) -> Seq<SemanticErrorV>
    decreases e,
{
    match e {
        ExprV::Identifier(n) => if has_col(header, n) {
            Seq::empty()
        } else {
            seq![SemanticErrorV::UnknownWhereColumn(n)]
        },
        ExprV::BinaryOp { left, op, right } => sp_expr_errors(*left, header) + sp_expr_errors(
            *right,
            header,
        ),
        _ => Seq::empty(),
    }
}

/// All errors of a statement against the file: a missing file or an
/// undecodable file ends validation at once; otherwise the projection's
/// errors come first, then the WHERE clause's.
pub open spec fn sp_analyze_errors(stmt: StatementV, data: Option<Seq<u8>>) -> Seq<
    SemanticErrorV,
> {
    match data {
        None => seq![SemanticErrorV::FileNotFound(stmt.table)],
        Some(d) => match csv_records(d) {
            None => seq![SemanticErrorV::Unreadable],
            Some(recs) => sp_missing_cols(stmt.columns, header_of(recs)) + (
            match stmt.where_clause {
                Some(e) => sp_expr_errors(e, header_of(recs)),
                None => Seq::empty(),
            }),
        },
    }
}

/// All warnings of a statement against the file: only `LIMIT 0`, and only
/// once the file was read.
pub open spec fn sp_analyze_warnings(stmt: StatementV, data: Option<Seq<u8>>) -> Seq<Warning> {
    match data {
        None => Seq::empty(),
        Some(d) => match csv_records(d) {
            None => Seq::empty(),
            Some(_) => if stmt.limit == Some(0int) {
                seq![Warning::LimitZero]
            } else {
                Seq::empty()
            },
        },
    }
}

/// The view of the bytes handed to the validator, when the file exists.
pub open spec fn bytes_view(data: Option<&[u8]>) -> Option<Seq<u8>> {
    match data {
        Some(d) => Some(d@),
        None => None,
    }
}

/// Validates a statement against the table file's bytes (`None` when the
/// file does not exist): all errors and warnings of the statement, and a
/// `valid` flag that holds exactly when there is no error.
pub fn analyze(query: &Statement, data: Option<&[u8]>) -> (r: SemanticResult)
    ensures
        r.errors.deep_view() == sp_analyze_errors(query@, bytes_view(data)),
        r.warnings@ == sp_analyze_warnings(query@, bytes_view(data)),
        r.valid == (sp_analyze_errors(query@, bytes_view(data)).len() == 0),
{
    let Statement::Select { columns, table, where_clause, limit } = query;
    let mut errors: Vec<SemanticError> = Vec::new();
    let mut warnings: Vec<Warning> = Vec::new();
    let bytes = match data {
        Some(d) => d,
        None => {
            errors.push(SemanticError::FileNotFound(table.clone()));
            proof {
                assert(errors.deep_view() =~= sp_analyze_errors(query@, bytes_view(data)));
            }
            return SemanticResult { valid: false, errors, warnings };
        },
    };
    let recs = match decode_csv(bytes) {
        Ok(recs) => recs,
        Err(_) => {
            errors.push(SemanticError::Unreadable);
            proof {
                assert(errors.deep_view() =~= sp_analyze_errors(query@, bytes_view(data)));
            }
            return SemanticResult { valid: false, errors, warnings };
        },
    };
    let empty_header: Vec<String> = Vec::new();
    let header: &Vec<String> = if recs.len() > 0 {
        &recs[0]
    } else {
        &empty_header
    };
    let ghost hdr = header_of(recs.deep_view());
    proof {
        if recs.len() > 0 {
            assert(recs.deep_view()[0] == recs@[0].deep_view());
        }
        assert(header.deep_view() =~= hdr);
    }
    let star = String::from_str("*");
    proof {
        reveal_strlit("*");
        assert(star@ =~= seq!['*']);
    }
    let ghost cols = query@.columns;
    let n = columns.len();
    proof {
        assert(cols.len() == columns@.len());
    }
    let mut i: usize = 0;
    while i < n
        invariant
            0 <= i <= n,
            n == columns@.len(),
            cols == columns.deep_view(),
            cols.len() == n,
            star@ == seq!['*'],
            hdr == header.deep_view(),
            errors.deep_view() == sp_missing_cols(cols.take(i as int), hdr),
        decreases n - i,
    {
        proof {
            assert(cols.take(i + 1).drop_last() =~= cols.take(i as int));
            assert(cols.take(i + 1).last() == cols[i as int]);
            assert(columns@[i as int]@ == cols[i as int]);
        }
        let is_star = columns[i].eq(&star);
        if !is_star {
            match find_col(header, &columns[i]) {
                Some(_) => {
                    proof {
                        assert(errors.deep_view() =~= sp_missing_cols(cols.take(i + 1), hdr));
                    }
                },
                None => {
                    let ghost before = errors.deep_view();
                    errors.push(SemanticError::UnknownColumn(columns[i].clone()));
                    proof {
                        assert(errors.deep_view() =~= before + seq![
                            SemanticErrorV::UnknownColumn(cols[i as int]),
                        ]);
                        assert(errors.deep_view() =~= sp_missing_cols(cols.take(i + 1), hdr));
                    }
                },
            }
        } else {
            proof {
                assert(errors.deep_view() =~= sp_missing_cols(cols.take(i + 1), hdr));
            }
        }
        i = i + 1;
    }
    proof {
        assert(cols.take(n as int) =~= cols);
    }
    if let Some(expr) = where_clause {
        validate_expr_columns(expr, header, &mut errors);
    }
    if let Some(limit_rows) = limit {
        if *limit_rows == 0 {
            warnings.push(Warning::LimitZero);
        }
    }
    proof {
        assert(errors.deep_view() =~= sp_analyze_errors(query@, bytes_view(data)));
        assert(warnings@ =~= sp_analyze_warnings(query@, bytes_view(data)));
        assert(errors.len() == errors.deep_view().len());
    }
    let valid = errors.len() == 0;
    SemanticResult { valid, errors, warnings }
}

/// Walks a WHERE expression and appends one error per identifier leaf that
/// is not a header column.
fn validate_expr_columns(expr: &Expr, header: &Vec<String>, errors: &mut Vec<SemanticError>)
    ensures
        final(errors).deep_view() == old(errors).deep_view() + sp_expr_errors(
            expr@,
            header.deep_view(),
        ),
    decreases *expr,
{
    match expr {
        Expr::Identifier(name) => {
            match find_col(header, name) {
                Some(_) => {
                    proof {
                        assert(errors.deep_view() =~= old(errors).deep_view() + sp_expr_errors(
                            expr@,
                            header.deep_view(),
                        ));
                    }
                },
                None => {
                    let ghost before = errors.deep_view();
                    errors.push(SemanticError::UnknownWhereColumn(name.clone()));
                    proof {
                        assert(errors.deep_view() =~= before + seq![
                            SemanticErrorV::UnknownWhereColumn(name@),
                        ]);
                    }
                },
            }
        },
        Expr::BinaryOp { left, op, right } => {
            validate_expr_columns(left, header, errors);
            validate_expr_columns(right, header, errors);
            proof {
                assert(errors.deep_view() =~= old(errors).deep_view() + sp_expr_errors(
                    expr@,
                    header.deep_view(),
                ));
            }
        },
        _ => {
            proof {
                assert(errors.deep_view() =~= old(errors).deep_view() + sp_expr_errors(
                    expr@,
                    header.deep_view(),
                ));
            }
        },
    }
}

impl SemanticError {
    /// A human-readable message naming the offending item.
    pub fn message(&self) -> (r: String)
        ensures
            r@ == sem_error_text(self@),
    {
        match self {
            SemanticError::FileNotFound(t) => String::from_str("file '").concat(
                t.as_str(),
            ).concat("' was not found"),
            SemanticError::Unreadable => String::from_str("the file could not be decoded as CSV"),
            SemanticError::UnknownColumn(c) => String::from_str("column '").concat(
                c.as_str(),
            ).concat("' is not in the file header"),
            SemanticError::UnknownWhereColumn(c) => String::from_str("column '").concat(
                c.as_str(),
            ).concat("' in the WHERE clause is not in the file header"),
        }
    }
}

/// The message text of each semantic error.
pub open spec fn sem_error_text(e: SemanticErrorV) -> Seq<char> {
    match e {
        SemanticErrorV::FileNotFound(t) => "file '"@ + t + "' was not found"@,
        SemanticErrorV::Unreadable => "the file could not be decoded as CSV"@,
        SemanticErrorV::UnknownColumn(c) => "column '"@ + c + "' is not in the file header"@,
        SemanticErrorV::UnknownWhereColumn(c) => "column '"@ + c
            + "' in the WHERE clause is not in the file header"@,
    }
}

impl Warning {
    /// A human-readable message.
    pub fn message(&self) -> (r: String)
        ensures
            r@ == warning_text(*self),
    {
        match self {
            Warning::LimitZero => String::from_str("LIMIT 0 always returns zero rows"),
        }
    }
}

/// The message text of each warning.
pub open spec fn warning_text(w: Warning) -> Seq<char> {
    match w {
        Warning::LimitZero => "LIMIT 0 always returns zero rows"@,
    }
}

} // verus!
