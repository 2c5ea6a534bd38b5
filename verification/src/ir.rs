//! The query plan: a statement lowered, in straight line, to the steps the
//! executor performs — scan, filter, project, limit.  The plan is for
//! display and inspection; the executor works from the statement itself.

use vstd::prelude::*;

verus! {

use crate::ast::Expr;
use crate::ast::ExprV;
use crate::ast::Op;
use crate::ast::Statement;
use crate::ast::StatementV;
use vstd::string::StringExecFns;

/// One step of a query plan.
#[derive(Debug)]
pub enum PlanStep {
    /// Read the table file.
    Scan { table: String },
    /// Keep the rows that pass the WHERE clause.
    Filter { condition: String },
    /// Choose the output columns.
    Project { columns: Vec<String> },
    /// Cut the result at the LIMIT.
    Limit { count: usize },
}

/// The mathematical shape of a plan step.
pub enum PlanStepV {
    Scan { table: Seq<char> },
    Filter { condition: Seq<char> },
    Project { columns: Seq<Seq<char>> },
    Limit { count: int },
}

impl View for PlanStep {
    type V = PlanStepV;

    open spec fn view(&self) -> PlanStepV {
        match self {
            PlanStep::Scan { table } => PlanStepV::Scan { table: table@ },
            PlanStep::Filter { condition } => PlanStepV::Filter { condition: condition@ },
            PlanStep::Project { columns } => PlanStepV::Project { columns: columns.deep_view() },
            PlanStep::Limit { count } => PlanStepV::Limit { count: *count as int },
        }
    }
}

impl DeepView for PlanStep {
    type V = PlanStepV;

    open spec fn deep_view(&self) -> PlanStepV {
        self.view()
    }
}

/// The steps of one query, in execution order.
#[derive(Debug)]
pub struct QueryPlan {
    pub steps: Vec<PlanStep>,
}

impl View for QueryPlan {
    type V = Seq<PlanStepV>;

    open spec fn view(&self) -> Seq<PlanStepV> {
        self.steps.deep_view()
    }
}

/// The rendering of an operator.
pub open spec fn sp_op_text(op: Op) -> Seq<char> {
    match op {
        Op::Equal => seq!['='],
        Op::NotEqual => seq!['!', '='],
        Op::GreaterThan => seq!['>'],
        Op::LessThan => seq!['<'],
        Op::GreaterThanOrEq => seq!['>', '='],
        Op::LessThanOrEq => seq!['<', '='],
        Op::And => seq!['A', 'N', 'D'],
        Op::Or => seq!['O', 'R'],
    }
}

/// The rendering of an expression: leaves as their text — string literals
/// re-quoted — and operations space-separated, without parentheses.
pub open spec fn sp_render_expr(e: ExprV) -> Seq<char>
    decreases e,
{
    match e {
        ExprV::Number(t) => t,
        ExprV::Identifier(s) => s,
        ExprV::Literal(s) => seq!['"'] + s + seq!['"'],
        ExprV::BinaryOp { left, op, right } => sp_render_expr(*left) + seq![' '] + sp_op_text(op)
            + seq![' '] + sp_render_expr(*right),
    }
}

/// The plan of a statement: a scan, a filter when there is a WHERE clause,
/// the projection, and a limit when one is set.
pub open spec fn sp_plan(st: StatementV) -> Seq<PlanStepV> {
    seq![PlanStepV::Scan { table: st.table }] + (match st.where_clause {
        Some(e) => seq![PlanStepV::Filter { condition: sp_render_expr(e) }],
        None => Seq::empty(),
    }) + seq![PlanStepV::Project { columns: st.columns }] + (match st.limit {
        Some(k) => seq![PlanStepV::Limit { count: k }],
        None => Seq::empty(),
    })
}

/// Renders an operator.
fn op_text(op: &Op) -> (r: String)
    ensures
        r@ == sp_op_text(*op),
{
    match op {
        Op::Equal => {
            let s = String::from_str("=");
            proof {
                reveal_strlit("=");
                assert(s@ =~= sp_op_text(Op::Equal));
            }
            s
        },
        Op::NotEqual => {
            let s = String::from_str("!=");
            proof {
                reveal_strlit("!=");
                assert(s@ =~= sp_op_text(Op::NotEqual));
            }
            s
        },
        Op::GreaterThan => {
            let s = String::from_str(">");
            proof {
                reveal_strlit(">");
                assert(s@ =~= sp_op_text(Op::GreaterThan));
            }
            s
        },
        Op::LessThan => {
            let s = String::from_str("<");
            proof {
                reveal_strlit("<");
                assert(s@ =~= sp_op_text(Op::LessThan));
            }
            s
        },
        Op::GreaterThanOrEq => {
            let s = String::from_str(">=");
            proof {
                reveal_strlit(">=");
                assert(s@ =~= sp_op_text(Op::GreaterThanOrEq));
            }
            s
        },
        Op::LessThanOrEq => {
            let s = String::from_str("<=");
            proof {
                reveal_strlit("<=");
                assert(s@ =~= sp_op_text(Op::LessThanOrEq));
            }
            s
        },
        Op::And => {
            let s = String::from_str("AND");
            proof {
                reveal_strlit("AND");
                assert(s@ =~= sp_op_text(Op::And));
            }
            s
        },
        Op::Or => {
            let s = String::from_str("OR");
            proof {
                reveal_strlit("OR");
                assert(s@ =~= sp_op_text(Op::Or));
            }
            s
        },
    }
}

/// Renders an expression for display in a plan.
pub fn expr_to_string(expr: &Expr) -> (r: String)
    ensures
        r@ == sp_render_expr(expr@),
    decreases *expr,
{
    match expr {
        Expr::Number(t) => t.clone(),
        Expr::Identifier(s) => s.clone(),
        Expr::Literal(s) => {
            let quote = String::from_str("\"");
            proof {
                reveal_strlit("\"");
                assert(quote@ =~= seq!['"']);
            }
            let r = quote.clone().concat(s.as_str()).concat(quote.as_str());
            proof {
                assert(r@ =~= sp_render_expr(expr@));
            }
            r
        },
        Expr::BinaryOp { left, op, right } => {
            let space = String::from_str(" ");
            proof {
                reveal_strlit(" ");
                assert(space@ =~= seq![' ']);
            }
            let l = expr_to_string(left);
            let o = op_text(op);
            let rr = expr_to_string(right);
            let r = l.concat(space.as_str()).concat(o.as_str()).concat(space.as_str()).concat(
                rr.as_str(),
            );
            proof {
                assert(r@ =~= sp_render_expr(expr@));
            }
            r
        },
    }
}

/// One decimal digit character.
pub open spec fn sp_digit(n: int) -> char {
    if n == 0 {
        '0'
    } else if n == 1 {
        '1'
    } else if n == 2 {
        '2'
    } else if n == 3 {
        '3'
    } else if n == 4 {
        '4'
    } else if n == 5 {
        '5'
    } else if n == 6 {
        '6'
    } else if n == 7 {
        '7'
    } else if n == 8 {
        '8'
    } else {
        '9'
    }
}

/// The decimal rendering of a non-negative number.
pub open spec fn sp_digits(n: int) -> Seq<char>
    decreases n,
    when n >= 0
{
    if n < 10 {
        seq![sp_digit(n)]
    } else {
        sp_digits(n / 10) + seq![sp_digit(n % 10)]
    }
}

/// The column list, comma-separated.
pub open spec fn sp_join_cols(cols: Seq<Seq<char>>) -> Seq<char>
    decreases cols.len(),
{
    if cols.len() == 0 {
        Seq::empty()
    } else if cols.len() == 1 {
        cols[0]
    } else {
        sp_join_cols(cols.drop_last()) + seq![',', ' '] + cols.last()
    }
}

/// The canonical rendering of a statement, from which tokenizing and
/// parsing recover an equivalent statement.
pub open spec fn sp_render_statement(st: StatementV) -> Seq<char> {
    "SELECT "@ + sp_join_cols(st.columns) + " FROM "@ + st.table + (match st.where_clause {
        Some(e) => " WHERE "@ + sp_render_expr(e),
        None => Seq::empty(),
    }) + (match st.limit {
        Some(k) => " LIMIT "@ + sp_digits(
            if k < 0 {
                0
            } else {
                k
            },
        ),
        None => Seq::empty(),
    })
}

/// One digit as text.
fn digit_str(d: usize) -> (r: &'static str)
    requires
        d < 10,
    ensures
        r@ == seq![sp_digit(d as int)],
{
    proof {
        reveal_strlit("0");
        reveal_strlit("1");
        reveal_strlit("2");
        reveal_strlit("3");
        reveal_strlit("4");
        reveal_strlit("5");
        reveal_strlit("6");
        reveal_strlit("7");
        reveal_strlit("8");
        reveal_strlit("9");
    }
    let r = if d == 0 {
        "0"
    } else if d == 1 {
        "1"
    } else if d == 2 {
        "2"
    } else if d == 3 {
        "3"
    } else if d == 4 {
        "4"
    } else if d == 5 {
        "5"
    } else if d == 6 {
        "6"
    } else if d == 7 {
        "7"
    } else if d == 8 {
        "8"
    } else {
        "9"
    };
    proof {
        assert(r@ =~= seq![sp_digit(d as int)]);
    }
    r
}

/// Renders a non-negative number in decimal.
fn usize_to_string(n: usize) -> (r: String)
    ensures
        r@ == sp_digits(n as int),
    decreases n,
{
    if n < 10 {
        digit_str(n).to_owned()
    } else {
        let r = usize_to_string(n / 10).concat(digit_str(n % 10));
        proof {
            assert(r@ =~= sp_digits(n as int));
        }
        r
    }
}

/// Renders a statement canonically: `SELECT` the columns, `FROM` the
/// table, then the WHERE clause and the LIMIT where present.
pub fn render_statement(st: &Statement) -> (r: String)
    ensures
        r@ == sp_render_statement(st@),
{
    let Statement::Select { columns, table, where_clause, limit } = st;
    let ghost cols = st@.columns;
    let mut r = String::from_str("SELECT ");
    let n = columns.len();
    proof {
        assert(cols.len() == columns@.len());
    }
    let mut i: usize = 0;
    while i < n
        invariant
            0 <= i <= n,
            n == columns@.len(),
            cols == columns.deep_view(),
            r@ == "SELECT "@ + sp_join_cols(cols.take(i as int)),
        decreases n - i,
    {
        proof {
            assert(cols.take(i + 1).drop_last() =~= cols.take(i as int));
            assert(cols.take(i + 1).last() == cols[i as int]);
            assert(columns@[i as int]@ == cols[i as int]);
        }
        if i > 0 {
            let sep = String::from_str(", ");
            proof {
                reveal_strlit(", ");
                assert(sep@ =~= seq![',', ' ']);
            }
            r = r.concat(sep.as_str());
        }
        r = r.concat(columns[i].as_str());
        proof {
            assert(r@ =~= "SELECT "@ + sp_join_cols(cols.take(i + 1)));
        }
        i = i + 1;
    }
    proof {
        assert(cols.take(n as int) =~= cols);
    }
    let from_kw = String::from_str(" FROM ");
    r = r.concat(from_kw.as_str()).concat(table.as_str());
    if let Some(e) = where_clause {
        let where_kw = String::from_str(" WHERE ");
        let cond = expr_to_string(e);
        r = r.concat(where_kw.as_str()).concat(cond.as_str());
    }
    if let Some(k) = limit {
        let limit_kw = String::from_str(" LIMIT ");
        let num = usize_to_string(*k);
        r = r.concat(limit_kw.as_str()).concat(num.as_str());
    }
    proof {
        assert(r@ =~= sp_render_statement(st@));
    }
    r
}

/// Lowers a statement to its query plan.
pub fn ast_to_ir(ast: &Statement) -> (plan: QueryPlan)
    ensures
        plan@ == sp_plan(ast@),
{
    let Statement::Select { columns, table, where_clause, limit } = ast;
    let mut steps: Vec<PlanStep> = Vec::new();
    steps.push(PlanStep::Scan { table: table.clone() });
    if let Some(expr) = where_clause {
        let condition = expr_to_string(expr);
        steps.push(PlanStep::Filter { condition });
    }
    let mut cols: Vec<String> = Vec::new();
    let n = columns.len();
    let mut i: usize = 0;
    while i < n
        invariant
            0 <= i <= n,
            n == columns@.len(),
            cols.deep_view() =~= columns.deep_view().take(i as int),
        decreases n - i,
    {
        let c = columns[i].clone();
        proof {
            assert(columns.deep_view().take(i + 1) =~= columns.deep_view().take(i as int).push(
                columns@[i as int]@,
            ));
            assert(cols.deep_view().push(c@) =~= columns.deep_view().take(i + 1));
        }
        cols.push(c);
        i = i + 1;
    }
    proof {
        assert(columns.deep_view().take(n as int) =~= columns.deep_view());
    }
    steps.push(PlanStep::Project { columns: cols });
    if let Some(k) = limit {
        steps.push(PlanStep::Limit { count: *k });
    }
    let plan = QueryPlan { steps };
    proof {
        assert(plan@ =~= sp_plan(ast@));
    }
    plan
}

} // verus!
