use csv_ql::ast::Statement;
use csv_ql::ir::{ast_to_ir, expr_to_string, render_statement, PlanStep};
use csv_ql::lexer::tokenize;
use csv_ql::parser::Parser;

fn parse(input: &str) -> Statement {
    Parser::new(tokenize(input)).parse().unwrap()
}

#[test]
fn plan_lists_every_step_in_order() {
    let stmt = parse("SELECT nama, umur FROM data.csv WHERE umur > 20 LIMIT 5");
    let plan = ast_to_ir(&stmt);
    assert_eq!(plan.steps.len(), 4);
    assert!(matches!(&plan.steps[0], PlanStep::Scan { table } if table == "data.csv"));
    assert!(matches!(&plan.steps[1], PlanStep::Filter { condition } if condition == "umur > 20"));
    assert!(
        matches!(&plan.steps[2], PlanStep::Project { columns }
            if *columns == vec!["nama".to_string(), "umur".to_string()])
    );
    assert!(matches!(&plan.steps[3], PlanStep::Limit { count: 5 }));
}

#[test]
fn plan_omits_absent_clauses() {
    let plan = ast_to_ir(&parse("SELECT * FROM f"));
    assert_eq!(plan.steps.len(), 2);
    assert!(matches!(&plan.steps[0], PlanStep::Scan { .. }));
    assert!(matches!(&plan.steps[1], PlanStep::Project { .. }));
}

#[test]
fn expressions_render_with_quoted_literals() {
    let stmt = parse("SELECT a FROM f WHERE kota = 'Jakarta' OR umur >= 2.5");
    match stmt {
        Statement::Select { where_clause: Some(e), .. } => {
            assert_eq!(expr_to_string(&e), "kota = \"Jakarta\" OR umur >= 2.5");
        }
        other => panic!("expected a WHERE clause, got {:?}", other),
    }
}

#[test]
fn statements_render_canonically() {
    let stmt = parse("select   nama,umur from data.csv where umur>20 limit 5.9");
    assert_eq!(
        render_statement(&stmt),
        "SELECT nama, umur FROM data.csv WHERE umur > 20 LIMIT 5"
    );
}

#[test]
fn rendering_reparses_to_an_equivalent_statement() {
    // the canonical rendering is a fixed point of render-parse-render
    let queries = [
        "SELECT * FROM data.csv",
        "SELECT a, b, c FROM f WHERE a = 'x y' LIMIT 3",
        "SELECT a FROM f WHERE a > 1 AND b < 2 OR c = 3",
        "SELECT a FROM f WHERE a != b AND c <= 4.25",
        "SELECT a FROM f WHERE x = 1 OR y = 2 AND z >= 3 LIMIT 0",
        "SELECT a FROM f WHERE x > y > z",
    ];
    for q in queries {
        let rendered = render_statement(&parse(q));
        let reparsed = parse(&rendered);
        assert_eq!(render_statement(&reparsed), rendered, "for query {:?}", q);
    }
}
