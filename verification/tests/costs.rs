use ferroplan::costs::metric_fluent;
use ferroplan::types::{Expr, MetricDir, Problem, Term};

fn problem(metric: Option<(MetricDir, Expr)>) -> Problem {
    Problem { objects: vec![], metric }
}

#[test]
fn only_a_minimized_ground_fluent_is_a_cost_metric() {
    let m = problem(Some((MetricDir::Minimize, Expr::Fluent("total-cost".into(), vec![]))));
    assert_eq!(metric_fluent(&m).as_deref(), Some("(TOTAL-COST)"));
    let m = problem(Some((
        MetricDir::Minimize,
        Expr::Fluent("fuel-used".into(), vec![Term::Const("truck1".into()), Term::Const("l2".into())]),
    )));
    assert_eq!(metric_fluent(&m).as_deref(), Some("(FUEL-USED TRUCK1 L2)"));
    let lifted = problem(Some((
        MetricDir::Minimize,
        Expr::Fluent("fuel".into(), vec![Term::Const("a".into()), Term::Var("t".into())]),
    )));
    assert_eq!(metric_fluent(&lifted), None);
    let maxed = problem(Some((MetricDir::Maximize, Expr::Fluent("score".into(), vec![]))));
    assert_eq!(metric_fluent(&maxed), None);
    assert_eq!(metric_fluent(&problem(Some((MetricDir::Minimize, Expr::Compound)))), None);
    assert_eq!(metric_fluent(&problem(None)), None);
}
