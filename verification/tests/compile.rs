use ferroplan::action::Action;
use ferroplan::constraints::{compile, reject_reserved_names, PlanTask};
use ferroplan::dnf::Formula;
use ferroplan::effect::Effect;
use ferroplan::monitor::{Instance, Transition, Traj};
use ferroplan::types::Term;

fn s(x: &str) -> String {
    x.to_string()
}
fn fact(n: &str) -> Formula {
    Formula::Atom(s(n), vec![])
}
fn var_atom(p: &str, v: &str) -> Formula {
    Formula::Atom(s(p), vec![Term::Var(s(v))])
}
fn not(f: Formula) -> Formula {
    Formula::Not(Box::new(f))
}

fn task(predicates: Vec<&str>) -> PlanTask {
    PlanTask {
        predicates: predicates.into_iter().map(s).collect(),
        functions: vec![],
        preferences: vec![],
        actions: vec![Action {
            name: s("move"),
            params: vec![(s("?r"), s("room"))],
            precond: var_atom("near", "?r"),
            effect: Effect::Add(s("at"), vec![Term::Var(s("?r"))]),
            monitored: false,
        }],
        init: vec![(s("safe"), vec![])],
        goal: fact("home"),
        monitors: vec![],
    }
}

#[test]
fn a_reserved_predicate_name_is_refused_before_anything_compiles() {
    let hard = vec![Instance { traj: Traj::Always(fact("safe")), a0: true, b0: false }];
    let expected = reject_reserved_names(&[s("at"), s("TRAJ0-VIOL")], &[], &[s("move")], &[]).unwrap_err();
    match compile(task(vec!["at", "TRAJ0-VIOL"]), &hard, &vec![]) {
        Err(e) => {
            assert_eq!(e, expected);
            assert!(e.contains("TRAJ0-VIOL"));
        },
        Ok(_) => panic!("expected a refusal"),
    }
}

#[test]
fn without_instances_the_task_comes_back_as_it_was() {
    let out = compile(task(vec!["at"]), &vec![], &vec![]).unwrap();
    assert_eq!(out.predicates, vec![s("at")]);
    assert_eq!(out.actions.len(), 1);
    assert_eq!(out.actions[0].precond, var_atom("near", "?r"));
    assert!(!out.actions[0].monitored);
    assert_eq!(out.goal, fact("home"));
}

#[test]
fn a_hard_constraint_gates_the_actions_and_adds_the_end_action() {
    let hard = vec![Instance { traj: Traj::Always(fact("safe")), a0: true, b0: false }];
    let out = compile(task(vec!["at"]), &hard, &vec![]).unwrap();
    assert_eq!(
        out.predicates,
        vec![s("at"), s("TRAJ0-VIOL"), s("TRAJ-PLANNING"), s("TRAJ-ENDED"), s("TRAJ0-ACC")]
    );
    // VIOL starts false: the formula holds initially.
    assert_eq!(out.init, vec![(s("safe"), vec![]), (s("TRAJ-PLANNING"), vec![])]);
    assert_eq!(out.monitors, vec![Transition { cond: not(fact("safe")), add: vec![s("TRAJ0-VIOL")], del: vec![] }]);
    assert_eq!(out.actions.len(), 2);
    assert_eq!(out.actions[0].name, "move");
    assert_eq!(out.actions[0].precond, Formula::And(vec![var_atom("near", "?r"), fact("TRAJ-PLANNING")]));
    assert!(out.actions[0].monitored);
    let end = &out.actions[1];
    assert_eq!(end.name, "TRAJ-END");
    assert!(end.params.is_empty() && !end.monitored);
    assert_eq!(end.precond, fact("TRAJ-PLANNING"));
    assert_eq!(
        end.effect,
        Effect::And(vec![
            Effect::Del(s("TRAJ-PLANNING"), vec![]),
            Effect::Add(s("TRAJ-ENDED"), vec![]),
            Effect::When(
                Formula::And(vec![not(fact("TRAJ0-VIOL")), fact("safe")]),
                Box::new(Effect::Add(s("TRAJ0-ACC"), vec![])),
            ),
        ])
    );
    assert_eq!(out.goal, Formula::And(vec![fact("home"), fact("TRAJ0-ACC"), fact("TRAJ-ENDED")]));
}

#[test]
fn a_soft_constraint_becomes_a_goal_preference_without_an_end_action() {
    let soft = vec![(s("p1"), vec![Instance { traj: Traj::Sometime(fact("lit")), a0: false, b0: false }])];
    let out = compile(task(vec!["at"]), &vec![], &soft).unwrap();
    assert_eq!(out.predicates, vec![s("at"), s("TRAJ0-SEEN")]);
    assert_eq!(out.init, vec![(s("safe"), vec![])]);
    assert_eq!(out.actions.len(), 1);
    assert_eq!(out.actions[0].precond, var_atom("near", "?r"));
    assert!(out.actions[0].monitored);
    assert_eq!(
        out.goal,
        Formula::And(vec![
            fact("home"),
            Formula::Pref(Some(s("p1")), Box::new(Formula::Or(vec![fact("TRAJ0-SEEN"), fact("lit")]))),
        ])
    );
}

#[test]
fn hard_monitors_are_numbered_before_soft_ones_and_an_empty_preference_is_true() {
    let hard = vec![Instance { traj: Traj::AtEnd(fact("home")), a0: false, b0: false }];
    let soft = vec![
        (s("p1"), vec![Instance { traj: Traj::Sometime(fact("lit")), a0: true, b0: false }]),
        (s("p2"), vec![]),
    ];
    let out = compile(task(vec![]), &hard, &soft).unwrap();
    assert_eq!(out.predicates, vec![s("TRAJ1-SEEN"), s("TRAJ-PLANNING"), s("TRAJ-ENDED"), s("TRAJ0-ACC")]);
    assert_eq!(
        out.init,
        vec![(s("safe"), vec![]), (s("TRAJ1-SEEN"), vec![]), (s("TRAJ-PLANNING"), vec![])]
    );
    assert_eq!(
        out.goal,
        Formula::And(vec![
            fact("home"),
            Formula::Pref(Some(s("p1")), Box::new(Formula::Or(vec![fact("TRAJ1-SEEN"), fact("lit")]))),
            Formula::Pref(Some(s("p2")), Box::new(Formula::True)),
            fact("TRAJ0-ACC"),
            fact("TRAJ-ENDED"),
        ])
    );
    match &out.actions[1].effect {
        Effect::And(es) => assert_eq!(
            es[2],
            Effect::When(fact("home"), Box::new(Effect::Add(s("TRAJ0-ACC"), vec![])))
        ),
        _ => panic!("expected the end action's effects"),
    }
}
