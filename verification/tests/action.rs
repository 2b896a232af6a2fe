use ferroplan::action::{ground_action, static_top_atoms, Action, RawOp};
use ferroplan::binding::restricted_domains;
use ferroplan::dnf::{Conjunct, Formula, NumExpr, Statics};
use ferroplan::effect::{ground_effect, AssignOp, CondEffect, Effect, GroundEffect};
use ferroplan::types::Term;

fn s(x: &str) -> String {
    x.to_string()
}
fn var(x: &str) -> Term {
    Term::Var(s(x))
}
fn cst(x: &str) -> Term {
    Term::Const(s(x))
}
fn ga(p: &str, args: &[&str]) -> (String, Vec<String>) {
    (s(p), args.iter().map(|a| s(a)).collect())
}
fn objs() -> Vec<(String, Vec<String>)> {
    vec![(s("ball"), vec![s("b1"), s("b2")]), (s("room"), vec![s("r1"), s("r2")])]
}
fn empty_eff() -> GroundEffect {
    GroundEffect { add: vec![], del: vec![], num: vec![], cond: vec![] }
}
fn nothing() -> Conjunct {
    Conjunct { pos: vec![], neg: vec![], num: vec![] }
}

#[test]
fn a_plain_effect_adds_deletes_and_assigns_under_the_binding() {
    let e = Effect::And(vec![
        Effect::Add(s("at"), vec![var("?b"), var("?to")]),
        Effect::Del(s("at"), vec![var("?b"), var("?from")]),
        Effect::Num(AssignOp::Increase, s("moves"), vec![], NumExpr::Num(1)),
    ]);
    let b = vec![(s("?b"), s("b1")), (s("?from"), s("r1")), (s("?to"), s("r2"))];
    let mut out = empty_eff();
    ground_effect(&e, &b, &objs(), &nothing(), &mut out, None);
    assert_eq!(out.add, vec![ga("at", &["b1", "r2"])]);
    assert_eq!(out.del, vec![ga("at", &["b1", "r1"])]);
    assert_eq!(out.num, vec![(AssignOp::Increase, s("moves"), vec![], NumExpr::Num(1))]);
    assert!(out.cond.is_empty());
}

#[test]
fn a_when_effect_splits_into_one_conditional_effect_per_disjunct() {
    let cond = Formula::Or(vec![
        Formula::Atom(s("wet"), vec![var("?b")]),
        Formula::Not(Box::new(Formula::Atom(s("dry"), vec![var("?b")]))),
    ]);
    let e = Effect::When(cond, Box::new(Effect::Del(s("clean"), vec![var("?b")])));
    let b = vec![(s("?b"), s("b2"))];
    let mut out = empty_eff();
    ground_effect(&e, &b, &objs(), &nothing(), &mut out, None);
    assert!(out.add.is_empty() && out.del.is_empty());
    assert_eq!(
        out.cond,
        vec![
            CondEffect {
                cond: Conjunct { pos: vec![ga("wet", &["b2"])], neg: vec![], num: vec![] },
                add: vec![],
                del: vec![ga("clean", &["b2"])],
                num: vec![],
            },
            CondEffect {
                cond: Conjunct { pos: vec![], neg: vec![ga("dry", &["b2"])], num: vec![] },
                add: vec![],
                del: vec![ga("clean", &["b2"])],
                num: vec![],
            },
        ]
    );
}

#[test]
fn a_universal_effect_expands_over_the_typed_objects() {
    let e = Effect::Forall(vec![(s("?x"), s("ball"))], Box::new(Effect::Add(s("seen"), vec![var("?x")])));
    let mut out = empty_eff();
    ground_effect(&e, &vec![], &objs(), &nothing(), &mut out, None);
    assert_eq!(out.add, vec![ga("seen", &["b1"]), ga("seen", &["b2"])]);
}

#[test]
fn the_static_literals_are_the_unadded_atoms_on_the_top_conjunction() {
    let pre = Formula::And(vec![
        Formula::Atom(s("road"), vec![var("?a"), var("?b")]),
        Formula::And(vec![Formula::Atom(s("at"), vec![var("?a")]), Formula::Atom(s("open"), vec![var("?b")])]),
        Formula::Not(Box::new(Formula::Atom(s("blocked"), vec![var("?b")]))),
    ]);
    let lits = static_top_atoms(&pre, &vec![s("at")]);
    assert_eq!(
        lits,
        vec![(s("road"), vec![var("?a"), var("?b")]), (s("open"), vec![var("?b")])]
    );
}

fn move_action() -> Action {
    Action {
        name: s("move"),
        params: vec![(s("?from"), s("room")), (s("?to"), s("room"))],
        precond: Formula::And(vec![
            Formula::Atom(s("door"), vec![var("?from"), var("?to")]),
            Formula::Or(vec![
                Formula::Atom(s("at-robby"), vec![var("?from")]),
                Formula::Atom(s("near"), vec![var("?from")]),
            ]),
        ]),
        effect: Effect::And(vec![
            Effect::Add(s("at-robby"), vec![var("?to")]),
            Effect::Del(s("at-robby"), vec![var("?from")]),
        ]),
        monitored: false,
    }
}

#[test]
fn an_action_grounds_one_operator_per_precondition_conjunct_of_each_surviving_binding() {
    let a = move_action();
    let init = vec![ga("door", &["r1", "r2"]), ga("at-robby", &["r1"])];
    let lits = static_top_atoms(&a.precond, &vec![s("at-robby"), s("near")]);
    let domains = restricted_domains(&a.params, &objs(), &lits, &init);
    let ops = ground_action(&a, &domains, &lits, &init, &objs(), None, false, 1000).unwrap();
    let eff = GroundEffect {
        add: vec![ga("at-robby", &["r2"])],
        del: vec![ga("at-robby", &["r1"])],
        num: vec![],
        cond: vec![],
    };
    let eff2 = GroundEffect {
        add: vec![ga("at-robby", &["r2"])],
        del: vec![ga("at-robby", &["r1"])],
        num: vec![],
        cond: vec![],
    };
    assert_eq!(
        ops,
        vec![
            RawOp {
                display: s("move r1 r2"),
                pre: Conjunct { pos: vec![ga("door", &["r1", "r2"]), ga("at-robby", &["r1"])], neg: vec![], num: vec![] },
                eff,
                multi: true,
                monitored: false,
            },
            RawOp {
                display: s("move r1 r2"),
                pre: Conjunct { pos: vec![ga("door", &["r1", "r2"]), ga("near", &["r1"])], neg: vec![], num: vec![] },
                eff: eff2,
                multi: true,
                monitored: false,
            },
        ]
    );
}

#[test]
fn with_static_knowledge_the_static_literal_folds_out_of_the_operators() {
    let a = move_action();
    let init = vec![ga("door", &["r1", "r2"]), ga("at-robby", &["r1"])];
    let st = Statics { init: init.clone(), add_preds: vec![s("at-robby")], del_preds: vec![s("at-robby")] };
    let lits = static_top_atoms(&a.precond, &st.add_preds);
    let domains = restricted_domains(&a.params, &objs(), &lits, &init);
    let ops = ground_action(&a, &domains, &lits, &init, &objs(), Some(&st), true, 1000).unwrap();
    // `near` is never added and absent from init: that disjunct dies.
    assert_eq!(ops.len(), 1);
    assert_eq!(ops[0].display, "move r1 r2");
    assert_eq!(ops[0].pre, Conjunct { pos: vec![ga("at-robby", &["r1"])], neg: vec![], num: vec![] });
    assert!(!ops[0].multi);
    assert_eq!(ground_action(&a, &domains, &lits, &init, &objs(), Some(&st), false, 0), None);
}

#[test]
fn an_action_without_parameters_is_named_alone() {
    let a = Action {
        name: s("noop"),
        params: vec![],
        precond: Formula::True,
        effect: Effect::And(vec![]),
        monitored: true,
    };
    let ops = ground_action(&a, &vec![], &vec![], &vec![], &objs(), None, false, 10).unwrap();
    assert_eq!(
        ops,
        vec![RawOp { display: s("noop"), pre: nothing(), eff: empty_eff(), multi: false, monitored: true }]
    );
}
