use ferroplan::dnf::{to_dnf, CompOp, Conjunct, Formula, NumExpr, Statics};
use ferroplan::types::Term;

fn s(x: &str) -> String {
    x.to_string()
}
fn var(x: &str) -> Term {
    Term::Var(s(x))
}
fn cst(x: &str) -> Term {
    Term::Const(s(x))
}
fn atom(p: &str, args: Vec<Term>) -> Formula {
    Formula::Atom(s(p), args)
}
fn ga(p: &str, args: &[&str]) -> (String, Vec<String>) {
    (s(p), args.iter().map(|a| s(a)).collect())
}
fn conj(pos: Vec<(String, Vec<String>)>, neg: Vec<(String, Vec<String>)>) -> Conjunct {
    Conjunct { pos, neg, num: vec![] }
}
fn objs() -> Vec<(String, Vec<String>)> {
    vec![(s("ball"), vec![s("b1"), s("b2")]), (s("room"), vec![s("r1")])]
}
fn bind(pairs: &[(&str, &str)]) -> Vec<(String, String)> {
    pairs.iter().map(|(v, o)| (s(v), s(o))).collect()
}

#[test]
fn a_conjunction_of_atoms_is_one_conjunct_under_the_binding() {
    let f = Formula::And(vec![atom("at", vec![var("?b"), var("?r")]), atom("free", vec![cst("g")])]);
    let d = to_dnf(&f, &bind(&[("?b", "b1"), ("?r", "r1")]), false, &objs(), None);
    assert_eq!(d, vec![conj(vec![ga("at", &["b1", "r1"]), ga("free", &["g"])], vec![])]);
}

#[test]
fn a_later_pair_for_a_variable_overrides_an_earlier_one_and_unbound_ones_stay() {
    let f = atom("at", vec![var("?b"), var("?x")]);
    let d = to_dnf(&f, &bind(&[("?b", "b1"), ("?b", "b2")]), false, &objs(), None);
    assert_eq!(d, vec![conj(vec![ga("at", &["b2", "?x"])], vec![])]);
}

#[test]
fn a_negated_conjunction_is_the_disjunction_of_the_negated_parts() {
    let f = Formula::Not(Box::new(Formula::And(vec![atom("p", vec![]), atom("q", vec![])])));
    let d = to_dnf(&f, &vec![], false, &objs(), None);
    assert_eq!(d, vec![conj(vec![], vec![ga("p", &[])]), conj(vec![], vec![ga("q", &[])])]);
}

#[test]
fn a_disjunction_inside_a_conjunction_multiplies_out_in_order() {
    let f = Formula::And(vec![
        Formula::Or(vec![atom("a", vec![]), atom("b", vec![])]),
        Formula::Or(vec![atom("c", vec![]), atom("d", vec![])]),
    ]);
    let d = to_dnf(&f, &vec![], false, &objs(), None);
    assert_eq!(
        d,
        vec![
            conj(vec![ga("a", &[]), ga("c", &[])], vec![]),
            conj(vec![ga("a", &[]), ga("d", &[])], vec![]),
            conj(vec![ga("b", &[]), ga("c", &[])], vec![]),
            conj(vec![ga("b", &[]), ga("d", &[])], vec![]),
        ]
    );
}

#[test]
fn quantifiers_expand_over_the_typed_objects() {
    let all = Formula::Forall(vec![(s("?x"), s("ball"))], Box::new(atom("held", vec![var("?x")])));
    assert_eq!(
        to_dnf(&all, &vec![], false, &objs(), None),
        vec![conj(vec![ga("held", &["b1"]), ga("held", &["b2"])], vec![])]
    );
    let some = Formula::Exists(vec![(s("?x"), s("ball"))], Box::new(atom("held", vec![var("?x")])));
    assert_eq!(
        to_dnf(&some, &vec![], false, &objs(), None),
        vec![conj(vec![ga("held", &["b1"])], vec![]), conj(vec![ga("held", &["b2"])], vec![])]
    );
    let none = Formula::Exists(vec![(s("?x"), s("crate"))], Box::new(atom("held", vec![var("?x")])));
    assert_eq!(to_dnf(&none, &vec![], false, &objs(), None), vec![]);
}

#[test]
fn static_literals_are_decided_against_the_initial_state() {
    let st = Statics {
        init: vec![ga("road", &["a", "b"]), ga("open", &["a"])],
        add_preds: vec![s("at")],
        del_preds: vec![s("open")],
    };
    // In init and never deleted: true, so it drops out.
    let f = Formula::And(vec![atom("road", vec![cst("a"), cst("b")]), atom("at", vec![cst("a")])]);
    assert_eq!(to_dnf(&f, &vec![], false, &objs(), Some(&st)), vec![conj(vec![ga("at", &["a"])], vec![])]);
    // Absent from init and never added: false.
    let g = atom("road", vec![cst("b"), cst("a")]);
    assert_eq!(to_dnf(&g, &vec![], false, &objs(), Some(&st)), vec![]);
    // In init but deletable: kept as a literal.
    let h = atom("open", vec![cst("a")]);
    assert_eq!(to_dnf(&h, &vec![], false, &objs(), Some(&st)), vec![conj(vec![ga("open", &["a"])], vec![])]);
    // A true disjunct absorbs the disjunction.
    let o = Formula::Or(vec![atom("at", vec![cst("a")]), atom("road", vec![cst("a"), cst("b")])]);
    assert_eq!(to_dnf(&o, &vec![], false, &objs(), Some(&st)), vec![conj(vec![], vec![])]);
    // Without static knowledge nothing is decided.
    assert_eq!(to_dnf(&g, &vec![], false, &objs(), None), vec![conj(vec![ga("road", &["b", "a"])], vec![])]);
}

#[test]
fn a_negated_numeric_equality_becomes_less_or_greater() {
    let f = Formula::Comp(
        CompOp::Eq,
        NumExpr::Fluent(s("fuel"), vec![var("?t")]),
        NumExpr::Num(0),
    );
    let d = to_dnf(&f, &bind(&[("?t", "t1")]), true, &objs(), None);
    let fl = || NumExpr::Fluent(s("fuel"), vec![cst("t1")]);
    assert_eq!(
        d,
        vec![
            Conjunct { pos: vec![], neg: vec![], num: vec![(CompOp::Lt, fl(), NumExpr::Num(0))] },
            Conjunct { pos: vec![], neg: vec![], num: vec![(CompOp::Gt, fl(), NumExpr::Num(0))] },
        ]
    );
    let g = Formula::Comp(CompOp::Le, fl(), NumExpr::Num(5));
    let d = to_dnf(&g, &vec![], true, &objs(), None);
    assert_eq!(d, vec![Conjunct { pos: vec![], neg: vec![], num: vec![(CompOp::Gt, fl(), NumExpr::Num(5))] }]);
}

#[test]
fn equality_of_terms_is_decided_and_preferences_are_ignored() {
    let eq = Formula::Eq(var("?x"), cst("b1"));
    assert_eq!(to_dnf(&eq, &bind(&[("?x", "b1")]), false, &objs(), None), vec![conj(vec![], vec![])]);
    assert_eq!(to_dnf(&eq, &bind(&[("?x", "b2")]), false, &objs(), None), vec![]);
    assert_eq!(to_dnf(&eq, &bind(&[("?x", "b2")]), true, &objs(), None), vec![conj(vec![], vec![])]);
    let pref = Formula::Pref(Some(s("p1")), Box::new(atom("x", vec![])));
    assert_eq!(to_dnf(&pref, &vec![], false, &objs(), None), vec![conj(vec![], vec![])]);
    assert_eq!(to_dnf(&pref, &vec![], true, &objs(), None), vec![]);
}
