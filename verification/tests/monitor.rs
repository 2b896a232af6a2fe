use ferroplan::dnf::Formula;
use ferroplan::monitor::{copy_formula, emit_monitor, Monitor, Traj, Transition};
use ferroplan::types::Term;

fn s(x: &str) -> String {
    x.to_string()
}
fn atom(p: &str, args: &[&str]) -> Formula {
    Formula::Atom(s(p), args.iter().map(|a| Term::Const(s(a))).collect())
}
fn fact(n: &str) -> Formula {
    Formula::Atom(s(n), vec![])
}
fn not(f: Formula) -> Formula {
    Formula::Not(Box::new(f))
}

#[test]
fn a_copied_formula_is_equal_to_its_source() {
    let f = Formula::And(vec![atom("at", &["r1"]), not(Formula::Or(vec![atom("wet", &["b"]), Formula::True]))]);
    assert_eq!(copy_formula(&f), f);
}

#[test]
fn always_raises_a_violation_fact_when_its_formula_fails() {
    let m = emit_monitor(0, &Traj::Always(atom("safe", &["r1"])), false, false);
    assert_eq!(
        m,
        Monitor {
            facts: vec![(s("TRAJ0-VIOL"), true)],
            transitions: vec![Transition { cond: not(atom("safe", &["r1"])), add: vec![s("TRAJ0-VIOL")], del: vec![] }],
            acceptance: vec![not(fact("TRAJ0-VIOL")), atom("safe", &["r1"])],
        }
    );
}

#[test]
fn sometime_latches_a_seen_fact() {
    let m = emit_monitor(3, &Traj::Sometime(atom("lit", &["l1"])), true, false);
    assert_eq!(m.facts, vec![(s("TRAJ3-SEEN"), true)]);
    assert_eq!(m.transitions, vec![Transition { cond: atom("lit", &["l1"]), add: vec![s("TRAJ3-SEEN")], del: vec![] }]);
    assert_eq!(m.acceptance, vec![Formula::Or(vec![fact("TRAJ3-SEEN"), atom("lit", &["l1"])])]);
}

#[test]
fn at_most_once_tracks_episodes_and_flags_a_second_rising_edge() {
    let f = atom("open", &["d"]);
    let m = emit_monitor(2, &Traj::AtMostOnce(copy_formula(&f)), true, false);
    let rising = Formula::And(vec![copy_formula(&f), not(fact("TRAJ2-HOLD")), fact("TRAJ2-SEEN")]);
    assert_eq!(
        m,
        Monitor {
            facts: vec![(s("TRAJ2-HOLD"), true), (s("TRAJ2-SEEN"), true), (s("TRAJ2-VIOL"), false)],
            transitions: vec![
                Transition { cond: copy_formula(&rising), add: vec![s("TRAJ2-VIOL")], del: vec![] },
                Transition {
                    cond: Formula::And(vec![copy_formula(&f), not(fact("TRAJ2-HOLD"))]),
                    add: vec![s("TRAJ2-SEEN"), s("TRAJ2-HOLD")],
                    del: vec![],
                },
                Transition {
                    cond: Formula::And(vec![not(copy_formula(&f)), fact("TRAJ2-HOLD")]),
                    add: vec![],
                    del: vec![s("TRAJ2-HOLD")],
                },
            ],
            acceptance: vec![not(fact("TRAJ2-VIOL")), not(rising)],
        }
    );
}

#[test]
fn sometime_after_keeps_an_obligation_pending_until_discharged() {
    let a = atom("req", &["x"]);
    let b = atom("ack", &["x"]);
    let m = emit_monitor(1, &Traj::SometimeAfter(copy_formula(&a), copy_formula(&b)), true, false);
    assert_eq!(m.facts, vec![(s("TRAJ1-PEND"), true)]);
    assert_eq!(
        m.transitions,
        vec![
            Transition { cond: copy_formula(&b), add: vec![], del: vec![s("TRAJ1-PEND")] },
            Transition { cond: Formula::And(vec![copy_formula(&a), not(copy_formula(&b))]), add: vec![s("TRAJ1-PEND")], del: vec![] },
        ]
    );
    assert_eq!(
        m.acceptance,
        vec![Formula::Or(vec![b, Formula::And(vec![not(fact("TRAJ1-PEND")), not(a)])])]
    );
    let m2 = emit_monitor(1, &Traj::SometimeAfter(atom("req", &["x"]), atom("ack", &["x"])), true, true);
    assert_eq!(m2.facts, vec![(s("TRAJ1-PEND"), false)]);
}

#[test]
fn sometime_before_needs_a_strictly_earlier_witness() {
    let a = atom("leave", &[]);
    let b = atom("pay", &[]);
    let m = emit_monitor(4, &Traj::SometimeBefore(copy_formula(&a), copy_formula(&b)), true, false);
    assert_eq!(m.facts, vec![(s("TRAJ4-SAFE"), false), (s("TRAJ4-VIOL"), true)]);
    assert_eq!(
        m.transitions,
        vec![
            Transition { cond: Formula::And(vec![copy_formula(&a), not(fact("TRAJ4-SAFE"))]), add: vec![s("TRAJ4-VIOL")], del: vec![] },
            Transition { cond: b, add: vec![s("TRAJ4-SAFE")], del: vec![] },
        ]
    );
    assert_eq!(m.acceptance, vec![not(fact("TRAJ4-VIOL")), Formula::Or(vec![not(a), fact("TRAJ4-SAFE")])]);
}

#[test]
fn at_end_only_checks_the_last_state() {
    let m = emit_monitor(12, &Traj::AtEnd(atom("home", &[])), false, false);
    assert!(m.facts.is_empty() && m.transitions.is_empty());
    assert_eq!(m.acceptance, vec![atom("home", &[])]);
}

#[test]
fn no_monitor_sets_and_clears_the_same_fact_under_one_state() {
    // The episode monitor: the add and the clear of HOLD need `open` and
    // its negation.
    let m = emit_monitor(0, &Traj::AtMostOnce(atom("open", &["d"])), false, false);
    let adds_hold = &m.transitions[1];
    let clears_hold = &m.transitions[2];
    assert!(adds_hold.add.contains(&s("TRAJ0-HOLD")) && clears_hold.del.contains(&s("TRAJ0-HOLD")));
    assert_eq!(adds_hold.cond, Formula::And(vec![atom("open", &["d"]), not(fact("TRAJ0-HOLD"))]));
    assert_eq!(clears_hold.cond, Formula::And(vec![not(atom("open", &["d"])), fact("TRAJ0-HOLD")]));
}
