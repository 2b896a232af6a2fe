use ferroplan::dnf::Formula;
use ferroplan::monitor::{
    copy_constraint, dead_member, has_soft_constraints, map_soft_constraints, statically_dead_soft_nodes, Constraint,
    Judged, Partial, Traj,
};

fn s(x: &str) -> String {
    x.to_string()
}
fn fact(n: &str) -> Formula {
    Formula::Atom(s(n), vec![])
}
fn modal(n: &str) -> Constraint {
    Constraint::Modal(Traj::Sometime(fact(n)))
}
fn pref(name: &str, c: Constraint) -> Constraint {
    Constraint::Pref(Some(s(name)), Box::new(c))
}

fn block() -> Vec<Constraint> {
    vec![
        modal("a"),
        Constraint::And(vec![pref("p0", modal("b")), modal("c"), pref("p1", modal("d"))]),
        Constraint::Forall(vec![(s("?x"), s("room"))], Box::new(pref("p2", modal("e")))),
    ]
}

#[test]
fn a_block_with_a_preference_anywhere_is_soft() {
    assert!(has_soft_constraints(&block()));
    assert!(!has_soft_constraints(&vec![modal("a"), Constraint::And(vec![modal("b")])]));
    assert!(!has_soft_constraints(&vec![]));
}

#[test]
fn keeping_every_preference_turns_each_into_its_hard_body() {
    let mut ctr: usize = 0;
    let out = map_soft_constraints(&block(), &mut ctr, &vec![true, true, true]);
    assert_eq!(ctr, 3);
    assert_eq!(
        out,
        vec![
            modal("a"),
            Constraint::And(vec![modal("b"), modal("c"), modal("d")]),
            Constraint::Forall(vec![(s("?x"), s("room"))], Box::new(modal("e"))),
        ]
    );
}

#[test]
fn dropping_every_preference_keeps_only_the_hard_constraints() {
    let mut ctr: usize = 0;
    let out = map_soft_constraints(&block(), &mut ctr, &vec![]);
    assert_eq!(ctr, 3);
    assert_eq!(out, vec![modal("a"), Constraint::And(vec![modal("c")])]);
}

#[test]
fn a_mask_keeps_the_nodes_it_marks_and_numbering_continues_across_calls() {
    let mut ctr: usize = 1;
    let out = map_soft_constraints(&vec![pref("q", modal("x")), pref("r", modal("y"))], &mut ctr, &vec![false, false, true]);
    assert_eq!(ctr, 3);
    assert_eq!(out, vec![modal("y")]);
    let whole = Constraint::And(vec![pref("only", modal("z"))]);
    let mut ctr2: usize = 0;
    assert_eq!(map_soft_constraints(&vec![copy_constraint(&whole)], &mut ctr2, &vec![false]), vec![]);
}

#[test]
fn a_member_is_dead_when_its_obligation_can_never_be_met() {
    assert!(dead_member(Judged::Sometime(Partial::False)));
    assert!(dead_member(Judged::Always(Partial::False)));
    assert!(!dead_member(Judged::AtEnd(Partial::Open)));
    assert!(dead_member(Judged::SometimeAfter(Partial::True, Partial::False)));
    assert!(!dead_member(Judged::SometimeAfter(Partial::Open, Partial::False)));
    assert!(dead_member(Judged::SometimeBefore(Partial::True, Partial::Open)));
    assert!(!dead_member(Judged::AtMostOnce(Partial::False)));
}

#[test]
fn a_node_is_dead_when_any_member_of_any_binding_is_and_goal_nodes_follow() {
    let nodes = vec![
        vec![Judged::Sometime(Partial::Open), Judged::Sometime(Partial::False)],
        vec![Judged::AtMostOnce(Partial::True)],
        vec![],
    ];
    let goal = vec![Partial::False, Partial::Open];
    assert_eq!(statically_dead_soft_nodes(&nodes, &goal), vec![true, false, false, true, false]);
}
