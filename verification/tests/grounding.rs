use ferroplan::action::Action;
use ferroplan::dnf::Formula;
use ferroplan::effect::Effect;
use ferroplan::ground::{ground, ground_task, GroundMode, Outcome};
use ferroplan::grounding::{ground_core, predicates_of, LiftedTask};
use ferroplan::types::Term;

fn s(x: &str) -> String {
    x.to_string()
}
fn var(x: &str) -> Term {
    Term::Var(s(x))
}
fn ga(p: &str, args: &[&str]) -> (String, Vec<String>) {
    (s(p), args.iter().map(|a| s(a)).collect())
}

fn move_action() -> Action {
    Action {
        name: s("move"),
        params: vec![(s("?from"), s("room")), (s("?to"), s("room"))],
        precond: Formula::And(vec![
            Formula::Atom(s("door"), vec![var("?from"), var("?to")]),
            Formula::Atom(s("at"), vec![var("?from")]),
        ]),
        effect: Effect::And(vec![
            Effect::Add(s("at"), vec![var("?to")]),
            Effect::Del(s("at"), vec![var("?from")]),
        ]),
        monitored: false,
    }
}

fn corridor(goal: Vec<(String, Vec<String>)>, second_door: bool) -> LiftedTask {
    let mut init = vec![ga("door", &["r1", "r2"])];
    if second_door {
        init.push(ga("door", &["r2", "r3"]));
    }
    init.push(ga("at", &["r1"]));
    LiftedTask {
        objs: vec![(s("room"), vec![s("r1"), s("r2"), s("r3")])],
        actions: vec![move_action()],
        init,
        goal,
    }
}

fn plain() -> GroundMode {
    GroundMode { dnf_static: false, mcv: false, validate: false }
}

#[test]
fn the_added_and_deleted_predicates_are_read_off_the_effects() {
    let acts = vec![move_action()];
    assert_eq!(predicates_of(&acts, true), vec![s("at")]);
    assert_eq!(predicates_of(&acts, false), vec![s("at")]);
}

#[test]
fn grounding_names_the_operator_atoms_first_then_the_initial_then_the_goal_ones() {
    let t = corridor(vec![ga("at", &["r3"]), ga("lit", &["r3"])], true);
    let g = ground_core(&t, false, false, 1000).unwrap();
    assert_eq!(
        g.facts,
        vec![
            ga("door", &["r1", "r2"]),
            ga("at", &["r1"]),
            ga("at", &["r2"]),
            ga("door", &["r2", "r3"]),
            ga("at", &["r3"]),
            ga("lit", &["r3"]),
        ]
    );
    assert_eq!(g.goal, vec![4, 5]);
    assert_eq!(g.raws.len(), 2);
    assert_eq!(g.raws[0].display, "move r1 r2");
    assert_eq!(g.raws[1].display, "move r2 r3");
    assert_eq!(g.ops[0].pre, vec![0, 1]);
    assert_eq!(g.ops[0].add, vec![2]);
    assert_eq!(g.ops[0].del, vec![1]);
    assert_eq!(g.ops[1].pre, vec![3, 2]);
    assert_eq!(g.init_true, vec![true, true, false, true, false, false]);
    assert_eq!(g.reached, vec![true, true, true, true, true, false]);
    assert_eq!(g.live, vec![true, true]);
}

#[test]
fn a_reachable_goal_goes_on_to_search() {
    match ground(&corridor(vec![ga("at", &["r3"])], true), plain(), 1000) {
        Outcome::Task(g) => {
            assert_eq!(g.goal, vec![4]);
            assert_eq!(g.ops.len(), 2);
        },
        _ => panic!("expected a task"),
    }
}

#[test]
fn a_goal_settled_by_inertia_is_true() {
    assert!(matches!(ground(&corridor(vec![ga("door", &["r1", "r2"])], true), plain(), 1000), Outcome::GoalTrue));
}

#[test]
fn a_goal_true_at_the_start_but_deletable_is_left_to_search() {
    assert!(matches!(ground(&corridor(vec![ga("at", &["r1"])], true), plain(), 1000), Outcome::Task(_)));
}

#[test]
fn a_goal_no_surviving_operator_adds_is_false_and_named() {
    match ground(&corridor(vec![ga("door", &["r1", "r2"]), ga("at", &["r3"])], false), plain(), 1000) {
        Outcome::GoalFalse(a) => assert_eq!(a, ga("at", &["r3"])),
        _ => panic!("expected a false goal"),
    }
}

#[test]
fn validation_hands_the_task_on_whatever_the_goal() {
    let mode = GroundMode { dnf_static: false, mcv: false, validate: true };
    assert!(matches!(ground(&corridor(vec![ga("door", &["r1", "r2"])], true), mode, 1000), Outcome::Task(_)));
    assert!(matches!(ground(&corridor(vec![ga("at", &["r3"])], false), mode, 1000), Outcome::Task(_)));
}

#[test]
fn a_binding_walk_out_of_ticks_exhausts_the_wall() {
    assert!(matches!(ground(&corridor(vec![ga("at", &["r3"])], true), plain(), 0), Outcome::WallExhausted));
    assert!(ground_core(&corridor(vec![], true), false, true, 0).is_none());
}

#[test]
fn the_validator_entry_hands_back_the_task_even_for_a_settled_goal() {
    let g = ground_task(&corridor(vec![ga("door", &["r1", "r2"])], true), false, false, 1000).unwrap();
    assert_eq!(g.goal, vec![0]);
    assert_eq!(g.raws.len(), 2);
    assert!(ground_task(&corridor(vec![ga("at", &["r3"])], true), false, false, 0).is_none());
}
