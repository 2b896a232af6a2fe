use ferroplan::full_planning::closure::{
    closure_counterexamples, closure_holds, is_unsafe, MassReading, StateFacts,
};
use ferroplan::full_planning::session::{PolicyDecision, PolicyModel, PolicyState};
use ferroplan::full_planning::{PolicyCounterexample, PolicyCounterexampleKind};

fn decision(state: usize, remaining: Option<usize>, action: &str, outcomes: &[usize]) -> PolicyDecision {
    PolicyDecision {
        state,
        remaining,
        action: action.to_string(),
        args: vec![],
        outcomes: outcomes.to_vec(),
    }
}

fn states(goals: &[(usize, bool)]) -> Vec<PolicyState> {
    goals.iter().map(|&(id, goal)| PolicyState { id, goal }).collect()
}

fn ok(n: usize) -> Vec<MassReading> {
    (0..n).map(|_| MassReading { is_one: true, rendered: "1".to_string() }).collect()
}

fn found(kind: PolicyCounterexampleKind, state: usize, message: &str) -> PolicyCounterexample {
    PolicyCounterexample { kind, state: Some(state), message: message.to_string() }
}

#[test]
fn a_closed_policy_has_no_counterexamples() {
    let model = PolicyModel {
        states: states(&[(0, false), (1, false), (2, true)]),
        policy: vec![decision(0, Some(2), "move", &[1, 2]), decision(1, Some(1), "push", &[2])],
        horizon: Some(2),
        certain_initial: Some(0),
    };
    assert_eq!(closure_counterexamples(&model, &[0], &[], None, &ok(2)), vec![]);
}

#[test]
fn findings_come_in_walk_order() {
    let model = PolicyModel {
        states: states(&[(0, false), (1, false), (2, true)]),
        policy: vec![decision(0, Some(2), "move", &[1, 7])],
        horizon: Some(2),
        certain_initial: Some(0),
    };
    assert_eq!(
        closure_counterexamples(&model, &[0], &[], None, &ok(1)),
        vec![
            found(
                PolicyCounterexampleKind::UnknownSuccessor,
                0,
                "state 0 action move references unknown successor 7"
            ),
            found(PolicyCounterexampleKind::MissingDecision, 1, "no policy decision for state 1 at Some(1)"),
            found(PolicyCounterexampleKind::UnknownState, 7, "policy traversal reached unknown state 7"),
        ]
    );
}

#[test]
fn an_unknown_initial_state_is_reported_each_time_it_is_reached() {
    let model = PolicyModel {
        states: states(&[(0, true)]),
        policy: vec![],
        horizon: None,
        certain_initial: None,
    };
    assert_eq!(
        closure_counterexamples(&model, &[9, 0, 9], &[], None, &[]),
        vec![
            found(PolicyCounterexampleKind::UnknownState, 9, "policy traversal reached unknown state 9"),
            found(PolicyCounterexampleKind::UnknownState, 9, "policy traversal reached unknown state 9"),
        ]
    );
}

#[test]
fn a_mass_that_is_not_one_is_reported_before_the_successors() {
    let model = PolicyModel {
        states: states(&[(0, false), (1, true)]),
        policy: vec![decision(0, None, "flip", &[1, 8])],
        horizon: None,
        certain_initial: Some(0),
    };
    let masses = vec![MassReading { is_one: false, rendered: "0.9".to_string() }];
    assert_eq!(
        closure_counterexamples(&model, &[0], &[], None, &masses),
        vec![
            found(PolicyCounterexampleKind::ProbabilityMass, 0, "outcome mass for state 0 is 0.9"),
            found(
                PolicyCounterexampleKind::UnknownSuccessor,
                0,
                "state 0 action flip references unknown successor 8"
            ),
            found(PolicyCounterexampleKind::UnknownState, 8, "policy traversal reached unknown state 8"),
        ]
    );
}

#[test]
fn an_unbounded_cycle_is_walked_once() {
    let model = PolicyModel {
        states: states(&[(0, false), (1, false)]),
        policy: vec![decision(0, None, "go", &[1]), decision(1, None, "back", &[0])],
        horizon: None,
        certain_initial: Some(0),
    };
    assert_eq!(closure_counterexamples(&model, &[0], &[], None, &ok(2)), vec![]);
}

#[test]
fn a_missing_decision_at_an_unbounded_horizon_reads_none() {
    let model = PolicyModel {
        states: states(&[(0, false)]),
        policy: vec![],
        horizon: None,
        certain_initial: Some(0),
    };
    assert_eq!(
        closure_counterexamples(&model, &[0], &[], None, &[]),
        vec![found(PolicyCounterexampleKind::MissingDecision, 0, "no policy decision for state 0 at None")]
    );
}

#[test]
fn the_last_decision_for_a_visit_counts() {
    let model = PolicyModel {
        states: states(&[(0, false), (1, true)]),
        policy: vec![decision(0, Some(1), "first", &[5]), decision(0, Some(1), "second", &[1])],
        horizon: Some(1),
        certain_initial: Some(0),
    };
    assert_eq!(closure_counterexamples(&model, &[0], &[], None, &ok(2)), vec![]);
}

#[test]
fn unsafe_and_exhausted_states_end_the_walk() {
    let model = PolicyModel {
        states: states(&[(0, false), (1, false), (2, false)]),
        policy: vec![decision(0, Some(1), "go", &[1, 2])],
        horizon: Some(1),
        certain_initial: Some(0),
    };
    // Both successors arrive with no horizon left.
    assert_eq!(closure_counterexamples(&model, &[0], &[], None, &ok(1)), vec![]);
    // State 0 itself is unsafe: nothing is asked of it.
    let facts = vec![StateFacts { id: 0, facts: vec!["(Broken Pump)".to_string()] }];
    let bare = PolicyModel {
        states: states(&[(0, false)]),
        policy: vec![],
        horizon: None,
        certain_initial: Some(0),
    };
    assert_eq!(closure_counterexamples(&bare, &[0], &facts, Some("(broken pump)"), &[]), vec![]);
    assert_eq!(
        closure_counterexamples(&bare, &[0], &facts, Some("(broken valve)"), &[]),
        vec![found(PolicyCounterexampleKind::MissingDecision, 0, "no policy decision for state 0 at None")]
    );
}

#[test]
fn unsafety_reads_the_first_entry_for_a_state_ignoring_ascii_case() {
    let facts = vec![
        StateFacts { id: 3, facts: vec!["(ok)".to_string(), "(ON FIRE)".to_string()] },
        StateFacts { id: 3, facts: vec![] },
        StateFacts { id: 4, facts: vec!["(on fire)".to_string()] },
    ];
    assert!(is_unsafe(&facts, 3, Some("(on fire)")));
    assert!(is_unsafe(&facts, 4, Some("(On Fire)")));
    assert!(!is_unsafe(&facts, 3, None));
    assert!(!is_unsafe(&facts, 5, Some("(on fire)")));
    assert!(!is_unsafe(&facts, 3, Some("(on fire) ")));
}

#[test]
fn closure_holds_unless_a_closure_defect_is_found() {
    assert!(closure_holds(&[]));
    let other = PolicyCounterexample {
        kind: PolicyCounterexampleKind::BellmanResidual,
        state: None,
        message: "residual".to_string(),
    };
    assert!(closure_holds(&[other.clone()]));
    let threshold = PolicyCounterexample {
        kind: PolicyCounterexampleKind::UnsafeThreshold,
        state: None,
        message: "one or more hard risk constraints failed".to_string(),
    };
    assert!(closure_holds(&[other.clone(), threshold]));
    for kind in [
        PolicyCounterexampleKind::UnknownState,
        PolicyCounterexampleKind::MissingDecision,
        PolicyCounterexampleKind::ProbabilityMass,
        PolicyCounterexampleKind::UnknownSuccessor,
    ] {
        assert!(!closure_holds(&[other.clone(), found(kind, 1, "x")]));
    }
}
