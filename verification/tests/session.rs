use ferroplan::full_planning::{policy_verdict, Standing, StandingReason};
use ferroplan::full_planning::session::{
    display_action, replace_section, PolicyDecision, PolicyModel, PolicySession, PolicyState,
};
use ferroplan::full_planning::{PolicySessionError, PolicySessionPhase};

fn decision(state: usize, remaining: Option<usize>, action: &str, args: &[&str], outcomes: &[usize]) -> PolicyDecision {
    PolicyDecision {
        state,
        remaining,
        action: action.to_string(),
        args: args.iter().map(|a| a.to_string()).collect(),
        outcomes: outcomes.to_vec(),
    }
}

/// Two steps of horizon: from 0 `move a b` lands in 1 or 2; from 1 `push b`
/// reaches the goal 3; state 2 has no decision left.
fn model(certain_initial: Option<usize>) -> PolicyModel {
    PolicyModel {
        states: vec![
            PolicyState { id: 0, goal: false },
            PolicyState { id: 1, goal: false },
            PolicyState { id: 2, goal: false },
            PolicyState { id: 3, goal: true },
        ],
        policy: vec![
            decision(0, Some(2), "move", &["a", "b"], &[1, 2]),
            decision(1, Some(1), "push", &["b"], &[3]),
        ],
        horizon: Some(2),
        certain_initial,
    }
}

#[test]
fn a_certain_initial_state_opens_a_ready_session() {
    let s = PolicySession::from_solution(model(Some(0)), true);
    let st = s.status();
    assert_eq!(st.phase, PolicySessionPhase::Ready);
    assert_eq!(st.current_state, Some(0));
    assert_eq!(st.remaining, Some(2));
    assert_eq!(st.selected_action, None);
    assert!(st.policy_valid);
    assert_eq!(st.predecessor_receipt, None);
}

#[test]
fn an_ambiguous_initial_state_requires_an_observation() {
    let mut s = PolicySession::from_solution(model(None), true);
    assert_eq!(s.status().phase, PolicySessionPhase::ObservationRequired);
    assert!(!s.policy_still_valid());
    assert_eq!(
        s.decide(),
        Err(PolicySessionError::InvalidPhase(PolicySessionPhase::ObservationRequired))
    );
    assert_eq!(s.observe(0), Ok(()));
    assert_eq!(s.status().phase, PolicySessionPhase::Ready);
    assert_eq!(s.status().current_state, Some(0));
    assert_eq!(s.status().remaining, Some(2));
}

#[test]
fn the_session_walks_the_policy_to_the_goal() {
    let mut s = PolicySession::from_solution(model(Some(0)), true);
    let d = s.decide().unwrap().unwrap();
    assert_eq!(d, decision(0, Some(2), "move", &["a", "b"], &[1, 2]));
    assert_eq!(s.status().phase, PolicySessionPhase::ActionSelected);
    assert_eq!(s.status().selected_action, Some("move a b".to_string()));
    assert_eq!(s.mark_awaiting_observation(), Ok(()));
    assert_eq!(s.status().phase, PolicySessionPhase::AwaitingObservation);
    assert_eq!(s.advance(1), Ok(()));
    let st = s.status();
    assert_eq!(st.phase, PolicySessionPhase::Ready);
    assert_eq!(st.current_state, Some(1));
    assert_eq!(st.remaining, Some(1));
    assert_eq!(st.selected_action, None);
    let d = s.decide().unwrap().unwrap();
    assert_eq!(display_action(&d), "push b");
    assert_eq!(s.observe(3), Ok(()));
    assert_eq!(s.status().current_state, Some(3));
    assert_eq!(s.status().remaining, Some(0));
    assert_eq!(s.decide(), Ok(None));
    assert_eq!(s.status().phase, PolicySessionPhase::Ready);
}

#[test]
fn an_outcome_the_action_does_not_admit_drifts_the_session() {
    let mut s = PolicySession::from_solution(model(Some(0)), true);
    s.decide().unwrap();
    assert_eq!(
        s.advance(3),
        Err(PolicySessionError::OutcomeNotAdmitted { state: 3, action: "move a b".to_string() })
    );
    let st = s.status();
    assert_eq!(st.phase, PolicySessionPhase::Drifted);
    assert_eq!(st.current_state, Some(0));
    assert_eq!(st.remaining, Some(2));
    assert_eq!(st.selected_action, Some("move a b".to_string()));
}

#[test]
fn a_state_outside_the_model_drifts_the_session() {
    let mut s = PolicySession::from_solution(model(Some(0)), true);
    assert_eq!(s.observe(9), Err(PolicySessionError::UnknownState(9)));
    assert_eq!(s.status().phase, PolicySessionPhase::Drifted);
    assert_eq!(s.status().current_state, Some(0));
}

#[test]
fn advancing_without_a_selected_action_is_refused() {
    let mut s = PolicySession::from_solution(model(Some(0)), true);
    assert_eq!(s.advance(1), Err(PolicySessionError::InvalidPhase(PolicySessionPhase::Ready)));
    assert_eq!(
        s.mark_awaiting_observation(),
        Err(PolicySessionError::InvalidPhase(PolicySessionPhase::Ready))
    );
    assert_eq!(s.status().phase, PolicySessionPhase::Ready);
}

#[test]
fn a_state_without_a_decision_leaves_the_policy_open() {
    let mut s = PolicySession::from_solution(model(Some(0)), true);
    s.decide().unwrap();
    assert_eq!(s.advance(2), Ok(()));
    assert!(!s.policy_still_valid());
    assert!(!s.status().policy_valid);
    assert_eq!(
        s.decide(),
        Err(PolicySessionError::PolicyNotClosed { state: 2, remaining: Some(1) })
    );
}

#[test]
fn an_unverified_policy_is_never_reported_valid() {
    let s = PolicySession::from_solution(model(Some(0)), false);
    assert!(s.policy_still_valid());
    assert!(!s.status().policy_valid);
}

#[test]
fn a_fork_walks_on_its_own() {
    let mut s = PolicySession::from_solution(model(Some(0)), true);
    s.decide().unwrap();
    let mut f = s.fork();
    assert_eq!(f.status(), s.status());
    assert_eq!(f.advance(1), Ok(()));
    assert_eq!(f.status().current_state, Some(1));
    assert_eq!(s.status().current_state, Some(0));
    assert_eq!(s.status().phase, PolicySessionPhase::ActionSelected);
}

#[test]
fn closing_drops_the_selection_and_keeps_the_receipt_link() {
    let mut s = PolicySession::from_solution(model(Some(0)), true);
    s.set_predecessor_receipt(Some("abc".to_string()));
    s.decide().unwrap();
    s.close();
    let st = s.status();
    assert_eq!(st.phase, PolicySessionPhase::Closed);
    assert_eq!(st.selected_action, None);
    assert_eq!(st.predecessor_receipt, Some("abc".to_string()));
    assert_eq!(s.decide(), Err(PolicySessionError::InvalidPhase(PolicySessionPhase::Closed)));
}

#[test]
fn replace_section_rewrites_the_named_form() {
    let problem = "(define (problem p) (:init (at a) (free b)) (:goal (and (at b))))";
    assert_eq!(
        replace_section(problem, ":goal", "(at c)"),
        Ok("(define (problem p) (:init (at a) (free b)) (:goal (at c)))".to_string())
    );
    assert_eq!(
        replace_section(problem, ":init", "(at c)"),
        Ok("(define (problem p) (:init (at c)) (:goal (and (at b))))".to_string())
    );
}

#[test]
fn replace_section_finds_the_form_whatever_its_case() {
    let problem = "(define (problem p) (:GOAL (and (x))) (:init))";
    assert_eq!(
        replace_section(problem, ":goal", "(y)"),
        Ok("(define (problem p) (:goal (y)) (:init))".to_string())
    );
}

#[test]
fn replace_section_refuses_a_missing_or_open_form() {
    assert_eq!(
        replace_section("(define (problem p) (:init))", ":goal", "(y)"),
        Err(PolicySessionError::Rewrite(":goal".to_string()))
    );
    assert_eq!(
        replace_section("(define (problem p) (:goal (and (x))", ":goal", "(y)"),
        Err(PolicySessionError::Rewrite(":goal".to_string()))
    );
}

#[test]
fn a_policy_verdict_names_the_first_check_that_failed() {
    assert_eq!(
        policy_verdict(true, true, true, true),
        (true, Standing::PartialAlive, StandingReason::NoReplay)
    );
    assert_eq!(
        policy_verdict(true, false, false, false),
        (false, Standing::Blocked, StandingReason::ConvergenceLimit)
    );
    assert_eq!(
        policy_verdict(true, false, true, false),
        (false, Standing::Blocked, StandingReason::ConstraintViolation)
    );
    assert_eq!(
        policy_verdict(true, false, true, true),
        (false, Standing::Blocked, StandingReason::PolicyNotClosed)
    );
    assert_eq!(
        policy_verdict(false, true, true, true),
        (false, Standing::Blocked, StandingReason::VerifierDisagreement)
    );
}
