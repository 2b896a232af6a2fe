use ferroplan::dfcm_route::{
    admit_candidates, corridor_problem, repair_report, repair_route, suffix_start, ProbeCandidate,
    RepairRoute, MAX_PROBE_CANDIDATES, MAX_PROBE_FACT_BYTES, MAX_PROBE_OBSERVATIONS,
};

fn c(id: &str) -> ProbeCandidate {
    ProbeCandidate {
        id: id.into(),
        goal: None,
        sight: vec![],
        restrict_contains: None,
    }
}

#[test]
fn admission_refuses_each_malformed_request_shape() {
    assert_eq!(
        admit_candidates(&[], 16, "x").unwrap_err().0,
        "FP_LIMIT_CANDIDATES"
    );
    let many = (0..=MAX_PROBE_CANDIDATES)
        .map(|i| c(&format!("c{i}")))
        .collect::<Vec<_>>();
    assert_eq!(
        admit_candidates(&many, 16, "x").unwrap_err().0,
        "FP_LIMIT_CANDIDATES"
    );
    assert_eq!(
        admit_candidates(&[c("")], 16, "x").unwrap_err().0,
        "FP_LIMIT_CANDIDATE"
    );
    assert_eq!(
        admit_candidates(&[c("a"), c("a")], 16, "x").unwrap_err().0,
        "FP_DUPLICATE_CANDIDATE"
    );
    let mut long_goal = c("g");
    long_goal.goal = Some("x".repeat(17));
    let refusal = admit_candidates(&[long_goal], 16, "demo").unwrap_err();
    assert_eq!(refusal.0, "FP_LIMIT_CANDIDATE");
    assert!(refusal.1.contains("demo probe limit"), "{refusal:?}");
    assert!(admit_candidates(&[c("a"), c("b")], 16, "x").is_ok());
}

#[test]
fn admission_messages_name_the_offending_id() {
    let r = admit_candidates(&[c("ok"), c("")], 16, "x").unwrap_err();
    assert_eq!(r.1, "candidate id `` must be 1..=256 bytes");
    let r = admit_candidates(&[c("p"), c("q"), c("p")], 16, "x").unwrap_err();
    assert_eq!(r.1, "candidate id `p` is delivered more than once");
    let r = admit_candidates(&[], 16, "x").unwrap_err();
    assert_eq!(r.1, "candidates must contain between 1 and 32 entries");
}

#[test]
fn admission_limits_sight_and_restriction() {
    let mut many_obs = c("a");
    many_obs.sight = (0..=MAX_PROBE_OBSERVATIONS).map(|i| (format!("(f{i})"), true)).collect();
    let r = admit_candidates(&[many_obs], 16, "wasi").unwrap_err();
    assert_eq!(r.0, "FP_LIMIT_CANDIDATE");
    assert_eq!(
        r.1,
        "candidate id, goal, observation, or restriction exceeds the wasi probe limit"
    );
    let mut big_fact = c("a");
    big_fact.sight = vec![("x".repeat(MAX_PROBE_FACT_BYTES + 1), false)];
    assert_eq!(admit_candidates(&[big_fact], 16, "x").unwrap_err().0, "FP_LIMIT_CANDIDATE");
    let mut big_filter = c("a");
    big_filter.restrict_contains = Some("x".repeat(MAX_PROBE_FACT_BYTES + 1));
    assert_eq!(admit_candidates(&[big_filter], 16, "x").unwrap_err().0, "FP_LIMIT_CANDIDATE");
    let mut edge = c("a");
    edge.goal = Some("x".repeat(16));
    edge.sight = vec![("x".repeat(MAX_PROBE_FACT_BYTES), true)];
    edge.restrict_contains = Some("x".repeat(MAX_PROBE_FACT_BYTES));
    assert!(admit_candidates(&[edge], 16, "x").is_ok());
    // The id check comes before the duplicate check.
    assert_eq!(admit_candidates(&[c("a"), c("a"), c("")], 16, "x").unwrap_err().0, "FP_LIMIT_CANDIDATE");
}

#[test]
fn corridor_problem_of_size_two_is_exact() {
    assert_eq!(
        corridor_problem(2),
        "(define (problem corridor2) (:domain corridor) (:objects r0 r1 r2 x0 y0 - room) \
         (:init (at r0) (clear r0) (clear r1) (clear r2) (link r0 r1) (clear x0) (clear y0) \
         (link r0 x0) (link x0 y0) (link y0 r2) (link r1 r2)) (:goal (at r2)))"
    );
}

#[test]
fn corridor_problem_edge_sizes() {
    assert_eq!(
        corridor_problem(0),
        "(define (problem corridor0) (:domain corridor) (:objects r0 - room) (:init (at r0) (clear r0)) (:goal (at r0)))"
    );
    let p = corridor_problem(12);
    assert!(p.starts_with("(define (problem corridor12) "));
    assert!(p.ends_with("(:goal (at r12)))"));
    assert!(p.contains("(link y10 r12)"));
    assert!(!p.contains("x11"));
}

#[test]
fn the_repair_router_takes_the_cheapest_reversible_option() {
    assert_eq!(repair_route(true, true, false), RepairRoute::GoalMet);
    assert_eq!(repair_route(true, false, false), RepairRoute::GoalMet);
    assert_eq!(repair_route(false, true, true), RepairRoute::ReuseSuffix);
    assert_eq!(repair_route(false, true, false), RepairRoute::Follow);
    assert_eq!(repair_route(false, false, true), RepairRoute::Full);
}

#[test]
fn the_repair_report_names_decision_and_trigger() {
    let r = repair_report(RepairRoute::GoalMet, false);
    assert_eq!((r.decision, r.trigger, r.plan_valid), ("goal_met", "goal_met", None));
    let r = repair_report(RepairRoute::ReuseSuffix, false);
    assert_eq!((r.decision, r.trigger, r.plan_valid), ("reuse_suffix", "none", Some(true)));
    let r = repair_report(RepairRoute::Follow, true);
    assert_eq!((r.decision, r.trigger, r.plan_valid), ("replanned_following", "invalid_plan", Some(false)));
    let r = repair_report(RepairRoute::Follow, false);
    assert_eq!((r.decision, r.trigger, r.plan_valid), ("replan_unsolved", "invalid_plan", Some(false)));
    let r = repair_report(RepairRoute::Full, true);
    assert_eq!((r.decision, r.trigger, r.plan_valid), ("replanned_full", "no_plan", None));
    let r = repair_report(RepairRoute::Full, false);
    assert_eq!((r.decision, r.trigger, r.plan_valid), ("replan_unsolved", "no_plan", None));
    assert_eq!(suffix_start(3, 5), 3);
    assert_eq!(suffix_start(7, 5), 5);
}
