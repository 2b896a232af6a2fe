use ferroplan::reach::{compact_facts, goal_verdict, relaxed_reach, GoalVerdict, ReachOp};

fn op(pre: &[usize], add: &[usize], cond_add: &[usize], del: &[usize], monitored: bool) -> ReachOp {
    ReachOp {
        pre: pre.to_vec(),
        add: add.to_vec(),
        cond_add: cond_add.to_vec(),
        del: del.to_vec(),
        cond_pre: vec![],
        monitored,
    }
}

fn chain() -> (Vec<bool>, Vec<ReachOp>) {
    let init = vec![true, false, false, false, false, false];
    let ops = vec![
        op(&[0], &[1], &[], &[0], false),
        op(&[1], &[2], &[3], &[], false),
        op(&[4], &[0], &[], &[], false),
    ];
    (init, ops)
}

#[test]
fn reachability_follows_adds_and_conditional_adds_but_not_dead_operators() {
    let (init, ops) = chain();
    let (reached, live) = relaxed_reach(&init, &ops, &vec![]);
    assert_eq!(reached, vec![true, true, true, true, false, false]);
    assert_eq!(live, vec![true, true, false]);
}

#[test]
fn operators_are_found_live_in_any_order() {
    // The operator that enables the first comes after it: a second round
    // picks it up.
    let init = vec![true, false, false];
    let ops = vec![op(&[1], &[2], &[], &[], false), op(&[0], &[1], &[], &[], false)];
    let (reached, live) = relaxed_reach(&init, &ops, &vec![]);
    assert_eq!(reached, vec![true, true, true]);
    assert_eq!(live, vec![true, true]);
}

#[test]
fn the_shared_block_is_reached_with_the_first_live_monitored_operator() {
    let init = vec![true, false, false];
    let ops = vec![op(&[0], &[], &[], &[], true)];
    let (reached, _) = relaxed_reach(&init, &ops, &vec![2]);
    assert_eq!(reached, vec![true, false, true]);
    let dead = vec![op(&[1], &[], &[], &[], true)];
    let (reached, live) = relaxed_reach(&init, &dead, &vec![2]);
    assert_eq!(reached, vec![true, false, false]);
    assert_eq!(live, vec![false]);
}

#[test]
fn a_goal_true_from_the_start_and_never_deleted_is_met() {
    let init = vec![true, false];
    let ops = vec![op(&[0], &[1], &[], &[], false)];
    let (reached, live) = relaxed_reach(&init, &ops, &vec![]);
    let v = goal_verdict(&init, &reached, &ops, &live, &vec![], &vec![0], false, false);
    assert_eq!(v, GoalVerdict::Met);
    // An open numeric goal keeps it open.
    let v = goal_verdict(&init, &reached, &ops, &live, &vec![], &vec![0], true, false);
    assert_eq!(v, GoalVerdict::Open(vec![]));
}

#[test]
fn a_goal_fact_a_live_operator_deletes_is_left_for_search() {
    let (init, ops) = chain();
    let (reached, live) = relaxed_reach(&init, &ops, &vec![]);
    let v = goal_verdict(&init, &reached, &ops, &live, &vec![], &vec![0, 3], false, false);
    assert_eq!(v, GoalVerdict::Open(vec![0, 3]));
}

#[test]
fn a_delete_by_a_dead_operator_does_not_unsettle_a_goal_fact() {
    let init = vec![true, false];
    let ops = vec![op(&[1], &[], &[], &[0], false)];
    let (reached, live) = relaxed_reach(&init, &ops, &vec![]);
    let v = goal_verdict(&init, &reached, &ops, &live, &vec![], &vec![0], false, false);
    assert_eq!(v, GoalVerdict::Met);
}

#[test]
fn the_shared_block_deletes_only_once_a_monitored_operator_is_live() {
    let init = vec![true, true];
    let ops = vec![op(&[1], &[], &[], &[], true)];
    let (reached, live) = relaxed_reach(&init, &ops, &vec![]);
    let v = goal_verdict(&init, &reached, &ops, &live, &vec![0], &vec![0], false, false);
    assert_eq!(v, GoalVerdict::Open(vec![0]));
    let quiet = vec![op(&[1], &[], &[], &[], false)];
    let (reached, live) = relaxed_reach(&init, &quiet, &vec![]);
    let v = goal_verdict(&init, &reached, &quiet, &live, &vec![0], &vec![0], false, false);
    assert_eq!(v, GoalVerdict::Met);
}

#[test]
fn the_first_unreached_goal_fact_refutes_the_goal() {
    let (init, ops) = chain();
    let (reached, live) = relaxed_reach(&init, &ops, &vec![]);
    let v = goal_verdict(&init, &reached, &ops, &live, &vec![], &vec![2, 5, 4], false, false);
    assert_eq!(v, GoalVerdict::Unreachable(5));
}

#[test]
fn validation_draws_no_verdict() {
    let (init, ops) = chain();
    let (reached, live) = relaxed_reach(&init, &ops, &vec![]);
    let v = goal_verdict(&init, &reached, &ops, &live, &vec![], &vec![4], false, true);
    assert_eq!(v, GoalVerdict::Open(vec![4]));
    let v = goal_verdict(&init, &reached, &ops, &live, &vec![], &vec![], false, true);
    assert_eq!(v, GoalVerdict::Open(vec![]));
}

#[test]
fn compaction_keeps_reached_referenced_and_goal_facts_in_their_order() {
    // Facts 0..8: 0 and 1 reached; the live operator deletes 5 and tests 3
    // under a condition; the dead one names 6; the shared block names 7;
    // the goal names 4.
    let reached = vec![true, true, false, false, false, false, false, false];
    let mut live_op = op(&[0], &[1], &[], &[5], false);
    live_op.cond_pre = vec![3];
    let dead_op = op(&[2], &[6], &[], &[], false);
    let ops = vec![live_op, dead_op];
    let live = vec![true, false];
    let (map, n) = compact_facts(&reached, &live, &ops, &vec![7], &vec![4]);
    let x = u32::MAX;
    assert_eq!(map, vec![0, 1, x, 2, 3, 4, x, 5]);
    assert_eq!(n, 6);
}

#[test]
fn compaction_of_a_fully_used_space_is_the_identity() {
    let reached = vec![true, true, true];
    let (map, n) = compact_facts(&reached, &vec![], &vec![], &vec![], &vec![]);
    assert_eq!(map, vec![0, 1, 2]);
    assert_eq!(n, 3);
}

#[test]
fn a_run_of_the_operators_stays_within_the_reached_facts() {
    // Apply enabled operators for real (deletes included) and check every
    // state against the relaxed result.
    let (init, ops) = chain();
    let (reached, live) = relaxed_reach(&init, &ops, &vec![]);
    let mut state = init.clone();
    for &i in &[0usize, 1] {
        assert!(ops[i].pre.iter().all(|&f| state[f]));
        assert!(live[i]);
        for &f in &ops[i].del {
            state[f] = false;
        }
        for &f in ops[i].add.iter().chain(ops[i].cond_add.iter()) {
            state[f] = true;
        }
        for (f, &b) in state.iter().enumerate() {
            assert!(!b || reached[f]);
        }
    }
    // The dead operator is never enabled along the way.
    assert!(!ops[2].pre.iter().all(|&f| state[f]));
}
