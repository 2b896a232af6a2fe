use ferroplan::constraints::{
    is_anon_pref, is_monitor_fact, is_monitor_fluent, reject_reserved_names, CLOCK_FLUENT,
    END_ACTION,
};

fn names(v: &[&str]) -> Vec<String> {
    v.iter().map(|s| s.to_string()).collect()
}

#[test]
fn monitor_fact_names_are_recognised_exactly() {
    for n in ["TRAJ-PLANNING", "TRAJ-ENDED", "TRAJ0-VIOL", "TRAJ12-SEEN", "TRAJ3-HOLD", "TRAJ3-PEND", "TRAJ3-SAFE", "TRAJ3-ACC"] {
        assert!(is_monitor_fact(n), "{n}");
    }
    for n in ["TRAJ", "TRAJ-VIOL", "TRAJX-VIOL", "TRAJ3", "TRAJ3-", "TRAJ3-VIOL-X", "traj3-viol", "TRAJ3-DUE", "XTRAJ3-VIOL", "TRAJ-END"] {
        assert!(!is_monitor_fact(n), "{n}");
    }
}

#[test]
fn monitor_fluent_names_are_recognised_exactly() {
    assert_eq!(CLOCK_FLUENT, "TRAJ-CLOCK");
    assert!(is_monitor_fluent("TRAJ-CLOCK"));
    assert!(is_monitor_fluent("TRAJ7-DUE"));
    assert!(!is_monitor_fluent("TRAJ7-VIOL"));
    assert!(!is_monitor_fluent("TRAJ-DUE"));
    assert!(!is_monitor_fluent("TRAJ7-DUE-"));
    assert!(!is_monitor_fluent("total-cost"));
}

#[test]
fn anonymous_preference_names_are_recognised_exactly() {
    assert!(is_anon_pref("TRAJPREF0"));
    assert!(is_anon_pref("TRAJPREF42"));
    assert!(!is_anon_pref("TRAJPREF"));
    assert!(!is_anon_pref("TRAJPREFx"));
    assert!(!is_anon_pref("p-TRAJPREF1"));
    assert!(!is_anon_pref("trajpref1"));
}

#[test]
fn names_outside_the_reserved_namespaces_pass() {
    assert_eq!(
        reject_reserved_names(
            &names(&["at", "clear", "TRAJ"]),
            &names(&["total-cost", "TRAJ-DUE"]),
            &names(&["move", "TRAJ-ENDS"]),
            &names(&["p1", "TRAJPREF"]),
        ),
        Ok(())
    );
    assert_eq!(reject_reserved_names(&[], &[], &[], &[]), Ok(()));
}

#[test]
fn each_reserved_namespace_is_refused_with_its_message() {
    assert_eq!(
        reject_reserved_names(&names(&["at", "TRAJ3-VIOL"]), &[], &[], &[]),
        Err("predicate `TRAJ3-VIOL` collides with ferroplan's reserved trajectory-monitor namespace (TRAJ{n}-VIOL/SEEN/HOLD/PEND/SAFE/ACC, TRAJ-PLANNING, TRAJ-ENDED) used to compile (:constraints ...); rename the predicate".to_string())
    );
    assert_eq!(
        reject_reserved_names(&[], &names(&["TRAJ-CLOCK"]), &[], &[]),
        Err("function `TRAJ-CLOCK` collides with ferroplan's reserved trajectory-monitor fluent namespace (TRAJ-CLOCK, TRAJ{n}-DUE) used to compile timed (:constraints ...); rename the function".to_string())
    );
    assert_eq!(
        reject_reserved_names(&[], &[], &names(&["move", END_ACTION]), &[]),
        Err("action `TRAJ-END` collides with ferroplan's reserved trajectory end-action name (`TRAJ-END`) used to compile (:constraints ...); rename the action".to_string())
    );
    assert_eq!(
        reject_reserved_names(&[], &[], &[], &names(&["p1", "TRAJPREF7"])),
        Err("preference name `TRAJPREF7` collides with ferroplan's reserved TRAJPREF{n} namespace (generated for anonymous constraint preferences); rename the preference".to_string())
    );
}

#[test]
fn the_first_collision_in_check_order_is_reported() {
    let r = reject_reserved_names(
        &names(&["TRAJ-ENDED", "TRAJ1-SEEN"]),
        &names(&["TRAJ2-DUE"]),
        &names(&["TRAJ-END"]),
        &names(&["TRAJPREF1"]),
    );
    assert!(r.unwrap_err().starts_with("predicate `TRAJ-ENDED` collides"));
    let r = reject_reserved_names(&names(&["at"]), &names(&["TRAJ2-DUE"]), &names(&["TRAJ-END"]), &[]);
    assert!(r.unwrap_err().starts_with("function `TRAJ2-DUE` collides"));
}
