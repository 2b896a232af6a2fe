use ferroplan::features::{
    clear_overrides, demand_mode, escalate, espc, set_escalate_override, set_espc_override,
    set_overrides, tconc, tdecomp, tdemand, DemandMode, EnvFlags, Override, Overrides,
};

fn env() -> EnvFlags {
    EnvFlags {
        ff_tdemand: false,
        ff_no_tdemand: false,
        ff_tdecomp: false,
        ff_no_escalate: false,
        ff_tconc: false,
        ff_no_espc: false,
    }
}

#[test]
fn defaults_follow_the_documented_settings() {
    let o = Overrides::new();
    let e = env();
    assert_eq!(demand_mode(&o, &e), DemandMode::Numeric);
    assert!(tdemand(&o, &e));
    assert!(!tdecomp(&o, &e));
    assert!(escalate(&o, &e));
    assert!(!tconc(&o, &e));
    assert!(espc(&o, &e));
}

#[test]
fn environment_steers_unset_switches() {
    let o = Overrides::new();
    let mut e = env();
    e.ff_tdemand = true;
    e.ff_no_tdemand = true;
    assert_eq!(demand_mode(&o, &e), DemandMode::Full);
    e.ff_tdemand = false;
    assert_eq!(demand_mode(&o, &e), DemandMode::Off);
    assert!(!tdemand(&o, &e));
    e.ff_no_escalate = true;
    e.ff_no_espc = true;
    e.ff_tdecomp = true;
    e.ff_tconc = true;
    assert!(!escalate(&o, &e) && !espc(&o, &e) && tdecomp(&o, &e) && tconc(&o, &e));
}

#[test]
fn overrides_are_orders_until_cleared() {
    let mut o = Overrides::new();
    let mut e = env();
    e.ff_tdemand = true;
    e.ff_tdecomp = true;
    set_overrides(&mut o, false, false, true);
    assert_eq!(demand_mode(&o, &e), DemandMode::Off);
    assert!(!tdecomp(&o, &e));
    assert!(tconc(&o, &e));
    set_overrides(&mut o, true, true, false);
    assert_eq!(demand_mode(&o, &e), DemandMode::Full);
    set_escalate_override(&mut o, false);
    set_espc_override(&mut o, false);
    assert!(!escalate(&o, &e) && !espc(&o, &e));
    assert_eq!(o.tconc, Override::Off);
    clear_overrides(&mut o);
    assert_eq!(o, Overrides::new());
    assert_eq!(demand_mode(&o, &e), DemandMode::Full);
    assert!(escalate(&o, &e));
}

#[test]
fn the_master_switch_takes_the_escalation_ladder_down_too() {
    let mut o = Overrides::new();
    let mut e = env();
    e.ff_no_tdemand = true;
    assert!(!escalate(&o, &e));
    set_escalate_override(&mut o, true);
    assert!(escalate(&o, &e));
    clear_overrides(&mut o);
    assert!(!escalate(&o, &e));
}
