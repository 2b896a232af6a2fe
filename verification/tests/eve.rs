use ferroplan::eve::{
    Activator, CapabilityTarget, Eve, EveError, EveRequest, EveStage, GenesisWorld, HddlSurface,
    HumanPurpose, ManufactureTarget, PlanningRegime, PpddlSurface, EVE_PROTOCOL,
    MAX_PRIMARY_ACTIVATORS,
};
use ferroplan::eve::validate_required;

fn request(ppddl: bool, activators: Vec<Activator>) -> EveRequest {
    EveRequest {
        purpose: HumanPurpose {
            statement: "Do the one thing".to_string(),
            desired_consequence: "done holds".to_string(),
            actor: None,
            activators,
        },
        genesis: GenesisWorld {
            ontology_rdf: "@prefix fp: <urn:ferroplan:> .".to_string(),
            construct_query: "CONSTRUCT { ?s ?p ?o } WHERE { ?s ?p ?o }".to_string(),
            hddl: HddlSurface {
                domain: "(define (domain eve-micro))".to_string(),
                problem: "(define (problem eve-micro-p1))".to_string(),
                root_task: "(do-thing)".to_string(),
            },
            ppddl: if ppddl {
                Some(PpddlSurface {
                    domain: "(define (domain eve-micro-uncertain))".to_string(),
                    problem: "(define (problem eve-micro-uncertain-p1))".to_string(),
                })
            } else {
                None
            },
        },
        manufacture: ManufactureTarget {
            name: "do-thing.part".to_string(),
            template: "ggen://truex/part".to_string(),
            artifact_kind: ".part.wasm".to_string(),
            output: "target/parts/do-thing.part.wasm".to_string(),
        },
        capability: CapabilityTarget {
            capability: "do-thing".to_string(),
            route: "powl://do-thing/v1".to_string(),
            authority_scopes: vec![],
        },
    }
}

fn act(i: usize) -> Activator {
    Activator { name: format!("a{i}"), value: format!("v{i}") }
}

fn field(buf: &mut Vec<u8>, s: &str) {
    buf.extend_from_slice(&(s.len() as u64).to_le_bytes());
    buf.extend_from_slice(s.as_bytes());
}

/// The framing written out independently, hashed with the BLAKE3 crate.
fn expected_closure(r: &EveRequest) -> String {
    let mut b = Vec::new();
    field(&mut b, EVE_PROTOCOL);
    field(&mut b, &r.purpose.statement);
    field(&mut b, &r.purpose.desired_consequence);
    match &r.purpose.actor {
        Some(a) => {
            b.push(1);
            field(&mut b, a);
        }
        None => b.push(0),
    }
    b.extend_from_slice(&(r.purpose.activators.len() as u64).to_le_bytes());
    for a in &r.purpose.activators {
        field(&mut b, &a.name);
        field(&mut b, &a.value);
    }
    field(&mut b, &r.genesis.ontology_rdf);
    field(&mut b, &r.genesis.construct_query);
    field(&mut b, &r.genesis.hddl.domain);
    field(&mut b, &r.genesis.hddl.problem);
    field(&mut b, &r.genesis.hddl.root_task);
    match &r.genesis.ppddl {
        Some(p) => {
            b.push(1);
            field(&mut b, &p.domain);
            field(&mut b, &p.problem);
        }
        None => b.push(0),
    }
    field(&mut b, &r.manufacture.name);
    field(&mut b, &r.manufacture.template);
    field(&mut b, &r.manufacture.artifact_kind);
    field(&mut b, &r.manufacture.output);
    field(&mut b, &r.capability.capability);
    field(&mut b, &r.capability.route);
    b.extend_from_slice(&(r.capability.authority_scopes.len() as u64).to_le_bytes());
    for s in &r.capability.authority_scopes {
        field(&mut b, s);
    }
    format!("eve:{}", blake3::hash(&b).to_hex())
}

#[test]
fn deterministic_handoff_carries_the_request() {
    let r = request(false, vec![act(0)]);
    let h = Eve::enter(r.clone()).expect("valid Eve request");
    assert_eq!(h.protocol, "ferroplan.eve-genesis.v1");
    assert_eq!(h.planning_regime, PlanningRegime::Deterministic);
    assert_eq!(
        h.stages,
        vec![
            EveStage::GroundHumanPurpose,
            EveStage::ProjectGenesis,
            EveStage::DecomposeHddl,
            EveStage::ManufactureGgen,
            EveStage::ExposeMcpPlus,
            EveStage::ActuateBrce,
            EveStage::ObserveOcel2,
            EveStage::ConformTruexKernel,
            EveStage::AdmitReceipt,
            EveStage::ReplayTruex,
        ]
    );
    assert_eq!(h.goal.root_task, "(do-thing)");
    assert_eq!(h.goal.activators, r.purpose.activators);
    assert_eq!(h.hddl.problem, r.genesis.hddl.problem);
    assert!(h.ppddl.is_none());
    assert!(h.ggen.candidate_only);
    assert!(!h.mcp_plus.ambient_authority);
    assert!(h.mcp_plus.brce_required);
    assert_eq!(h.mcp_plus.receipt_obligations.len(), 6);
    assert_eq!(h.mcp_plus.receipt_obligations[5], "replay");
    assert_eq!(h.truex.expected_process_geometry, "POWL-v2");
    assert!(h.truex.replay_required);
    assert_eq!(h.closure_id, expected_closure(&r));
    assert_eq!(h.ggen.closure_id, h.closure_id);
    assert_eq!(h.mcp_plus.closure_id, h.closure_id);
    assert_eq!(h.closure_id.len(), 4 + 64);
}

#[test]
fn probabilistic_handoff_adds_the_ppddl_stage_and_request() {
    let r = request(true, vec![]);
    let h = Eve::enter(r.clone()).unwrap();
    assert_eq!(h.planning_regime, PlanningRegime::Probabilistic);
    assert_eq!(h.stages[3], EveStage::GovernUncertaintyPpddl);
    assert_eq!(h.stages.len(), 11);
    assert_eq!(h.ppddl.as_ref().unwrap().domain, "(define (domain eve-micro-uncertain))");
    assert_eq!(h.closure_id, expected_closure(&r));
    let d = Eve::enter(request(false, vec![])).unwrap();
    assert_ne!(d.closure_id, h.closure_id);
}

#[test]
fn closure_identity_is_deterministic_and_binds_every_field() {
    let a = Eve::enter(request(false, vec![act(1)])).unwrap();
    let b = Eve::enter(request(false, vec![act(1)])).unwrap();
    assert_eq!(a.closure_id, b.closure_id);
    let mut r = request(false, vec![act(1)]);
    r.capability.authority_scopes = vec!["scope".to_string()];
    let c = Eve::enter(r.clone()).unwrap();
    assert_ne!(a.closure_id, c.closure_id);
    assert_eq!(c.closure_id, expected_closure(&r));
    let mut r2 = request(false, vec![act(1)]);
    r2.purpose.actor = Some("ops".to_string());
    assert_eq!(Eve::enter(r2.clone()).unwrap().closure_id, expected_closure(&r2));
}

#[test]
fn blank_required_fields_are_refused_in_order() {
    let mut r = request(false, vec![]);
    r.purpose.statement = "  \t".to_string();
    r.manufacture.name = String::new();
    assert_eq!(
        Eve::enter(r).unwrap_err(),
        EveError::Missing { field: "purpose.statement".to_string() }
    );
    let mut r = request(true, vec![]);
    r.genesis.ppddl.as_mut().unwrap().problem = " ".to_string();
    assert_eq!(
        Eve::enter(r).unwrap_err(),
        EveError::Missing { field: "genesis.ppddl.problem".to_string() }
    );
    let mut r = request(false, vec![]);
    r.purpose.actor = Some(String::new());
    assert_eq!(
        Eve::enter(r).unwrap_err(),
        EveError::Missing { field: "purpose.actor".to_string() }
    );
}

#[test]
fn nine_activators_require_a_split() {
    let acts: Vec<Activator> = (0..(MAX_PRIMARY_ACTIVATORS + 1)).map(act).collect();
    match Eve::enter(request(false, acts.clone())).unwrap_err() {
        EveError::SplitRequired { directive } => {
            assert_eq!(directive.provided, 9);
            assert_eq!(directive.maximum, 8);
            assert_eq!(directive.groups.len(), 2);
            assert_eq!(directive.groups[0], acts[..8].to_vec());
            assert_eq!(directive.groups[1], acts[8..].to_vec());
        }
        other => panic!("expected a split, got {other:?}"),
    }
    let acts: Vec<Activator> = (0..16).map(act).collect();
    match Eve::enter(request(false, acts)).unwrap_err() {
        EveError::SplitRequired { directive } => {
            assert_eq!(directive.groups.len(), 2);
            assert_eq!(directive.groups[1].len(), 8);
        }
        other => panic!("expected a split, got {other:?}"),
    }
}

#[test]
fn member_fields_are_checked_after_the_split_rule() {
    let mut acts: Vec<Activator> = (0..3).map(act).collect();
    acts[2].value = " ".to_string();
    assert_eq!(
        Eve::enter(request(false, acts)).unwrap_err(),
        EveError::Missing { field: "purpose.activators[2].value".to_string() }
    );
    let mut r = request(false, vec![act(0)]);
    r.capability.authority_scopes = vec!["a".to_string(), "".to_string()];
    assert_eq!(
        Eve::enter(r).unwrap_err(),
        EveError::Missing { field: "capability.authority_scopes[1]".to_string() }
    );
    // A blank activator among nine still yields the split directive first.
    let mut acts: Vec<Activator> = (0..9).map(act).collect();
    acts[0].name = String::new();
    assert!(matches!(
        Eve::enter(request(false, acts)).unwrap_err(),
        EveError::SplitRequired { .. }
    ));
}

#[test]
fn a_required_field_must_hold_more_than_whitespace() {
    assert_eq!(
        validate_required("purpose.statement", " \t\n"),
        Err(EveError::Missing { field: "purpose.statement".to_string() })
    );
    assert_eq!(
        validate_required("purpose.statement", ""),
        Err(EveError::Missing { field: "purpose.statement".to_string() })
    );
    assert_eq!(validate_required("purpose.statement", " x "), Ok(()));
}
