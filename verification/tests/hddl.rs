use ferroplan::eve::{
    CapabilityTarget, Eve, EveRequest, GenesisWorld, HddlSurface, HumanPurpose, ManufactureTarget,
};
use ferroplan::hddl::{
    error_code, insert_htn_section, network_of, problem_with_eve_root_task, task_call_key,
    wire_message, HddlError, HddlTerm, TaskCall,
};

const EVE_MICRO_DOMAIN: &str = r#"(define (domain eve-micro)
  (:predicates (done))
  (:task do-thing)
  (:action act
    :parameters ()
    :precondition (and)
    :effect (and (done)))
  (:method m-do-thing
    :task (do-thing)
    :ordered-subtasks (and (t1 (act)))))"#;

fn eve_micro_request(problem: String, root_task: String) -> EveRequest {
    EveRequest {
        purpose: HumanPurpose {
            statement: "Do the one thing".to_string(),
            desired_consequence: "done holds".to_string(),
            actor: None,
            activators: vec![],
        },
        genesis: GenesisWorld {
            ontology_rdf: "@prefix fp: <urn:ferroplan:> .".to_string(),
            construct_query: "CONSTRUCT { ?s ?p ?o } WHERE { ?s ?p ?o }".to_string(),
            hddl: HddlSurface { domain: EVE_MICRO_DOMAIN.to_string(), problem, root_task },
            ppddl: None,
        },
        manufacture: ManufactureTarget {
            name: "do-thing.part".to_string(),
            template: "ggen://truex/part".to_string(),
            artifact_kind: ".part.wasm".to_string(),
            output: "target/parts/do-thing.part.wasm".to_string(),
        },
        capability: CapabilityTarget {
            capability: "do-thing".to_string(),
            route: "powl://do-thing/v1".to_string(),
            authority_scopes: vec![],
        },
    }
}

fn call(name: &str) -> TaskCall {
    TaskCall { name: name.to_string(), args: vec![] }
}

#[test]
fn eve_bridge_refuses_a_problem_network_conflicting_with_the_eve_root_task() {
    let request = eve_micro_request(
        r#"(define (problem eve-micro-p1)
  (:domain eve-micro)
  (:htn :ordered-subtasks (some-other-task))
  (:init)
  (:goal (and (done))))"#
            .to_string(),
        "(do-thing)".to_string(),
    );
    let handoff = Eve::enter(request).expect("valid Eve request");
    // The networks the HDDL grammar reads from the problem text and from
    // Eve's root task.
    let err = problem_with_eve_root_task(
        &handoff.hddl.problem,
        &handoff.hddl.root_task,
        &[call("some-other-task")],
        &[call("do-thing")],
    )
    .unwrap_err();
    match err {
        HddlError::RootTaskMismatch { root_task, problem_root_network } => {
            assert_eq!(root_task, "(do-thing)");
            assert_eq!(problem_root_network, vec!["(some-other-task)"]);
        }
        other => panic!("expected RootTaskMismatch, got {other:?}"),
    }
}

#[test]
fn eve_bridge_accepts_a_problem_whose_network_matches_the_eve_root_task() {
    // The problem's own network is Eve's root task: it passes through byte
    // for byte (solving it is the HDDL planner's part).
    let problem = r#"(define (problem eve-micro-p1)
  (:domain eve-micro)
  (:htn :ordered-subtasks (do-thing))
  (:init)
  (:goal (and (done))))"#;
    assert_eq!(
        problem_with_eve_root_task(problem, "(do-thing)", &[call("do-thing")], &[call("do-thing")]),
        Ok(problem.to_string())
    );
}

#[test]
fn a_problem_without_a_root_network_gets_eve_s_root_task_spliced_in() {
    let problem = "(define (problem p) (:init))";
    assert_eq!(
        problem_with_eve_root_task(problem, " (do-thing) ", &[], &[call("do-thing")]),
        Ok("(define (problem p) (:init)(:htn :ordered-subtasks (do-thing)))".to_string())
    );
}

#[test]
fn networks_differing_only_in_an_argument_are_a_mismatch() {
    let mine = TaskCall { name: "go".to_string(), args: vec![HddlTerm::Const("a".to_string())] };
    let eve = TaskCall { name: "go".to_string(), args: vec![HddlTerm::Const("b".to_string())] };
    assert_eq!(
        problem_with_eve_root_task("(define (problem p))", "(go b)", &[mine], &[eve]),
        Err(HddlError::RootTaskMismatch {
            root_task: "(go b)".to_string(),
            problem_root_network: vec!["(go a)".to_string()],
        })
    );
}

#[test]
fn task_calls_render_with_their_own_tokens() {
    assert_eq!(task_call_key("do-thing", &[]), "(do-thing)");
    assert_eq!(
        task_call_key(
            "move",
            &[HddlTerm::Var("from".to_string()), HddlTerm::Const("room-b".to_string())]
        ),
        "(move ?from room-b)"
    );
    assert_eq!(
        network_of(&[call("a"), TaskCall { name: "b".to_string(), args: vec![HddlTerm::Var("x".to_string())] }]),
        vec!["(a)".to_string(), "(b ?x)".to_string()]
    );
}

#[test]
fn eve_bridge_splices_the_root_task_before_the_closing_paren_even_with_a_trailing_comment() {
    let problem = r#"(define (problem eve-micro-p1)
  (:domain eve-micro)
  (:init)
  (:goal (and (done))))
; trailing comment after the problem form)"#;
    let spliced = insert_htn_section(problem, "(do-thing)");
    assert_eq!(
        spliced,
        r#"(define (problem eve-micro-p1)
  (:domain eve-micro)
  (:init)
  (:goal (and (done)))(:htn :ordered-subtasks (do-thing)))
; trailing comment after the problem form)"#
    );
}

#[test]
fn splice_skips_commented_parens_and_trims_the_task() {
    let problem = "(define (problem p) ; a ) in a comment\n (:init))";
    assert_eq!(
        insert_htn_section(problem, "  (go a b)\n"),
        "(define (problem p) ; a ) in a comment\n (:init)(:htn :ordered-subtasks (go a b)))"
    );
}

#[test]
fn unbalanced_text_passes_through_unchanged() {
    assert_eq!(insert_htn_section("(define (problem p)", "(t)"), "(define (problem p)");
    assert_eq!(insert_htn_section("", "(t)"), "");
    // A stray close at depth zero is itself the splice point.
    assert_eq!(insert_htn_section(")", "(t)"), "(:htn :ordered-subtasks (t)))");
}

#[test]
fn every_stage_has_its_own_error_code() {
    assert_eq!(error_code(&HddlError::Parse("x".into())), "FP_PARSE");
    assert_eq!(error_code(&HddlError::Ground("x".into())), "FP_HDDL_GROUND");
    assert_eq!(error_code(&HddlError::Translate("x".into())), "FP_HDDL_TRANSLATE");
    assert_eq!(error_code(&HddlError::Planner("NoPlan".into())), "FP_MODEL");
    assert_eq!(
        error_code(&HddlError::RootTaskMismatch {
            root_task: "(do-thing)".into(),
            problem_root_network: vec!["(some-other-task)".into()]
        }),
        "FP_HDDL_ROOT_MISMATCH"
    );
    assert_eq!(error_code(&HddlError::Timeout { elapsed_ms: 101, limit_ms: 100 }), "FP_TIMEOUT");
    assert_eq!(error_code(&HddlError::WorkerPanicked("worker-7".into())), "FP_WORKER_PANICKED");
}

#[test]
fn every_failure_reads_as_its_stage() {
    assert_eq!(HddlError::Parse("x".into()).message(), "HDDL parse error: x");
    assert_eq!(HddlError::Ground("x".into()).message(), "HDDL grounding error: x");
    assert_eq!(HddlError::Translate("x".into()).message(), "HDDL translation error: x");
    assert_eq!(HddlError::Planner("NoPlan".into()).message(), "planner error: NoPlan");
    let mismatch = HddlError::RootTaskMismatch {
        root_task: "(do-thing)".into(),
        problem_root_network: vec!["(some-other-task)".into(), "(say \"hi\")".into()],
    };
    assert_eq!(
        mismatch.message(),
        "Eve root task (do-thing) conflicts with the problem's own :htn network [\"(some-other-task)\", \"(say \\\"hi\\\")\"]"
    );
    assert_eq!(
        HddlError::Timeout { elapsed_ms: 101, limit_ms: 100 }.message(),
        "solve_hddl wall-clock limit exceeded: 101ms elapsed, limit 100ms"
    );
    assert_eq!(
        HddlError::WorkerPanicked("worker-7".into()).message(),
        "solve_hddl worker thread panicked: worker-7"
    );
}

#[test]
fn wire_messages_name_the_solve() {
    let mismatch = HddlError::RootTaskMismatch {
        root_task: "(do-thing)".into(),
        problem_root_network: vec!["(some-other-task)".into()],
    };
    assert_eq!(
        wire_message(&mismatch),
        "HDDL root-task mismatch: Eve root task (do-thing) conflicts with the problem's own :htn network [\"(some-other-task)\"]"
    );
    let timeout = HddlError::Timeout { elapsed_ms: 101, limit_ms: 100 };
    assert_eq!(wire_message(&timeout), "HDDL solve timed out after 101ms (limit 100ms)");
    assert!(wire_message(&timeout).contains("101ms"));
    assert_eq!(error_code(&timeout), "FP_TIMEOUT");
    let panicked = HddlError::WorkerPanicked("worker-7".into());
    assert_eq!(wire_message(&panicked), "HDDL solve worker panicked: worker-7");
    assert_eq!(error_code(&panicked), "FP_WORKER_PANICKED");
    assert_eq!(wire_message(&HddlError::Parse("bad".into())), "HDDL parse error: bad");
}
