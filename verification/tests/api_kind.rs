use ferroplan::api::{parse_kind, SourceKind};

#[test]
fn a_problem_text_routes_to_the_problem_parser() {
    let src = "(define (problem p1) (:domain d) (:init) (:goal (and)))";
    assert_eq!(parse_kind(src), SourceKind::Problem);
}

#[test]
fn a_domain_text_routes_to_the_domain_parser() {
    let src = "(define (domain d) (:predicates (p)))";
    assert_eq!(parse_kind(src), SourceKind::Domain);
}

#[test]
fn routing_ignores_ascii_case_and_takes_whichever_comes_first() {
    assert_eq!(parse_kind("(DEFINE (Problem x) (:Domain d))"), SourceKind::Problem);
    assert_eq!(parse_kind("; (domain d) in a comment\n(define (problem x))"), SourceKind::Domain);
    assert_eq!(parse_kind(""), SourceKind::Domain);
    assert_eq!(parse_kind("(problem"), SourceKind::Problem);
}
