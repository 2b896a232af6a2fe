use ferroplan::readiness::{evidence_file_within_limit, is_evidence_identifier, parse_args, parse_evidence, CliAction, USAGE};

#[test]
fn evidence_identifiers_are_strictly_bounded() {
    let good = "core.solve.unit";
    assert!(is_evidence_identifier(good));
    let bad = "core.solve.unit; rm -rf /";
    assert!(!is_evidence_identifier(bad));
}

#[test]
fn evidence_lines_are_trimmed_and_comments_skipped() {
    let text = "# header\n  core.solve.unit  \r\n\nwasm.abi-1_ok\n";
    let ids = parse_evidence(text).unwrap();
    assert_eq!(ids, vec!["core.solve.unit".to_string(), "wasm.abi-1_ok".to_string()]);
    assert_eq!(parse_evidence("").unwrap(), Vec::<String>::new());
    assert_eq!(parse_evidence("a\nb").unwrap(), vec!["a".to_string(), "b".to_string()]);
}

#[test]
fn evidence_refusal_names_the_line() {
    assert_eq!(parse_evidence("ok\n# c\nbad id\nok2").unwrap_err(), 3);
    let long = "x".repeat(257);
    assert_eq!(parse_evidence(&format!("a\n{long}\n")).unwrap_err(), 2);
    let edge = "x".repeat(256);
    assert_eq!(parse_evidence(&edge).unwrap(), vec![edge.clone()]);
    assert_eq!(parse_evidence("é").unwrap_err(), 1);
}

#[test]
fn evidence_file_limit_is_four_mebibytes() {
    assert!(evidence_file_within_limit(4 * 1024 * 1024));
    assert!(!evidence_file_within_limit(4 * 1024 * 1024 + 1));
}

fn args(v: &[&str]) -> Vec<String> {
    v.iter().map(|s| s.to_string()).collect()
}

#[test]
fn command_line_is_read_in_order() {
    match parse_args(&args(&["--source", "abc", "--evidence", "e1", "--evidence", "e2", "--compact"])).unwrap() {
        CliAction::Run(a) => {
            assert_eq!(a.source, "abc");
            assert_eq!(a.evidence_files, vec!["e1".to_string(), "e2".to_string()]);
            assert!(!a.pretty);
        }
        CliAction::Help => panic!("expected a run"),
    }
    assert!(matches!(parse_args(&args(&["--help", "--bogus"])), Ok(CliAction::Help)));
    assert_eq!(parse_args(&args(&["--source"])).unwrap_err(), "--source requires a value");
    assert_eq!(parse_args(&args(&["--source", "  "])).unwrap_err(), "--source may not be empty");
    assert_eq!(parse_args(&args(&["--evidence"])).unwrap_err(), "--evidence requires a file path");
    assert_eq!(
        parse_args(&args(&["--bogus"])).unwrap_err(),
        format!("unknown argument `--bogus`; {USAGE}")
    );
    assert_eq!(
        parse_args(&args(&["--evidence", "e"])).unwrap_err(),
        format!("missing --source; {USAGE}")
    );
    assert_eq!(
        parse_args(&args(&["--source", "s"])).unwrap_err(),
        format!("at least one --evidence file is required; {USAGE}")
    );
}
