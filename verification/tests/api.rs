use ferroplan::api::{parse_err, render_sig, Mode, Search, Statistics};

#[test]
fn signatures_render_lowercase() {
    assert_eq!(render_sig("HANDEMPTY", &[]), "handempty");
    assert_eq!(
        render_sig("On", &["Block".to_string(), "BLOCK".to_string()]),
        "on block block"
    );
    assert_eq!(render_sig("At", &["Ärea".to_string()]), "at ärea");
}

#[test]
fn a_broken_parse_reports_kind_and_message_only() {
    let r = parse_err("problem", "line 3: unexpected `)`".to_string());
    assert!(!r.ok);
    assert_eq!(r.kind.as_deref(), Some("problem"));
    assert_eq!(r.error.as_deref(), Some("line 3: unexpected `)`"));
    assert!(r.name.is_none() && r.domain.is_none() && r.problem.is_none());
    assert!(r.requirements.is_empty());
}

#[test]
fn defaults_are_auto_and_zero() {
    assert_eq!(Mode::default(), Mode::Auto);
    assert_eq!(Search::default(), Search::Auto);
    let s = Statistics::default();
    assert_eq!((s.grounded_facts, s.grounded_actions, s.evaluated_states, s.threads), (0, 0, 0, 0));
}
