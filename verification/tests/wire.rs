use ferroplan::api::{Mode, Search};
use ferroplan::features::{Override, Overrides};
use ferroplan::wire::{bounded_string, ensure_compat_input, HARD_INPUT_BYTES, think_budget, MAX_THINK_EVALS, MAX_THINK_MEMORY_MB, apply_flags, bounded, parse_mode, parse_mode_strict, parse_search, parse_search_strict};

#[test]
fn modes_are_read_case_insensitively() {
    assert_eq!(parse_mode(Some("FF")), Mode::Ff);
    assert_eq!(parse_mode(Some("Pddl3")), Mode::Pddl3);
    assert_eq!(parse_mode(Some("partition")), Mode::Partition);
    assert_eq!(parse_mode(Some("temporal")), Mode::Temporal);
    assert_eq!(parse_mode(Some("portfolio")), Mode::Portfolio);
    assert_eq!(parse_mode(Some("nonsense")), Mode::Auto);
    assert_eq!(parse_mode(None), Mode::Auto);
    assert_eq!(parse_mode_strict(None).unwrap(), Mode::Auto);
    assert_eq!(parse_mode_strict(Some("AUTO")).unwrap(), Mode::Auto);
    assert_eq!(parse_mode_strict(Some("Ff")).unwrap(), Mode::Ff);
    assert_eq!(parse_mode_strict(Some("Warp")).unwrap_err(), "unsupported mode `warp`");
}

#[test]
fn searches_are_read_case_insensitively() {
    assert_eq!(parse_search(Some("EHC")), Search::Ehc);
    assert_eq!(parse_search(Some("best-first")), Search::BestFirst);
    assert_eq!(parse_search(Some("ehc-then-bf")), Search::EhcThenBestFirst);
    assert_eq!(parse_search(Some("ehc-then-best-first")), Search::Auto);
    assert_eq!(parse_search(None), Search::Auto);
    assert_eq!(parse_search_strict(Some("ehc-then-best-first")).unwrap(), Search::EhcThenBestFirst);
    assert_eq!(parse_search_strict(Some("Auto")).unwrap(), Search::Auto);
    assert_eq!(parse_search_strict(None).unwrap(), Search::Auto);
    assert_eq!(
        parse_search_strict(Some("Dfs")).unwrap_err(),
        "unsupported search strategy `dfs`"
    );
}

#[test]
fn flags_become_standing_orders() {
    let mut o = Overrides::new();
    apply_flags(&mut o, Some(" tdemand , ,tconc,unknown"));
    assert_eq!(o.tdemand, Override::On);
    assert_eq!(o.tdecomp, Override::Off);
    assert_eq!(o.tconc, Override::On);
    assert_eq!(o.escalate, Override::Unset);
    apply_flags(&mut o, None);
    assert_eq!((o.tdemand, o.tdecomp, o.tconc), (Override::Off, Override::Off, Override::Off));
    apply_flags(&mut o, Some("TDEMAND,tdecomp"));
    assert_eq!((o.tdemand, o.tdecomp), (Override::Off, Override::On));
}

#[test]
fn bounded_fields_name_the_limit() {
    assert!(bounded("abc", 3, "domain").is_ok());
    assert_eq!(bounded("abcd", 3, "domain").unwrap_err(), "domain exceeds the 3-byte limit");
    assert_eq!(bounded("é", 1, "goal").unwrap_err(), "goal exceeds the 1-byte limit");
    assert_eq!(
        bounded(&"x".repeat(1048577), 1048576, "problem").unwrap_err(),
        "problem exceeds the 1048576-byte limit"
    );
}

#[test]
fn a_think_budget_must_be_positive_and_within_the_surface_limits() {
    assert_eq!(think_budget(10_000, 64, "WASI"), Ok((10_000, 64)));
    assert_eq!(think_budget(MAX_THINK_EVALS, MAX_THINK_MEMORY_MB, "browser"), Ok((1_000_000, 2_048)));
    assert_eq!(
        think_budget(0, 64, "WASI"),
        Err(("FP_LIMIT_SEARCH", "evals must be within the WASI production budget".to_string()))
    );
    assert_eq!(
        think_budget(1_000_001, 0, "browser"),
        Err(("FP_LIMIT_SEARCH", "evals must be within the browser production budget".to_string()))
    );
    assert_eq!(
        think_budget(10, 0, "WASI"),
        Err(("FP_LIMIT_MEMORY", "mem_mb must be within the WASI production budget".to_string()))
    );
    assert_eq!(
        think_budget(10, 2_049, "browser"),
        Err(("FP_LIMIT_MEMORY", "mem_mb must be within the browser production budget".to_string()))
    );
}

#[test]
fn a_bounded_string_is_cut_at_a_character_boundary() {
    assert_eq!(bounded_string("short".to_string(), 16), "short");
    assert_eq!(bounded_string("exactly8".to_string(), 8), "exactly8");
    assert_eq!(bounded_string("abcdef".to_string(), 3), "abc");
    // "é" takes two bytes: a cut inside it backs off to before it.
    assert_eq!(bounded_string("aé".to_string(), 2), "a");
    assert_eq!(bounded_string("aé".to_string(), 3), "aé");
    assert_eq!(bounded_string("€uro".to_string(), 2), "");
    assert_eq!(bounded_string("€uro".to_string(), 4), "€u");
    assert_eq!(bounded_string("abc".to_string(), 0), "");
}

#[test]
fn browser_inputs_have_a_hard_size_limit() {
    assert_eq!(HARD_INPUT_BYTES, 64 * 1024 * 1024);
    assert_eq!(ensure_compat_input("(define (domain d))", "(define (problem p))"), Ok(()));
    let big = "x".repeat(HARD_INPUT_BYTES + 1);
    assert_eq!(
        ensure_compat_input(&big, ""),
        Err("domain or problem exceeds the browser hard input limit".to_string())
    );
    assert_eq!(
        ensure_compat_input("", &big),
        Err("domain or problem exceeds the browser hard input limit".to_string())
    );
    let edge = "x".repeat(HARD_INPUT_BYTES);
    assert_eq!(ensure_compat_input(&edge, &edge), Ok(()));
}
