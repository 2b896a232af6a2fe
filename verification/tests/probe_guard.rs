use ferroplan::probe_guard::{contradictory_fact, duplicate_id, fact_key, malformed_id, MAX_PROBE_ID_BYTES};

#[test]
fn fact_key_collapses_case_and_whitespace() {
    assert_eq!(fact_key("(at  a)"), "(AT A)");
    assert_eq!(fact_key(" (AT A) "), "(AT A)");
}

#[test]
fn malformed_id_refuses_empty_and_oversized_ids() {
    assert_eq!(malformed_id(&["a", "", "b"]), Some(""));
    let long = "x".repeat(MAX_PROBE_ID_BYTES + 1);
    assert_eq!(malformed_id(&["a", long.as_str()]), Some(long.as_str()));
    let edge = "x".repeat(MAX_PROBE_ID_BYTES);
    assert_eq!(malformed_id(&["a", edge.as_str()]), None);
}

#[test]
fn duplicate_id_finds_the_second_delivery() {
    assert_eq!(duplicate_id(&["a", "b", "a"]), Some("a"));
    assert_eq!(duplicate_id(&["a", "b", "c"]), None);
    assert_eq!(duplicate_id(&Vec::<&str>::new()), None);
}

#[test]
fn contradictory_fact_is_order_and_spelling_independent() {
    let sight = vec![("(at a)".to_string(), false), ("(AT  A)".to_string(), true)];
    assert_eq!(contradictory_fact(&sight), Some("(AT  A)"));
    let reordered = vec![("(AT A)".to_string(), true), ("(at a)".to_string(), false)];
    assert_eq!(contradictory_fact(&reordered), Some("(at a)"));
    let repeated = vec![("(at a)".to_string(), true), ("(AT A)".to_string(), true)];
    assert_eq!(contradictory_fact(&repeated), None);
}

#[test]
fn fact_key_handles_tabs_newlines_and_empty_input() {
    assert_eq!(fact_key("\t(on\n  b1   b2)\r\n"), "(ON B1 B2)");
    assert_eq!(fact_key(""), "");
    assert_eq!(fact_key("   \t "), "");
    // Non-ASCII letters keep their case: only ASCII is uppercased.
    assert_eq!(fact_key("(at é)"), "(AT é)");
}

#[test]
fn fact_key_is_idempotent_on_examples() {
    for s in ["(at  a)", "  x\ty  z ", "", "(ON B1 B2)"] {
        let k = fact_key(s);
        assert_eq!(fact_key(&k), k);
    }
}

#[test]
fn malformed_id_counts_bytes_not_characters() {
    // 128 two-byte characters are 256 bytes: at the limit.
    let edge = "é".repeat(128);
    assert_eq!(malformed_id(&[edge.as_str()]), None);
    let over = "é".repeat(129);
    assert_eq!(malformed_id(&[over.as_str()]), Some(over.as_str()));
}

#[test]
fn duplicate_id_reports_the_first_repeat_in_delivery_order() {
    assert_eq!(duplicate_id(&["a", "b", "b", "a"]), Some("b"));
    assert_eq!(duplicate_id(&["x", "x"]), Some("x"));
}

#[test]
fn contradictory_fact_only_conflicting_values_count() {
    let sight = vec![
        ("(at a)".to_string(), true),
        ("(at b)".to_string(), false),
        ("(AT B)".to_string(), false),
        ("( at  b )".to_string(), false),
    ];
    assert_eq!(contradictory_fact(&sight), None);
    let late = vec![
        ("(at a)".to_string(), true),
        ("(at b)".to_string(), false),
        ("(AT   a)".to_string(), false),
    ];
    assert_eq!(contradictory_fact(&late), Some("(AT   a)"));
}
