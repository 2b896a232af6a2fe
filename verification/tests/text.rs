use ferroplan::text::{decimal, trim_str};

#[test]
fn decimal_matches_format() {
    for n in [0u128, 7, 10, 99, 100, 4096, u64::MAX as u128, u128::MAX] {
        assert_eq!(decimal(n), format!("{n}"));
    }
}

#[test]
fn trim_matches_std() {
    for s in ["", "  ", " a ", "\u{3000}x y\u{85}", "\t\n(a)\r\n", "b"] {
        assert_eq!(trim_str(s), s.trim());
    }
}
