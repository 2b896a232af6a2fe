use ferroplan::binding::bindings;
use ferroplan::types::Term;

fn s(x: &str) -> String {
    x.to_string()
}

fn var(x: &str) -> Term {
    Term::Var(s(x))
}

fn cst(x: &str) -> Term {
    Term::Const(s(x))
}

fn params(names: &[&str]) -> Vec<(String, String)> {
    names.iter().map(|n| (s(n), s("object"))).collect()
}

fn dom(vals: &[&str]) -> Vec<String> {
    vals.iter().map(|v| s(v)).collect()
}

fn atom(p: &str, args: &[&str]) -> (String, Vec<String>) {
    (s(p), args.iter().map(|a| s(a)).collect())
}

fn ring() -> Vec<(String, Vec<String>)> {
    vec![
        atom("adj", &["a", "b"]),
        atom("adj", &["b", "c"]),
        atom("adj", &["c", "a"]),
    ]
}

#[test]
fn a_binary_static_keeps_only_its_atoms_in_row_major_order() {
    let ps = params(&["?x", "?y"]);
    let ds = vec![dom(&["a", "b", "c"]), dom(&["a", "b", "c"])];
    let lits = vec![(s("adj"), vec![var("?x"), var("?y")])];
    let r = bindings(&ps, &ds, &lits, &ring(), false, 1000).unwrap();
    assert_eq!(r, vec![vec![0, 1], vec![1, 2], vec![2, 0]]);
}

#[test]
fn without_statics_every_binding_comes_out_row_major() {
    let ps = params(&["?x", "?y"]);
    let ds = vec![dom(&["a", "b"]), dom(&["c", "d", "e"])];
    let r = bindings(&ps, &ds, &vec![], &vec![], false, 1000).unwrap();
    assert_eq!(
        r,
        vec![vec![0, 0], vec![0, 1], vec![0, 2], vec![1, 0], vec![1, 1], vec![1, 2]]
    );
}

#[test]
fn an_empty_domain_leaves_no_binding() {
    let ps = params(&["?x", "?y"]);
    let ds = vec![dom(&["a"]), dom(&[])];
    let r = bindings(&ps, &ds, &vec![], &vec![], false, 0).unwrap();
    assert!(r.is_empty());
}

#[test]
fn a_failing_literal_over_constants_decides_the_whole_action() {
    let ps = params(&["?x"]);
    let ds = vec![dom(&["a", "b"])];
    let lits = vec![(s("adj"), vec![cst("a"), cst("c")])];
    assert_eq!(bindings(&ps, &ds, &lits, &ring(), false, 0), Some(vec![]));
    let holds = vec![(s("adj"), vec![cst("a"), cst("b")])];
    assert_eq!(
        bindings(&ps, &ds, &holds, &ring(), false, 1000),
        Some(vec![vec![0], vec![1]])
    );
}

#[test]
fn a_literal_with_an_unknown_variable_is_left_to_the_caller() {
    let ps = params(&["?x"]);
    let ds = vec![dom(&["a", "b"])];
    let lits = vec![(s("adj"), vec![var("?x"), var("?z")])];
    let r = bindings(&ps, &ds, &lits, &ring(), false, 1000).unwrap();
    assert_eq!(r, vec![vec![0], vec![1]]);
}

#[test]
fn a_literal_with_constants_and_variables_reads_both() {
    let ps = params(&["?x"]);
    let ds = vec![dom(&["a", "b", "c"])];
    let lits = vec![(s("adj"), vec![var("?x"), cst("a")])];
    let r = bindings(&ps, &ds, &lits, &ring(), false, 1000).unwrap();
    assert_eq!(r, vec![vec![2]]);
}

#[test]
fn the_walk_counts_one_tick_per_node_it_visits() {
    // Root, three values of ?x, and below each the one ?y that survives
    // among three tried: 1 + 3 + 3 = 7 nodes (a pruned value costs none).
    let ps = params(&["?x", "?y"]);
    let ds = vec![dom(&["a", "b", "c"]), dom(&["a", "b", "c"])];
    let lits = vec![(s("adj"), vec![var("?x"), var("?y")])];
    assert!(bindings(&ps, &ds, &lits, &ring(), false, 7).is_some());
    assert_eq!(bindings(&ps, &ds, &lits, &ring(), false, 6), None);
    assert_eq!(bindings(&ps, &ds, &lits, &ring(), false, 0), None);
}

#[test]
fn pruning_at_the_first_bound_level_cuts_whole_subtrees() {
    // (mark ?x) holds for a only: the subtrees of b and c are never walked.
    let ps = params(&["?x", "?y"]);
    let ds = vec![dom(&["a", "b", "c"]), dom(&["a", "b", "c"])];
    let lits = vec![(s("mark"), vec![var("?x")])];
    let init = vec![atom("mark", &["a"])];
    // Root, the one ?x that survives, three ?y under it: 1 + 1 + 3 = 5.
    assert_eq!(
        bindings(&ps, &ds, &lits, &init, false, 5),
        Some(vec![vec![0, 0], vec![0, 1], vec![0, 2]])
    );
    assert_eq!(bindings(&ps, &ds, &lits, &init, false, 4), None);
}

#[test]
fn the_most_constrained_order_keeps_the_emitted_list() {
    // ?z is bound by a unary static and shares a literal with ?y: the
    // greedy order walks ?z first, yet the list is the row-major one.
    let ps = params(&["?x", "?y", "?z"]);
    let ds = vec![
        dom(&["a", "b", "c"]),
        dom(&["a", "b", "c"]),
        dom(&["a", "b"]),
    ];
    let lits = vec![
        (s("mark"), vec![var("?z")]),
        (s("adj"), vec![var("?y"), var("?z")]),
        (s("adj"), vec![var("?x"), var("?y")]),
    ];
    let mut init = ring();
    init.push(atom("mark", &["a"]));
    let plain = bindings(&ps, &ds, &lits, &init, false, 10_000).unwrap();
    let reordered = bindings(&ps, &ds, &lits, &init, true, 10_000).unwrap();
    assert_eq!(plain, vec![vec![1, 2, 0]]);
    assert_eq!(reordered, plain);
}

#[test]
fn the_most_constrained_order_agrees_on_a_denser_case() {
    let ps = params(&["?x", "?y", "?z"]);
    let ds = vec![
        dom(&["a", "b", "c"]),
        dom(&["a", "b", "c"]),
        dom(&["a", "b", "c"]),
    ];
    let lits = vec![(s("adj"), vec![var("?z"), var("?x")])];
    let plain = bindings(&ps, &ds, &lits, &ring(), false, 10_000).unwrap();
    let reordered = bindings(&ps, &ds, &lits, &ring(), true, 10_000).unwrap();
    assert_eq!(plain.len(), 9);
    assert_eq!(plain[0], vec![0, 0, 2]);
    assert_eq!(reordered, plain);
    assert_eq!(bindings(&ps, &ds, &lits, &ring(), true, 0), None);
}

fn typed(names: &[(&str, &str)]) -> Vec<(String, String)> {
    names.iter().map(|(n, t)| (s(n), s(t))).collect()
}

fn table() -> Vec<(String, Vec<String>)> {
    vec![
        (s("ball"), dom(&["b1", "b2", "b3"])),
        (s("room"), dom(&["r1", "r2"])),
    ]
}

#[test]
fn a_unary_static_narrows_its_parameter_to_the_objects_init_holds_it_of() {
    let ps = typed(&[("?x", "ball"), ("?y", "room")]);
    let lits = vec![(s("heavy"), vec![var("?x")])];
    let init = vec![atom("heavy", &["b3"]), atom("heavy", &["b2"])];
    let ds = ferroplan::binding::restricted_domains(&ps, &table(), &lits, &init);
    assert_eq!(ds, vec![dom(&["b2", "b3"]), dom(&["r1", "r2"])]);
}

#[test]
fn a_unary_static_absent_from_init_empties_the_domain() {
    let ps = typed(&[("?x", "ball")]);
    let lits = vec![(s("light"), vec![var("?x")])];
    let init = vec![atom("light", &["b1", "b2"])];
    let ds = ferroplan::binding::restricted_domains(&ps, &table(), &lits, &init);
    assert_eq!(ds, vec![Vec::<String>::new()]);
}

#[test]
fn only_unary_literals_on_a_parameter_narrow_a_domain() {
    let ps = typed(&[("?x", "ball"), ("?y", "room")]);
    let lits = vec![
        (s("in"), vec![var("?x"), var("?y")]),
        (s("heavy"), vec![cst("b1")]),
        (s("heavy"), vec![var("?z")]),
    ];
    let ds = ferroplan::binding::restricted_domains(&ps, &table(), &lits, &vec![]);
    assert_eq!(ds, vec![dom(&["b1", "b2", "b3"]), dom(&["r1", "r2"])]);
}

#[test]
fn a_type_the_table_does_not_know_has_no_objects() {
    let ps = typed(&[("?x", "crate")]);
    let ds = ferroplan::binding::restricted_domains(&ps, &table(), &vec![], &vec![]);
    assert_eq!(ds, vec![Vec::<String>::new()]);
}

#[test]
fn narrowed_domains_feed_the_binding_walk() {
    let ps = typed(&[("?x", "ball"), ("?y", "room")]);
    let lits = vec![(s("heavy"), vec![var("?x")]), (s("fits"), vec![var("?x"), var("?y")])];
    let init = vec![
        atom("heavy", &["b2"]),
        atom("heavy", &["b3"]),
        atom("fits", &["b3", "r2"]),
        atom("fits", &["b1", "r1"]),
    ];
    let ds = ferroplan::binding::restricted_domains(&ps, &table(), &lits, &init);
    let r = bindings(&ps, &ds, &lits, &init, false, 100).unwrap();
    // b3 is index 1 in the narrowed ball domain, r2 index 1 in rooms.
    assert_eq!(r, vec![vec![1, 1]]);
    assert_eq!(bindings(&ps, &ds, &lits, &init, true, 100).unwrap(), r);
}
