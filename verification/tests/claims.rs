use ferroplan::claims::{claimed_items, claims_allow};

#[test]
fn the_claim_list_is_trimmed_uppercased_and_compacted() {
    assert_eq!(claimed_items(" wood, Iron ,,  \t, gold "), vec!["WOOD", "IRON", "GOLD"]);
    assert_eq!(claimed_items(""), Vec::<String>::new());
    assert_eq!(claimed_items(" , ,"), Vec::<String>::new());
    assert_eq!(claimed_items("ore"), vec!["ORE"]);
}

#[test]
fn a_move_must_carry_the_actor_s_prefix() {
    let claims = claimed_items("");
    assert!(claims_allow("(TRADE ALICE BOB WOOD IRON)", "(TRADE ALICE ", &claims));
    assert!(!claims_allow("(TRADE BOB ALICE WOOD IRON)", "(TRADE ALICE ", &claims));
    assert!(!claims_allow("(TRADE", "(TRADE ALICE ", &claims));
}

#[test]
fn a_move_receiving_a_claimed_item_is_blacked_out() {
    let claims = claimed_items("iron, gold");
    assert!(!claims_allow("(TRADE ALICE BOB WOOD IRON)", "(TRADE ALICE ", &claims));
    assert!(!claims_allow("(TRADE ALICE BOB WOOD GOLD))", "(TRADE ALICE ", &claims));
    assert!(claims_allow("(TRADE ALICE BOB WOOD STONE)", "(TRADE ALICE ", &claims));
    // Fewer than five tokens: nothing is received, the prefix decides.
    assert!(claims_allow("(TRADE ALICE BOB)", "(TRADE ALICE ", &claims));
    // The claim list is uppercased; the display is compared as written.
    assert!(claims_allow("(trade alice bob wood iron)", "(trade alice ", &claims));
}
