use ferroplan::ground::objects_by_type;
use ferroplan::types::{Domain, Problem};

fn p(a: &str, b: &str) -> (String, String) {
    (a.to_string(), b.to_string())
}

fn get<'a>(t: &'a [(String, Vec<String>)], ty: &str) -> &'a [String] {
    &t.iter().find(|(n, _)| n == ty).expect("type present").1
}

#[test]
fn subtypes_ride_along_and_object_catches_everything() {
    let d = Domain {
        type_parent: vec![p("TRUCK", "VEHICLE"), p("VEHICLE", "OBJECT")],
        constants: vec![p("DEPOT", "LOCATION")],
    };
    let pr = Problem {
        objects: vec![p("T1", "TRUCK"), p("V1", "VEHICLE"), p("L1", "LOCATION")],
        metric: None,
    };
    let t = objects_by_type(&d, &pr);
    let names: Vec<&str> = t.iter().map(|(n, _)| n.as_str()).collect();
    assert_eq!(names, vec!["TRUCK", "VEHICLE", "LOCATION", "OBJECT"]);
    assert_eq!(get(&t, "TRUCK"), ["T1".to_string()]);
    assert_eq!(get(&t, "VEHICLE"), ["T1".to_string(), "V1".to_string()]);
    assert_eq!(get(&t, "LOCATION"), ["DEPOT".to_string(), "L1".to_string()]);
    assert_eq!(get(&t, "OBJECT").len(), 4);
}

#[test]
fn later_declarations_override_and_cycles_degrade() {
    let d = Domain {
        type_parent: vec![p("A", "B"), p("B", "A"), p("C", "X"), p("C", "D")],
        constants: vec![],
    };
    let pr = Problem { objects: vec![p("a1", "A"), p("c1", "C")], metric: None };
    let t = objects_by_type(&d, &pr);
    // A <-> B is a cycle: each is a subtype of the other, and nothing hangs.
    assert_eq!(get(&t, "B"), ["a1".to_string()]);
    assert_eq!(get(&t, "A"), ["a1".to_string()]);
    // C's parent is D (the later pair), so C is not an X.
    assert_eq!(get(&t, "D"), ["c1".to_string()]);
    assert!(get(&t, "X").is_empty());
    assert_eq!(get(&t, "OBJECT").len(), 2);
}
