use ferroplan::receipt::{
    bind_policy_receipt, canonical_digest, receipt_payload, verify_policy_chain,
    verify_policy_receipt, PolicyReceipt, RECEIPT_SCHEMA,
};
use serde_json::Value;

fn expected_digest(payload: &[u8]) -> String {
    let mut h = blake3::Hasher::new();
    h.update(b"urn:chatman:ferroplan-policy-receipt:v1\0");
    h.update(&(payload.len() as u64).to_le_bytes());
    h.update(payload);
    h.finalize().to_hex().to_string()
}

/// The payload as serde_json writes it: an object (whose keys serde_json
/// keeps in order) of the receipt's fields.
fn expected_payload(r: &PolicyReceipt) -> Vec<u8> {
    let mut m = serde_json::Map::new();
    m.insert("schema".into(), Value::String(RECEIPT_SCHEMA.into()));
    m.insert("model_digest".into(), Value::String(r.model_digest.clone()));
    m.insert("policy_digest".into(), Value::String(r.policy_digest.clone()));
    m.insert("verifier_digest".into(), Value::String(r.verifier_digest.clone()));
    m.insert("objective".into(), serde_json::from_str(&r.objective).unwrap());
    m.insert("constraints".into(), serde_json::from_str(&r.constraints).unwrap());
    m.insert(
        "predecessor".into(),
        match &r.predecessor {
            Some(p) => Value::String(p.clone()),
            None => Value::Null,
        },
    );
    serde_json::to_vec(&Value::Object(m)).unwrap()
}

fn bind(model: &str, predecessor: Option<String>) -> PolicyReceipt {
    bind_policy_receipt(
        model.to_string(),
        "p".to_string(),
        "v".to_string(),
        r#""MaximizeGoalProbability""#.to_string(),
        r#"[{"MinimumGoalProbability":0.9}]"#.to_string(),
        predecessor,
    )
}

#[test]
fn digest_frames_the_document_under_the_receipt_domain() {
    let d = canonical_digest(br#"{"a":1}"#);
    assert_eq!(d, expected_digest(br#"{"a":1}"#));
    assert_eq!(d.len(), 64);
    assert_ne!(d, canonical_digest(br#"{"a":2}"#));
    assert_eq!(canonical_digest(b""), expected_digest(b""));
}

#[test]
fn the_payload_is_rebuilt_from_the_receipt_s_own_fields() {
    let r = bind("m", Some("a\"b\\c\n\t\u{1}é".to_string()));
    assert_eq!(receipt_payload(&r).into_bytes(), expected_payload(&r));
    assert_eq!(r.schema, RECEIPT_SCHEMA);
    assert_eq!(r.receipt_digest, expected_digest(&expected_payload(&r)));
    let root = bind("m", None);
    assert_eq!(receipt_payload(&root).into_bytes(), expected_payload(&root));
}

#[test]
fn a_bound_receipt_verifies_and_any_changed_field_breaks_it() {
    let r = bind("m", Some("prev".to_string()));
    assert!(verify_policy_receipt(&r));
    let mut changes: Vec<PolicyReceipt> = Vec::new();
    let mut t = r.clone();
    t.schema = "urn:other".into();
    changes.push(t);
    let mut t = r.clone();
    t.model_digest = "m2".into();
    changes.push(t);
    let mut t = r.clone();
    t.policy_digest = "p2".into();
    changes.push(t);
    let mut t = r.clone();
    t.verifier_digest = "v2".into();
    changes.push(t);
    let mut t = r.clone();
    t.objective = r#""MinimizeExpectedCost""#.into();
    changes.push(t);
    let mut t = r.clone();
    t.constraints = "[]".into();
    changes.push(t);
    let mut t = r.clone();
    t.predecessor = None;
    changes.push(t);
    let mut t = r.clone();
    t.receipt_digest = expected_digest(b"{}");
    changes.push(t);
    for t in changes {
        assert!(!verify_policy_receipt(&t), "{t:?}");
    }
}

#[test]
fn chains_link_each_receipt_to_its_predecessor() {
    let a = bind("m0", None);
    let b = bind("m1", Some(a.receipt_digest.clone()));
    let c = bind("m2", Some(b.receipt_digest.clone()));
    assert!(verify_policy_chain(&[]));
    assert!(verify_policy_chain(&[a.clone(), b.clone(), c.clone()]));
    assert!(!verify_policy_chain(&[b.clone(), c.clone()]));
    assert!(!verify_policy_chain(&[a.clone(), c.clone()]));
    let rooted_twice = bind("m1", None);
    assert!(!verify_policy_chain(&[a.clone(), rooted_twice]));
    let mut tampered = b.clone();
    tampered.model_digest = "forged".into();
    assert!(!verify_policy_chain(&[a, tampered, c]));
}
