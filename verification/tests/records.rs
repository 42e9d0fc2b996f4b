use masking_room::error::{Error, ErrorCode};
use masking_room::json::Value;
use masking_room::model;
use masking_room::state::{
    default_stable, default_version, MappingRecord, Mappings, MatchKind, State,
};

fn record(id: &str, gen: u32) -> MappingRecord {
    MappingRecord {
        token_id: id.to_string(),
        gen,
        nonce_b64: "n".to_string(),
        ciphertext_b64: "c".to_string(),
        created_ms: 1,
    }
}

#[test]
fn the_hash_of_an_entry_is_over_its_canonical_text() {
    let payload = Value::obj(vec![
        ("b", Value::Num("1".to_string())),
        ("a", Value::Arr(vec![Value::Bool(true), Value::Null])),
    ]);
    assert_eq!(
        model::AuditEntry::compute_hash(1, 2, "k", "t", 3, &payload, "p"),
        "aa94713de7c4bac3f59dd9b60a95ffe4b01a1f134929641df971c1d19025cac0"
    );
    assert_ne!(
        model::AuditEntry::compute_hash(1, 2, "k", "t", 4, &payload, "p"),
        model::AuditEntry::compute_hash(1, 2, "k", "t", 3, &payload, "p")
    );
}

#[test]
fn new_rooms_start_at_the_first_generation() {
    let state = model::State::default();
    assert_eq!((state.active_gen, state.next_rule_id, state.next_doc_id, state.seq), (1, 1, 1, 0));
    assert!(state.rules.is_empty() && state.documents.is_empty());
    let state = State::default();
    assert_eq!(state.current_gen, 0);
    assert_eq!(state.mappings.len(), 0);
    assert_eq!(MatchKind::default(), MatchKind::Literal);
    assert_eq!(default_version(), 1);
    assert!(default_stable());
}

#[test]
fn mappings_hold_one_record_for_each_id() {
    let mut m = Mappings::new();
    m.insert(record("a", 1));
    m.insert(record("b", 1));
    m.insert(record("a", 2));
    assert_eq!(m.len(), 2);
    assert!(m.contains_key("b"));
    assert!(!m.contains_key("c"));
    assert_eq!(m.get("a").unwrap().gen, 2);
    assert!(m.get("c").is_none());
    let copy = m.clone();
    assert_eq!(copy.records().len(), 2);
    assert_eq!(copy.get("b").unwrap().gen, 1);
}

#[test]
fn errors_name_their_code() {
    let cases = [
        (Error::not_found("m"), ErrorCode::NotFound, "not_found", 404),
        (Error::invalid("m"), ErrorCode::InvalidRequest, "invalid_request", 400),
        (Error::conflict("m"), ErrorCode::RuleConflict, "rule_conflict", 409),
        (Error::new(ErrorCode::Unauthorized, "m"), ErrorCode::Unauthorized, "unauthorized", 403),
        (Error::integrity("m"), ErrorCode::Integrity, "integrity_violation", 500),
        (Error::state("m"), ErrorCode::State, "state_error", 500),
        (Error::crypto("m"), ErrorCode::Crypto, "crypto_error", 500),
    ];
    for (error, code, name, status) in cases {
        assert_eq!(error.code, code);
        assert_eq!(error.code.as_str(), name);
        assert_eq!(error.code.http_status(), status);
        assert_eq!(error.describe(), format!("{name}: m"));
    }
}

#[test]
fn mappings_come_in_the_order_of_their_ids() {
    let mut m = Mappings::new();
    for id in ["b", "c", "a", "ab"] {
        m.insert(record(id, 1));
    }
    m.put("aa".to_string(), record("other", 2));
    assert_eq!(m.ids().join(" "), "a aa ab b c");
    assert_eq!(m.records()[1].token_id, "other");
    assert_eq!(m.get("aa").unwrap().gen, 2);
    assert!(m.get("other").is_none());
}
