use masking_room::crypto::{hex_decode, hex_encode};
use masking_room::keys::{
    mapping_aad, GenerationRecord, Keychain, KeychainFile, RotationPhase,
};
use masking_room::model::EngineError;
use masking_room::rng::{DeterministicRng, Rng};
use std::collections::BTreeMap;

fn ring() -> Keychain {
    Keychain::with_draws(&[1u8; 32], vec![2u8; 32], 100)
}

fn record(id: u64, seed_hex: &str) -> GenerationRecord {
    GenerationRecord { id, seed_hex: seed_hex.to_string(), created_unix: 5, pending: None }
}

fn file(records: Vec<(u64, GenerationRecord)>, current: u64) -> KeychainFile {
    let mut generations = BTreeMap::new();
    for (id, rec) in records {
        generations.insert(id, rec);
    }
    KeychainFile {
        master_hex: "00".to_string(),
        audit_key_hex: "0102".to_string(),
        generations,
        current_generation: current,
    }
}

fn corrupt(r: Result<Keychain, EngineError>) -> String {
    match r {
        Err(EngineError::Corrupt(m)) => m,
        _ => panic!("accepted"),
    }
}

#[test]
fn a_new_ring_has_one_generation() {
    let ring = ring();
    assert_eq!(ring.current_id(), 1);
    assert_eq!(ring.generation_ids(), vec![1]);
    assert_eq!(ring.current().seed, vec![2u8; 32]);
    assert_eq!(ring.current().created_unix, 100);
    assert!(ring.pending_generation().is_none());
    assert_eq!(
        hex_encode(&ring.audit_key()),
        "6786ec9c3c1bdbee0724ed15aebf0c4a408f1db30da1c144698a275bf3689362"
    );
    let mut rng = DeterministicRng::from_seed(1);
    let mut same = DeterministicRng::from_seed(1);
    let a = Keychain::initialize(&mut rng, 1);
    let b = Keychain::initialize(&mut same, 1);
    assert_eq!(a.current().seed, b.current().seed);
    assert_eq!(a.audit_key(), b.audit_key());
}

#[test]
fn keys_are_derived_for_each_purpose() {
    let ring = ring();
    assert_eq!(
        hex_encode(&ring.token_tag_key(1, "t").unwrap()),
        "a8960f8c378821213ab4c9c0205c2c3061a09597b84c54ded8a159d782ca9658"
    );
    assert_eq!(
        hex_encode(&ring.stable_id_key(1, "t").unwrap()),
        "f6212216cb00f2f3b9b2569f395e8178442a494506d10af80770e5eb62ea8bc8"
    );
    assert_eq!(
        hex_encode(&ring.data_key(1, "t").unwrap()),
        "6c7d9923aeedbf5910bcee339172313c65c7a652c1e7d366de68d114e8bb38b0"
    );
    assert_ne!(ring.data_key(1, "t").unwrap(), ring.data_key(1, "u").unwrap());
    assert!(matches!(ring.data_key(2, "t"), Err(EngineError::InvalidToken)));
    assert!(matches!(ring.token_tag_key(2, "t"), Err(EngineError::InvalidToken)));
    assert!(matches!(ring.stable_id_key(0, "t"), Err(EngineError::InvalidToken)));
}

#[test]
fn a_rotation_keeps_old_generations() {
    let mut ring = ring();
    let before = ring.data_key(1, "t").unwrap();
    let id = ring.write_new(vec![3u8; 32], 200);
    assert_eq!(id, 2);
    assert_eq!(ring.current_id(), 1);
    assert!(!ring.is_promoted(2));
    assert_eq!(ring.pending_generation().unwrap().id, 2);
    assert!(ring.rotate_promote(2).is_ok());
    assert_eq!(ring.current_id(), 2);
    assert!(ring.is_promoted(2));
    assert_eq!(ring.generation(2).unwrap().pending, Some(RotationPhase::KeyWritten));
    ring.rotate_commit(2);
    assert!(ring.pending_generation().is_none());
    assert_eq!(ring.data_key(1, "t").unwrap(), before);
    assert_eq!(ring.generation_ids(), vec![1, 2]);
    assert_eq!(ring.current().seed, vec![3u8; 32]);
}

#[test]
fn a_generation_that_was_never_current_can_be_taken_back() {
    let mut ring = ring();
    let mut rng = DeterministicRng::from_seed(5);
    let id = ring.rotate_write_new(&mut rng, 7);
    assert!(ring.discard_generation(id).is_ok());
    assert_eq!(ring.generation_ids(), vec![1]);
    assert_eq!(ring.file().generations.len(), 1);
    match ring.discard_generation(1) {
        Err(EngineError::Conflict(m)) => assert_eq!(m, "代次已提升，不能丢弃"),
        _ => panic!("discarded"),
    }
    match ring.rotate_promote(2) {
        Err(EngineError::Corrupt(m)) => assert_eq!(m, "待提升代次不存在"),
        _ => panic!("promoted"),
    }
    ring.rotate_commit(9);
    assert_eq!(ring.generation_ids(), vec![1]);
}

#[test]
fn a_stored_ring_is_read_and_checked() {
    let seed = "ab".repeat(32);
    let ring =
        Keychain::open(Some(file(vec![(2, record(2, &seed)), (1, record(1, &seed))], 2))).ok().unwrap();
    assert_eq!(ring.current_id(), 2);
    assert_eq!(ring.generation_ids(), vec![1, 2]);
    assert_eq!(ring.current().seed, hex_decode(&seed).unwrap());
    assert_eq!(ring.audit_key(), vec![1, 2]);
    assert_eq!(ring.file().current_generation, 2);

    assert_eq!(corrupt(Keychain::open(None)), "密钥库不存在");
    assert_eq!(corrupt(Keychain::open(Some(file(vec![(1, record(1, "xx"))], 1)))), "代次种子编码损坏");
    assert_eq!(corrupt(Keychain::open(Some(file(vec![(1, record(1, "ab"))], 1)))), "代次记录不一致");
    assert_eq!(corrupt(Keychain::open(Some(file(vec![(1, record(2, &seed))], 1)))), "代次记录不一致");
    assert_eq!(
        corrupt(Keychain::open(Some(file(vec![(2, record(1, &seed)), (1, record(1, "x"))], 1)))),
        "代次种子编码损坏"
    );
    assert_eq!(corrupt(Keychain::open(Some(file(vec![(1, record(1, &seed))], 3)))), "当前代次缺失");
}

#[test]
fn mappings_are_bound_to_their_place() {
    let aad = mapping_aad(0x0102, "t", "id");
    assert_eq!(aad, b"maskroom-mapping-aad-v1\x00\x00\x00\x00\x00\x00\x01\x02tid".to_vec());
}

#[test]
fn the_seed_of_a_new_generation_is_the_next_draw() {
    let mut rng = DeterministicRng::from_seed(5);
    let mut same = DeterministicRng::from_seed(5);
    let mut kc = Keychain::initialize(&mut rng, 1);
    let id = kc.rotate_write_new(&mut rng, 2);
    let mut bytes = [0u8; 32];
    same.fill(&mut bytes);
    assert_eq!(kc.file().master_hex, hex_encode(&bytes));
    same.fill(&mut bytes);
    assert_eq!(kc.generation(1).unwrap().seed, bytes.to_vec());
    same.fill(&mut bytes);
    assert_eq!(kc.generation(id).unwrap().seed, bytes.to_vec());
}

#[test]
fn bonds_differ_in_every_part() {
    let bond = mapping_aad(1, "t", "rec");
    assert_eq!(bond, mapping_aad(1, "t", "rec"));
    assert_ne!(bond, mapping_aad(2, "t", "rec"));
    assert_ne!(bond, mapping_aad(1, "u", "rec"));
    assert_ne!(bond, mapping_aad(1, "t", "ref"));
    assert_eq!(mapping_aad(1, "tr", "ec"), mapping_aad(1, "t", "rec"));
}

#[test]
fn stored_seeds_keep_their_text() {
    let upper = "AB".repeat(32);
    let kc = Keychain::open(Some(file(vec![(1, record(1, &upper))], 1))).unwrap();
    assert_eq!(kc.file().generations[&1].seed_hex, upper);
    assert_eq!(kc.file().clone().generations[&1].clone().seed_hex, upper);
}
