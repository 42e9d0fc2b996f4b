use masking_room::rng::{chacha20_block, fill_weakly, DeterministicRng, OsRng, Rng};

#[test]
fn deterministic_is_stable() {
    let mut a = DeterministicRng::from_seed(42);
    let mut b = DeterministicRng::from_seed(42);
    let mut xa = [0u8; 40];
    let mut xb = [0u8; 40];
    a.fill(&mut xa);
    b.fill(&mut xb);
    assert_eq!(xa, xb);
    let mut c = DeterministicRng::from_seed(43);
    let mut xc = [0u8; 40];
    c.fill(&mut xc);
    assert_ne!(xa, xc);
}

#[test]
fn a_block_is_that_of_rfc_8439() {
    let mut key = [0u8; 32];
    for i in 0..32 {
        key[i] = i as u8;
    }
    let nonce: [u8; 12] = [
        0x00, 0x00, 0x00, 0x09, 0x00, 0x00, 0x00, 0x4a, 0x00, 0x00, 0x00, 0x00,
    ];
    let mut block = [0u8; 64];
    chacha20_block(&key, 1, &nonce, &mut block);
    assert_eq!(
        block,
        [
            0x10, 0xf1, 0xe7, 0xe4, 0xd1, 0x3b, 0x59, 0x15, 0x50, 0x0f, 0xdd, 0x1f, 0xa3, 0x20,
            0x71, 0xc4, 0xc7, 0xd1, 0xf4, 0xc7, 0x33, 0xc0, 0x68, 0x03, 0x04, 0x22, 0xaa, 0x9a,
            0xc3, 0xd4, 0x6c, 0x4e, 0xd2, 0x82, 0x64, 0x46, 0x07, 0x9f, 0xaa, 0x09, 0x14, 0xc2,
            0xd7, 0x05, 0xd9, 0x8b, 0x02, 0xa2, 0xb5, 0x12, 0x9c, 0xd1, 0xde, 0x16, 0x4e, 0xb9,
            0xcb, 0xd0, 0x83, 0xe8, 0xa2, 0x50, 0x3c, 0x4e,
        ]
    );
}

#[test]
fn a_number_starts_its_own_stream() {
    let mut rng = DeterministicRng::from_seed(42);
    let mut first = [0u8; 8];
    rng.fill(&mut first);
    assert_eq!(first, [0x5f, 0x7f, 0x46, 0x53, 0x2c, 0x6b, 0x58, 0x7d]);
    let mut second = [0u8; 70];
    rng.fill(&mut second);
    assert_eq!(second[..10], [0x65, 0xd1, 0x18, 0x4c, 0xde, 0x64, 0x19, 0x0d, 0x5e, 0x61]);
}

#[test]
fn a_longer_draw_starts_like_a_shorter_one() {
    let mut a = DeterministicRng::from_seed(7);
    let mut b = DeterministicRng::from_seed(7);
    let mut long = [0u8; 200];
    let mut short = [0u8; 90];
    a.fill(&mut long);
    b.fill(&mut short);
    assert_eq!(long[..90], short);
}

#[test]
fn what_the_system_contributes_is_mixed_in() {
    let mut entropy = [0u8; 32];
    for i in 0..32 {
        entropy[i] = i as u8;
    }
    let mix: u128 = 0x0102030405060708090a0b0c0d0e0f10;
    let mut rng = OsRng::new(entropy, mix ^ 1 ^ 2, 1, 2);
    let mut first = [0u8; 8];
    rng.fill(&mut first);
    assert_eq!(first, [0x83, 0x3d, 0x94, 0xe4, 0x09, 0x6d, 0xb4, 0xcb]);
}

#[test]
fn weak_bytes_come_from_a_xorshift() {
    let mut bytes = [0u8; 4];
    fill_weakly(0x9e3779b97f4a7c15, &mut bytes);
    assert_eq!(bytes, [173, 118, 54, 116]);
}
