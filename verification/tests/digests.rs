use masking_room::crypto::{
    b64e, ct_eq, decrypt, encrypt_with, hex_decode, hex_encode, hkdf, hmac_sha256, sha256,
    token_id, GenKey, KeyFile, MasterKey,
};

#[test]
fn hexadecimal_reads_back() {
    assert_eq!(hex_encode(&[0x00, 0x9f, 0xff]), "009fff");
    assert_eq!(hex_decode("009FfF").unwrap(), vec![0x00, 0x9f, 0xff]);
    assert_eq!(hex_decode("abc").unwrap_err(), "hex 长度必须为偶数");
    assert_eq!(hex_decode("0g").unwrap_err(), "非法 hex 字符: g");
    let all: Vec<u8> = (0..=255).collect();
    assert_eq!(hex_decode(&hex_encode(&all)).unwrap(), all);
}

#[test]
fn digests_are_the_published_ones() {
    assert_eq!(
        hex_encode(&sha256(b"abc")),
        "ba7816bf8f01cfea414140de5dae2223b00361a396177a9cb410ff61f20015ad"
    );
    assert_eq!(
        hex_encode(&hmac_sha256(&[0x0b; 20], b"Hi There")),
        "b0344c61d8db38535ca8afceaf0bf12b881dc200c9833da726e9376c2e32cff7"
    );
    let salt: Vec<u8> = (0..13).collect();
    let info: Vec<u8> = (0xf0..0xfa).collect();
    assert_eq!(
        hex_encode(&hkdf(&salt, &[0x0b; 22], &info, 42)),
        "3cb25f25faacd57a90434f64d0362f2a2d2d0a90cf1a5a4c5db02d56ecc4c5bf34007208d5b887185865"
    );
}

#[test]
fn bytes_are_compared_in_full() {
    assert!(ct_eq(b"same", b"same"));
    assert!(!ct_eq(b"same", b"sane"));
    assert!(!ct_eq(b"same", b"samee"));
    assert!(ct_eq(b"", b""));
}

#[test]
fn a_master_key_is_written_and_read() {
    let key = MasterKey::from_bytes([7u8; 32]);
    assert_eq!(key.to_hex(), "07".repeat(32));
    assert_eq!(MasterKey::from_hex(&key.to_hex()).unwrap().to_hex(), key.to_hex());
    assert_eq!(
        MasterKey::from_hex("0707").err().unwrap(),
        "主密钥必须为 32 字节（64 个 hex 字符）"
    );
    assert_eq!(MasterKey::from_hex("zz").err().unwrap(), "非法 hex 字符: z");
    assert_eq!(
        hex_encode(&key.tenant_key("t")),
        "27cfb5307db7a28367774596364f0c6f3a717e614c0f98e51afe7e5fb1b7f63c"
    );
    assert_ne!(MasterKey::generate().to_hex(), MasterKey::generate().to_hex());
}

#[test]
fn what_is_encrypted_can_be_decrypted() {
    let key = MasterKey::from_bytes([7u8; 32]);
    let ct = key.encrypt_with(3, &[4u8; 12], b"hello");
    assert_eq!(hex_encode(&ct), "fda6c3f44092e8e2bb42decc83d00250ea78763c84");
    assert_eq!(key.decrypt(3, &[4u8; 12], &ct).unwrap(), b"hello");
    assert_eq!(
        key.decrypt(4, &[4u8; 12], &ct).unwrap_err(),
        "密文校验失败（数据被篡改或代次不符）"
    );
    assert_eq!(key.decrypt(3, &[4u8; 11], &ct).unwrap_err(), "nonce 长度必须为 12 字节");
    let (nonce, fresh) = key.encrypt(9, b"hello");
    assert_eq!(fresh.len(), 21);
    assert_eq!(key.decrypt(9, &nonce, &fresh).unwrap(), b"hello");
    let (other, _) = key.encrypt(9, b"hello");
    assert_ne!(nonce, other);
}

#[test]
fn generations_are_found_by_id() {
    let mut keys = KeyFile::deterministic([7u8; 32], [9u8; 32]);
    assert_eq!(keys.master(), [7u8; 32]);
    assert_eq!(keys.key_for(1), Some([9u8; 32]));
    assert_eq!(keys.key_for(2), None);
    assert_eq!(keys.add_generation_with([8u8; 32]), 2);
    assert_eq!(keys.key_for(2), Some([8u8; 32]));
    assert_eq!(keys.key_for(1), Some([9u8; 32]));
    keys.generations.push(GenKey { id: 7, key_b64: b64e(&[1u8; 31]) });
    assert_eq!(keys.key_for(7), None);
    assert_eq!(keys.add_generation(), 8);
    assert!(keys.key_for(8).is_some());
    assert_ne!(KeyFile::generate().master(), KeyFile::generate().master());
}

#[test]
fn token_ids_depend_on_everything_that_they_are_derived_from() {
    let master = [7u8; 32];
    let id = token_id(&master, "t", "email", 1, "alice@example.com", &[]);
    assert_eq!(id, "CuIMIJbsmutGzY*zAX5vAg");
    let salted = token_id(&master, "t", "email", 1, "alice@example.com", &[1u8; 16]);
    assert_eq!(salted, "q*iGAqO3yuil3ZwGsXsc*g");
    assert_ne!(id, token_id(&master, "u", "email", 1, "alice@example.com", &[]));
    assert_ne!(id, token_id(&master, "t", "e", 1, "alice@example.com", &[]));
    assert_ne!(id, token_id(&master, "t", "email", 2, "alice@example.com", &[]));
    assert_ne!(id, token_id(&master, "t", "email", 1, "bob@example.com", &[]));
}

#[test]
fn records_are_bound_to_their_token() {
    let key = [9u8; 32];
    let (nonce, ct) = encrypt_with(&key, &[4u8; 12], "abc", b"hello");
    assert_eq!(nonce, "BAQEBAQEBAQEBAQE");
    assert_eq!(ct, "j9zUFYGYeQ4WtfcNnPuwDAYiIqOg");
    assert_eq!(decrypt(&key, "abc", &nonce, &ct).unwrap(), b"hello");
    assert!(decrypt(&key, "abd", &nonce, &ct).is_none());
    assert!(decrypt(&[8u8; 32], "abc", &nonce, &ct).is_none());
    assert!(decrypt(&key, "abc", "BAQE", &ct).is_none());
    assert!(decrypt(&key, "abc", &nonce, "?").is_none());
}

#[test]
fn either_case_is_read_and_lower_case_is_written() {
    let text = "0123456789abcdefABCDEF0123456789".repeat(2);
    assert_eq!(MasterKey::from_hex(&text).unwrap().to_hex(), text.to_ascii_lowercase());
    assert!(MasterKey::from_hex(&"g".repeat(64)).is_err());
}

#[test]
fn tenants_and_salts_tell_token_ids_apart() {
    let master = [7u8; 32];
    let plain = token_id(&master, "a", "r", 1, "x", &[]);
    assert_eq!(plain, token_id(&master, "a", "r", 1, "x", &[]));
    assert_ne!(plain, token_id(&master, "b", "r", 1, "x", &[]));
    let one = token_id(&master, "a", "r", 1, "x", &[1u8; 16]);
    assert_ne!(plain, one);
    assert_ne!(one, token_id(&master, "a", "r", 1, "x", &[2u8; 16]));
}
