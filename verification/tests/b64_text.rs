use masking_room::b64::{decode, encode};

#[test]
fn roundtrip() {
    for len in 0..40 {
        let data: Vec<u8> = (0..len).map(|i| (i * 7 + 3) as u8).collect();
        let s = encode(&data);
        assert_eq!(decode(&s).unwrap(), data);
    }
    assert_eq!(encode(&[0xff]), "~w");
    assert_eq!(decode("~w").unwrap(), vec![0xff]);
    assert!(decode("~8").is_none());
    assert_eq!(decode("A").is_none(), true);
}

#[test]
fn encoding_inverts_decoding() {
    for text in ["", "AA", "~w", "AwMD", "AwMDAwMDAwMDAwMDAwMDAw"] {
        let bytes = decode(text).unwrap();
        assert_eq!(encode(&bytes), text);
    }
}

#[test]
fn other_characters_are_refused() {
    for text in ["A-", "A+", "A/", "A=", "密", "AA AA"] {
        assert!(decode(text).is_none());
    }
}
