use masking_room::tokens::{
    build, parse, scan, stable_record_id, token_tag, verify_for_tenant, ParsedToken,
};

#[test]
fn build_parse_scan() {
    let id = [3u8; 16];
    let tag = [9u8; 8];
    let tok = build(7, &id, &tag);
    assert!(tok.starts_with("MTKN-G7-"));
    let p = parse(&tok).unwrap();
    assert_eq!(p.gen, 7);
    assert_eq!(p.id, id);
    assert_eq!(p.tag, tag);

    let text = format!("lianxi {tok} jieshu MTKN-G7-bad");
    let found = scan(&text);
    assert_eq!(found.len(), 1);
    assert_eq!(found[0].0, text.find("MTKN-G7").unwrap());
}

#[test]
fn rejects_adjacent_noise() {
    let id = [3u8; 16];
    let tag = [9u8; 8];
    let tok = build(1, &id, &tag);
    assert!(scan(&format!("x{tok}")).is_empty());
    assert!(scan(&format!("{tok}x")).is_empty());
    assert_eq!(scan(&format!("({tok})")).len(), 1);
}

#[test]
fn a_token_is_written_in_three_parts() {
    assert_eq!(build(7, &[3u8; 16], &[9u8; 8]), "MTKN-G7-AwMDAwMDAwMDAwMDAwMDAw-CQkJCQkJCQk");
    let longest = build(u64::MAX, &[0xffu8; 16], &[0xffu8; 8]);
    assert_eq!(longest.len(), 61);
    assert_eq!(parse(&longest).unwrap().gen, u64::MAX);
}

#[test]
fn what_is_no_token() {
    let id = "AwMDAwMDAwMDAwMDAwMDAw";
    let tag = "CQkJCQkJCQk";
    assert!(parse(&format!("MTKN-G0-{id}-{tag}")).is_none());
    assert!(parse(&format!("MTKN-G-{id}-{tag}")).is_none());
    assert!(parse(&format!("MTKN-Gx-{id}-{tag}")).is_none());
    assert!(parse(&format!("MTKN-G18446744073709551616-{id}-{tag}")).is_none());
    assert!(parse(&format!("MTKN-G000000000000000000001-{id}-{tag}")).is_none());
    assert!(parse(&format!("MTKN-G1-{id}{tag}")).is_none());
    assert!(parse(&format!("MTKN-G1-{id}-{tag}-")).is_none());
    assert!(parse(&format!("MTKN-G1-{id}w-{tag}")).is_none());
    assert!(parse(&format!("mtkn-G1-{id}-{tag}")).is_none());
    assert!(parse("MTKN-G1").is_none());
}

#[test]
fn a_scan_lists_what_stands_alone() {
    let a = build(1, &[1u8; 16], &[2u8; 8]);
    let b = build(2, &[3u8; 16], &[4u8; 8]);
    let text = format!("密{a}码 MTKN-G MTKN-Gx {b}");
    let found = scan(&text);
    assert_eq!(found.len(), 2);
    assert_eq!(&text[found[0].0..found[0].1], a);
    assert_eq!(&text[found[1].0..found[1].1], b);
    assert!(found[0].1 <= found[1].0);
    assert_eq!(found[1].2, ParsedToken { gen: 2, id: vec![3u8; 16], tag: vec![4u8; 8] });
}

#[test]
fn tags_and_stable_ids_are_cut_from_hmacs() {
    assert_eq!(
        token_tag(b"k", 7, "t", &[3u8; 16]),
        vec![0xe7, 0x20, 0x0a, 0x6d, 0xcb, 0xd0, 0x1b, 0xfe]
    );
    assert_eq!(
        stable_record_id(b"k", 2, "orig"),
        vec![
            0xf0, 0x06, 0x03, 0x74, 0x98, 0x91, 0x52, 0xcb, 0xe5, 0x5f, 0x0f, 0x37, 0xf8, 0x4c,
            0x07, 0x13
        ]
    );
}

#[test]
fn only_the_tenant_of_a_token_can_verify_it() {
    let key_of = |gen: u64| if gen < 9 { Some(vec![gen as u8; 32]) } else { None };
    let id = vec![5u8; 16];
    let tag = token_tag(&[4u8; 32], 4, "alpha", &id);
    let token = parse(&build(4, &id, &tag)).unwrap();
    let (text, bytes) = verify_for_tenant(&token, "alpha", &[1, 4], &key_of).unwrap();
    assert_eq!(text, "BQUFBQUFBQUFBQUFBQUFBQ");
    assert_eq!(bytes, id);
    assert!(verify_for_tenant(&token, "beta", &[1, 4], &key_of).is_none());
    assert!(verify_for_tenant(&token, "alpha", &[1, 2], &key_of).is_none());
    let unknown = ParsedToken { gen: 9, id, tag };
    assert!(verify_for_tenant(&unknown, "alpha", &[9], &key_of).is_none());
}

#[test]
fn every_token_that_stands_alone_is_listed() {
    let plain = build(7, &[1u8; 16], &[2u8; 8]);
    let padded = plain.replace("-G7-", "-G007-");
    let signed = plain.replace("-G7-", "-G+7-");
    let text = format!("{padded} {plain}");
    let found = scan(&text);
    assert_eq!(found.len(), 2);
    assert_eq!((found[0].0, found[0].1), (0, padded.len()));
    assert_eq!(found[0].2, found[1].2);
    assert_eq!(parse(&signed).unwrap().gen, 7);
    assert!(scan(&signed).is_empty());
}
