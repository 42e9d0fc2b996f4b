use masking_room::audit::{
    append_entry, gather_entries, hash_entry, log_lines, tag_entry, verify_chain, AuditEntry,
    ChainHead, Clock, FixedClock, SystemClock,
};
use masking_room::clock::{millis_or_zero, seconds_or_zero};
use masking_room::crypto::hex_encode;
use masking_room::json::Value;

fn details(n: u64) -> Value {
    Value::obj(vec![("b", Value::Num(format!("{n}"))), ("a", Value::str("x"))])
}

fn sample(key: &[u8]) -> Vec<AuditEntry> {
    let mut clock = FixedClock::new(1_700_000_000);
    let mut head = ChainHead::genesis();
    let mut list = Vec::new();
    for n in 1..4 {
        let tenant = if n == 2 { None } else { Some("t") };
        let (entry, next) = append_entry(key, head, tenant, "restore-ok", details(n), &clock);
        list.push(entry);
        head = next;
        clock.tick(10);
    }
    list
}

#[test]
fn a_chain_starts_at_a_fixed_digest() {
    let head = ChainHead::genesis();
    assert_eq!(head.seq, 0);
    assert_eq!(head.hex(), "2753ed3f1a0b97d0ed66a6e353ab3724466c5c19daafa2ef4d8a21f5019c08f9");
}

#[test]
fn digests_and_tags_cover_the_entry() {
    let tenant = Some("t".to_string());
    let hash = hash_entry(1, -5, &tenant, "kind", &details(1), &ChainHead::genesis().hex());
    assert_eq!(
        hex_encode(&hash),
        "618737a04a946733afde538bf159f0a4a0133720fd6756907b82abefcc68d7aa"
    );
    assert_eq!(
        tag_entry(b"key", &hash),
        "3b75645bb54a7765f6e7dff95d5c773fb643096bc91e8d59d8d1e020930d0ef0"
    );
}

#[test]
fn appended_entries_form_a_chain() {
    let list = sample(b"key");
    assert_eq!(list[0].prev_hash, ChainHead::genesis().hex());
    assert_eq!(list[1].prev_hash, list[0].entry_hash);
    assert_eq!(list[2].seq, 3);
    assert_eq!(list[2].ts_unix, 1_700_000_020);
    assert_eq!(list[1].tenant, None);
    let report = verify_chain(&list, &vec![], b"key");
    assert!(report.ok);
    assert_eq!(report.entries, 3);
    assert_eq!(report.error, None);
}

#[test]
fn every_change_of_a_log_shows() {
    let error = |list: &Vec<AuditEntry>, key: &[u8]| {
        let report = verify_chain(list, &vec![], key);
        assert!(!report.ok);
        report.error.unwrap()
    };
    let mut list = sample(b"key");
    assert_eq!(error(&list, b"other"), "第 1 条标签无效（密钥不匹配或标签被伪造）");
    list[1].details = details(9);
    assert_eq!(error(&list, b"key"), "第 2 条内容摘要不匹配（正文被改写）");

    let mut list = sample(b"key");
    list.remove(1);
    assert_eq!(error(&list, b"key"), "第 2 条序号断链");
    list[1].seq = 2;
    assert_eq!(error(&list, b"key"), "第 2 条 prev_hash 不匹配（可能被删除或插入）");

    let mut list = sample(b"key");
    list[2].tag = list[1].tag.clone();
    assert_eq!(error(&list, b"key"), "第 3 条标签无效（密钥不匹配或标签被伪造）");

    let report = verify_chain(&sample(b"key"), &vec!["第 4 行无法解析".to_string()], b"key");
    assert!(!report.ok);
    assert_eq!(report.entries, 3);
    assert_eq!(report.error.as_deref(), Some("第 4 行无法解析"));
}

#[test]
fn lines_are_numbered_and_blank_ones_passed_over() {
    let lines = log_lines("a\r\n\n  \nb\r\nc\r");
    assert_eq!(
        lines,
        vec![(1, "a".to_string()), (4, "b".to_string()), (5, "c\r".to_string())]
    );
    assert!(log_lines("").is_empty());
    assert_eq!(log_lines("x\n"), vec![(1, "x".to_string())]);
}

#[test]
fn unreadable_lines_are_remarked_on() {
    let mut list = sample(b"key");
    let parsed = vec![(1, Some(list.remove(0))), (3, None), (4, Some(list.remove(0)))];
    let (entries, bad) = gather_entries(parsed);
    assert_eq!(entries.len(), 2);
    assert_eq!(entries[1].seq, 2);
    assert_eq!(bad, vec!["第 3 行无法解析".to_string()]);
}

#[test]
fn clocks_tell_the_time() {
    let mut clock = FixedClock::new(5);
    assert_eq!(clock.now_unix(), 5);
    clock.tick(-7);
    assert_eq!(clock.now_unix(), -2);
    assert!(SystemClock.now_unix() > 1_600_000_000);
}

#[test]
fn times_are_cut_to_size_and_zero_before_1970() {
    assert_eq!(seconds_or_zero(None), 0);
    assert_eq!(seconds_or_zero(Some(1_700_000_000)), 1_700_000_000);
    assert_eq!(seconds_or_zero(Some(u64::MAX)), -1);
    assert_eq!(millis_or_zero(None), 0);
    assert_eq!(millis_or_zero(Some(1_700_000_000_123)), 1_700_000_000_123);
    assert_eq!(millis_or_zero(Some(1u128 << 64)), 0);
}

#[test]
fn gaps_and_insertions_show_but_not_a_missing_end() {
    let key = [3u8; 32];
    let log = sample(&key);
    let last = log.len() - 1;
    for k in 0..last {
        let mut gap = sample(&key);
        gap.remove(k);
        assert!(!verify_chain(&gap, &vec![], &key).ok);
    }
    for k in 0..log.len() {
        let mut more = sample(&key);
        let extra = sample(&key).remove(k);
        more.insert(k, extra);
        assert!(!verify_chain(&more, &vec![], &key).ok);
    }
    let mut short = sample(&key);
    short.remove(last);
    assert!(verify_chain(&short, &vec![], &key).ok);
}
