use masking_room::crypto::{b64e, GenKey, KeyFile};
use masking_room::json::Value;
use masking_room::redaction::{extract_token_id, make_token, protected_spans};
use masking_room::service::{audit_hash, Draw, RedactOutcome, Vault, RESTORE_ERROR};
use masking_room::state::{MatchKind, Rule, Store};

const MASTER: [u8; 32] = [7u8; 32];
const GEN1: [u8; 32] = [9u8; 32];

fn rule(id: &str, version: u32, kind: MatchKind, pattern: &str, priority: i32) -> Rule {
    Rule {
        id: id.to_string(),
        version,
        kind,
        pattern: pattern.to_string(),
        priority,
        description: String::new(),
        stable: true,
    }
}

fn email_rule() -> Rule {
    rule("email", 1, MatchKind::Regex, r"[A-Za-z0-9._%+-]+@[A-Za-z0-9.-]+\.[A-Za-z]{2,}", 10)
}

fn fresh_vault() -> Vault {
    Vault::init_with_keys(MASTER, GEN1)
}

fn token_of(outcome: &RedactOutcome, idx: usize) -> String {
    outcome.tokens[idx].token.clone()
}

/// The room as it would be found again: the same state and the same keys.
fn reopened(v: &Vault) -> Vault {
    let keys = KeyFile {
        master: v.store.keys.master,
        generations: v.store.keys.generations.clone(),
    };
    Vault::load(Store { state: v.store.state.clone(), keys })
}

#[test]
fn stable_token_same_tenant_and_inputs() {
    let mut v = fresh_vault();
    v.register_rule(email_rule()).unwrap();
    let a = v.redact("tenant-a", "mail alice@example.com now").unwrap();
    let b = v.redact("tenant-a", "again alice@example.com here").unwrap();
    assert_eq!(a.tokens[0].token_id, b.tokens[0].token_id, "同租户+规则版本+原文 => 稳定 token");
    assert_eq!(v.store.state.mappings.len(), 1, "稳定 token 复用同一映射");
}

#[test]
fn cross_tenant_tokens_unlinkable() {
    let mut v = fresh_vault();
    v.register_rule(email_rule()).unwrap();
    let a = v.redact("tenant-a", "alice@example.com").unwrap();
    let b = v.redact("tenant-b", "alice@example.com").unwrap();
    assert_ne!(a.tokens[0].token_id, b.tokens[0].token_id, "不同租户绝不能产生可关联 token");
    assert_ne!(a.redacted, b.redacted);
    assert_eq!(v.store.state.mappings.len(), 2);
}

#[test]
fn overlap_resolved_by_priority_then_longest() {
    let mut v = fresh_vault();
    v.register_rule(email_rule()).unwrap();
    v.register_rule(rule("custom-name", 1, MatchKind::Literal, "alice@example", 5)).unwrap();
    v.register_rule(rule("ticket", 1, MatchKind::Regex, r"ID-[0-9]+", 1)).unwrap();
    v.register_rule(rule("short", 1, MatchKind::Literal, "ID-123", 3)).unwrap();
    v.register_rule(rule("long", 1, MatchKind::Literal, "ID-12345", 3)).unwrap();

    let text = "联系 alice@example.com 或编号 ID-12345";
    let preview = v.preview(text);
    let accepted_ids: Vec<&str> = preview.accepted.iter().map(|s| s.rule_id.as_str()).collect();
    assert!(accepted_ids.contains(&"email"));
    assert!(accepted_ids.contains(&"long"), "同优先级取最长匹配");
    assert!(!accepted_ids.contains(&"custom-name"));
    assert!(!accepted_ids.contains(&"short"));

    let suppressed: Vec<(&str, &str)> = preview
        .suppressed
        .iter()
        .map(|s| (s.rule_id.as_str(), s.suppressed_by.rule_id.as_str()))
        .collect();
    assert!(suppressed.contains(&("custom-name", "email")), "解释被压下的命中");
    assert!(suppressed.contains(&("short", "long")));
    assert!(suppressed.contains(&("ticket", "long")));

    let out = v.redact("t", text).unwrap();
    assert!(!out.redacted.contains("alice@example.com"));
    assert!(!out.redacted.contains("ID-12345"));
    assert_eq!(out.tokens.len(), 2);
}

#[test]
fn redaction_is_idempotent() {
    let mut v = fresh_vault();
    v.register_rule(email_rule()).unwrap();
    v.register_rule(rule("anyword", 1, MatchKind::Regex, r"[A-Za-z0-9]+", 0)).unwrap();
    let once = v.redact("t", "mail alice@example.com end").unwrap();
    let mappings_before = v.store.state.mappings.len();
    let twice = v.redact("t", &once.redacted).unwrap();
    assert_eq!(once.redacted, twice.redacted, "重复处理必须保持不变");
    assert!(twice.tokens.is_empty(), "token 自身不得再被识别");
    assert_eq!(v.store.state.mappings.len(), mappings_before, "不得产生新映射");
}

#[test]
fn batch_restore_partial_failure_and_uniform_error() {
    let mut v = fresh_vault();
    v.register_rule(email_rule()).unwrap();
    let a = v.redact("tenant-a", "alice@example.com").unwrap();
    let b = v.redact("tenant-b", "bob@example.com").unwrap();
    let unknown_wellformed = format!("⟦TKN-{}⟧", "A".repeat(22));
    let garbage = "not-a-token".to_string();

    let results = v.restore(
        "客服回访",
        &[token_of(&a, 0), unknown_wellformed.clone(), token_of(&b, 0), garbage.clone()],
    );
    assert_eq!(results.len(), 4);
    assert!(results[0].ok && results[0].text.as_deref() == Some("alice@example.com"));
    assert!(!results[1].ok, "未知 token 失败");
    assert!(
        results[2].ok && results[2].text.as_deref() == Some("bob@example.com"),
        "无效项不影响其他项"
    );
    assert!(!results[3].ok);
    assert_eq!(results[1].error.as_deref(), Some(RESTORE_ERROR));
    assert_eq!(results[3].error.as_deref(), Some(RESTORE_ERROR), "统一错误，不泄露归属");
    assert_eq!(results[1].error, results[3].error);

    let kinds: Vec<&str> = v.store.state.audit.iter().map(|r| r.kind.as_str()).collect();
    assert_eq!(kinds.iter().filter(|k| **k == "restore_ok").count(), 2);
    assert_eq!(kinds.iter().filter(|k| **k == "restore_fail").count(), 2);
}

#[test]
fn rotation_keeps_old_mappings_and_writes_new_gen() {
    let mut v = fresh_vault();
    v.register_rule(email_rule()).unwrap();
    let before = v.redact("t", "alice@example.com").unwrap();
    let old_token = token_of(&before, 0);

    let new_gen = v.rotate();
    assert_eq!(new_gen, 2);
    assert_eq!(v.store.state.current_gen, 2);

    let res = v.restore("轮换后还原旧 token", &[old_token]);
    assert!(res[0].ok);
    assert_eq!(res[0].text.as_deref(), Some("alice@example.com"));

    let after = v.redact("t", "carol@example.com").unwrap();
    let rec = v.store.state.mappings.get(&after.tokens[0].token_id).unwrap();
    assert_eq!(rec.gen, 2, "新映射必须使用新代次密钥");
    assert_eq!(v.store.state.mappings.get(&before.tokens[0].token_id).unwrap().gen, 1);

    assert!(v.store.state.audit.iter().any(|a| a.kind == "rotate"));
    assert!(v.verify_audit());
}

#[test]
fn export_contains_no_plaintext_mappings() {
    let mut v = fresh_vault();
    v.register_rule(email_rule()).unwrap();
    v.redact("tenant-a", "secret alice@example.com").unwrap();
    v.restore("导出前还原", &["⟦TKN-AAAAAAAAAAAAAAAAAAAAAA⟧".to_string()]);

    let export = v.export();
    let json = format!("{:?}", export);
    assert!(!json.contains("alice@example.com"), "导出不得包含原文");
    assert!(!json.contains("ciphertext_b64"), "导出不得包含映射密文");
    assert!(json.contains("email"), "导出包含规则元数据");
    assert!(json.contains("hashes"), "导出包含审计摘要");
    assert_eq!(export.redacted_texts.len(), 1);
    assert!(export.redacted_texts[0].redacted_text.contains("⟦TKN-"));
}

#[test]
fn state_persists_across_restart() {
    let token;
    let stored = {
        let mut v = fresh_vault();
        v.register_rule(email_rule()).unwrap();
        token = token_of(&v.redact("t", "alice@example.com").unwrap(), 0);
        reopened(&v)
    };
    let mut v2 = stored;
    assert_eq!(v2.store.state.rules.len(), 1);
    let res = v2.restore("重启后还原", &[token]);
    assert!(res[0].ok);
    assert_eq!(res[0].text.as_deref(), Some("alice@example.com"));
    assert!(v2.verify_audit());
}

#[test]
fn unstable_rule_produces_fresh_tokens() {
    let mut v = fresh_vault();
    let mut r = email_rule();
    r.stable = false;
    v.register_rule(r).unwrap();
    let a = v.redact("t", "alice@example.com").unwrap();
    let b = v.redact("t", "alice@example.com").unwrap();
    assert_ne!(a.tokens[0].token_id, b.tokens[0].token_id, "非稳定规则每次生成新 token");
    assert_eq!(v.store.state.mappings.len(), 2);
}

#[test]
fn a_generation_left_by_a_crash_is_passed_over() {
    let mut v = fresh_vault();
    v.register_rule(email_rule()).unwrap();
    let token = token_of(&v.redact("t", "alice@example.com").unwrap(), 0);
    v.rotate();
    let audit_len = v.store.state.audit.len();
    let mut v2 = reopened(&v);
    v2.store.keys.generations.push(GenKey { id: 3, key_b64: b64e(&[3u8; 32]) });
    assert_eq!(v2.store.state.current_gen, 2);
    assert!(v2.verify_audit());
    assert_eq!(v2.store.state.audit.len(), audit_len);
    assert!(v2.store.state.mappings.records().iter().all(|m| m.gen <= 2));
    assert!(v2.restore("崩溃恢复后", &[token])[0].ok);
    let out2 = v2.redact("t", "dave@example.com").unwrap();
    assert_eq!(v2.store.state.mappings.get(&out2.tokens[0].token_id).unwrap().gen, 2);
    assert_eq!(v2.rotate(), 4);
    assert!(v2.verify_audit());
}

#[test]
fn tampering_with_the_log_shows() {
    let mut v = fresh_vault();
    v.register_rule(email_rule()).unwrap();
    v.redact("t", "alice@example.com").unwrap();
    assert!(v.verify_audit());

    let mut v2 = reopened(&v);
    v2.store.state.audit[1].detail = Value::obj(vec![("tenant", Value::str("attacker"))]);
    assert!(!v2.verify_audit());
    let mut v3 = reopened(&v);
    v3.store.state.audit[0].kind = "redact".to_string();
    assert!(!v3.verify_audit());
    let mut v4 = reopened(&v);
    v4.store.state.audit.remove(0);
    assert!(!v4.verify_audit());
}

#[test]
fn hashes_of_the_log_are_over_canonical_text() {
    let detail = Value::obj(vec![
        ("to", Value::Num("2".to_string())),
        ("from", Value::Num("1".to_string())),
    ]);
    assert_eq!(
        audit_hash(0, 5, "rotate", &detail, &"0".repeat(64)),
        "5075ef9afef4b66c610efdb12c555e1c67ecaa94ef147eb3215ea3fa09b82794"
    );
    let mut v = fresh_vault();
    v.finish_rotation_at(2, 5);
    let first = &v.store.state.audit[0];
    assert_eq!(first.hash, "5075ef9afef4b66c610efdb12c555e1c67ecaa94ef147eb3215ea3fa09b82794");
    assert_eq!(first.prev_hash, "0".repeat(64));
}

#[test]
fn rules_are_checked_replaced_and_kept_in_order() {
    let mut v = fresh_vault();
    let message = "规则 id 与 pattern 不能为空";
    assert_eq!(v.register_rule(rule("", 1, MatchKind::Literal, "x", 0)).unwrap_err(), message);
    assert_eq!(v.register_rule(rule("x", 1, MatchKind::Literal, "", 0)).unwrap_err(), message);
    let e = v.register_rule(rule("x", 1, MatchKind::Regex, "(", 0)).unwrap_err();
    assert!(e.starts_with("正则无效: "));
    assert!(e.contains("unclosed group"));
    assert!(v.store.state.audit.is_empty());
    assert!(v.register_rule(rule("x", 1, MatchKind::Literal, "(", 0)).is_ok());

    v.register_rule(rule("b", 1, MatchKind::Literal, "b", 0)).unwrap();
    v.register_rule(rule("a", 1, MatchKind::Literal, "a", 0)).unwrap();
    v.register_rule(rule("b", 2, MatchKind::Literal, "bb", -3)).unwrap();
    let ids: Vec<(&str, u32)> =
        v.store.state.rules.iter().map(|r| (r.id.as_str(), r.version)).collect();
    assert_eq!(ids, vec![("a", 1), ("b", 2), ("x", 1)]);
    assert_eq!(v.store.state.audit.len(), 4);
    let detail = &v.store.state.audit[3].detail;
    assert_eq!(detail.get("kind").unwrap().as_str(), Some("Literal"));
    assert_eq!(detail.get("priority").unwrap(), &Value::Num("-3".to_string()));
    assert!(v.verify_audit());
}

#[test]
fn a_text_is_masked_with_what_was_drawn() {
    let mut v = fresh_vault();
    v.register_rule_at(email_rule(), 1).unwrap();
    let text = "邮 alice@example.com!";
    let adj = v.adjudicate(text);
    assert_eq!(adj.accepted.len(), 1);
    let draws = vec![Draw { salt: [1u8; 16], nonce: [4u8; 12], now: 77 }];
    assert!(v.fits("t", text));
    let out = v.mask("t", text, &adj, &GEN1, &draws, 78, 79);
    assert_eq!(out.redacted, "邮 ⟦TKN-CuIMIJbsmutGzY*zAX5vAg⟧!");
    assert_eq!(out.tokens[0].matched, "alice@example.com");
    let rec = v.store.state.mappings.get("CuIMIJbsmutGzY*zAX5vAg").unwrap();
    assert_eq!(rec.nonce_b64, "BAQEBAQEBAQEBAQE");
    assert_eq!(
        rec.ciphertext_b64,
        "nJvIFY~cBVvjPBYQLnpN*qbJHKdt8ec1DzrJm8McunVFtm0KZfq247GlbIVMETRg3a*pOpRnJzSOX*l6qOsbATQEGGlVCGP40iVUJigz~3sEwbU3C2ae8jRMbHk"
    );
    assert_eq!((rec.gen, rec.created_ms), (1, 77));
    assert_eq!(v.store.state.redactions[0].ts, 78);
    assert_eq!(v.store.state.redactions[0].token_ids, vec!["CuIMIJbsmutGzY*zAX5vAg".to_string()]);
    assert_eq!(v.store.state.audit[1].ts, 79);
    assert_eq!(v.store.state.audit[1].detail.get("count").unwrap().as_u64(), Some(1));
    let item = v.restore_one("核对", &token_of(&out, 0), 80);
    assert_eq!(item.text.as_deref(), Some("alice@example.com"));
}

#[test]
fn texts_with_odd_characters_come_back() {
    let mut v = fresh_vault();
    let odd = "a\"\\\u{1}\n密😀/\u{7f}";
    v.register_rule(rule("odd", 1, MatchKind::Literal, odd, 0)).unwrap();
    let out = v.redact("租户\"", &format!("<{odd}>")).unwrap();
    assert_eq!(out.tokens[0].matched, odd);
    let res = v.restore("核对", &[token_of(&out, 0)]);
    assert_eq!(res[0].text.as_deref(), Some(odd));
}

#[test]
fn requests_without_tenant_key_or_purpose_are_refused() {
    let mut v = fresh_vault();
    assert_eq!(v.redact("", "x").unwrap_err(), "租户不能为空");
    v.store.state.current_gen = 5;
    assert_eq!(v.redact("t", "x").unwrap_err(), "当前密钥代次不存在");
    let res = v.restore("  \u{3000}", &["a".to_string()]);
    assert_eq!(res[0].error.as_deref(), Some("必须填写用途说明"));
    assert!(!res[0].ok);
    assert!(v.store.state.audit.is_empty());
}

#[test]
fn tokens_are_recognised_by_their_form() {
    let id = "AwMDAwMDAwMDAwMDAwMDAw";
    let token = make_token(id);
    assert_eq!(token, "⟦TKN-AwMDAwMDAwMDAwMDAwMDAw⟧");
    assert_eq!(extract_token_id(&token).as_deref(), Some(id));
    assert!(extract_token_id(&format!("{token} ")).is_none());
    assert!(extract_token_id("⟦TKN-AwMDAwMDAwMDAwMDAwMDA-⟧").is_none());
    assert!(extract_token_id(id).is_none());
    let text = format!("密{token}{token}⟦TKN-short⟧");
    assert_eq!(protected_spans(&text), vec![(3, 35), (35, 67)]);
}

#[test]
fn tokens_in_a_text_stay_whatever_the_rules_are() {
    let mut v = fresh_vault();
    v.register_rule(rule("all", 1, MatchKind::Regex, r"\S+", 9)).unwrap();
    v.register_rule(rule("lit", 1, MatchKind::Literal, "TKN", 9)).unwrap();
    v.register_rule(rule("empty", 1, MatchKind::Regex, "x*", 99)).unwrap();
    let token = make_token("AwMDAwMDAwMDAwMDAwMDAw");
    let out = v.redact("t", &format!("a {token} b")).unwrap();
    assert!(out.redacted.contains(&token));
    assert_eq!(out.tokens.len(), 2);
    let joined = v.redact("t", &format!("a{token}b")).unwrap();
    assert_eq!(joined.redacted, format!("a{token}b"));
}

#[test]
fn a_rotation_has_two_steps() {
    let mut v = Vault::open_or_init(None);
    assert_eq!(v.store.state.current_gen, 1);
    v.register_rule(email_rule()).unwrap();
    let token = token_of(&v.redact("t", "a@b.com").unwrap(), 0);
    assert_eq!(v.begin_rotation_with([5u8; 32]), 2);
    assert_eq!(v.store.state.current_gen, 1);
    assert_eq!(v.begin_rotation(), 3);
    v.finish_rotation(3);
    assert_eq!(v.store.state.current_gen, 3);
    let rotate = v.store.state.audit.last().unwrap();
    assert_eq!(rotate.detail.get("from").unwrap().as_u64(), Some(1));
    assert_eq!(rotate.detail.get("to").unwrap().as_u64(), Some(3));
    let mut again = Vault::open_or_init(Some(v.store));
    assert_eq!(again.restore("核对", &[token])[0].text.as_deref(), Some("a@b.com"));
}

#[test]
fn tokens_keep_their_meaning_whatever_is_asked_in_between() {
    let mut v = fresh_vault();
    v.register_rule(email_rule()).unwrap();
    let first = v.redact("tenant-a", "alice@example.com").unwrap();
    let token = token_of(&first, 0);
    for _ in 0..2 {
        v.register_rule(rule("ticket", 1, MatchKind::Regex, r"ID-[0-9]+", -3)).unwrap();
        v.redact("tenant-a", "ID-7 for bob@example.com").unwrap();
        v.rotate();
        let item = &v.restore("核对", &[token.clone()])[0];
        assert!(item.ok);
        assert_eq!(item.text.as_deref(), Some("alice@example.com"));
        assert!(v.verify_audit());
    }
}

#[test]
fn a_text_that_fits_is_masked_as_ever() {
    let mut v = fresh_vault();
    v.register_rule(email_rule()).unwrap();
    assert!(v.redact_if_it_fits("", "alice@example.com").unwrap().is_err());
    let outcome = v.redact_if_it_fits("tenant-a", "to alice@example.com").unwrap().unwrap();
    assert_eq!(outcome.tokens[0].matched, "alice@example.com");
    assert_eq!(outcome.redacted, format!("to {}", token_of(&outcome, 0)));
}

#[test]
fn rotations_follow_one_another() {
    let mut v = fresh_vault();
    let first = v.store.keys.generations[0].key_b64.clone();
    assert_eq!(v.rotate(), 2);
    assert_eq!(v.rotate(), 3);
    let ids: Vec<u32> = v.store.keys.generations.iter().map(|g| g.id).collect();
    assert_eq!(ids, vec![1, 2, 3]);
    assert_eq!(v.store.keys.generations[0].key_b64, first);
}

#[test]
fn keys_and_draws_do_not_share_bytes() {
    let v = Vault::open_or_init(None);
    assert_ne!(b64e(&v.store.keys.master), v.store.keys.generations[0].key_b64);
    let mut w = fresh_vault();
    let mut loose = rule("n", 1, MatchKind::Literal, "x", 1);
    loose.stable = false;
    w.register_rule(loose).unwrap();
    let out = w.redact("t", "x x").unwrap();
    assert_ne!(out.tokens[0].token_id, out.tokens[1].token_id);
    let records = w.store.state.mappings.records();
    assert_ne!(records[0].nonce_b64, records[1].nonce_b64);
}
