use masking_room::error::ErrorCode;
use masking_room::json::Value;
use masking_room::rules::{
    adjudicate, apply_selected, collect_candidates, compile_rules, default_rules,
    replace_selected, validate_rule, Candidate, CustomRange, Rule, RuleSet,
};

fn rule(id: &str, kind: &str, pattern: &str, priority: i32) -> Rule {
    Rule {
        id: id.to_string(),
        name: id.to_string(),
        kind: kind.to_string(),
        pattern: pattern.to_string(),
        priority,
        enabled: true,
    }
}

fn set(rules: Vec<Rule>) -> RuleSet {
    RuleSet { version: "v1".to_string(), rules }
}

fn complaint(s: RuleSet) -> (ErrorCode, String) {
    let e = s.validate().unwrap_err();
    (e.code, e.message)
}

fn candidate(start: usize, end: usize, rule_id: &str) -> Candidate {
    Candidate { start, end, rule_id: rule_id.to_string() }
}

#[test]
fn sets_of_rules_are_checked() {
    assert!(set(default_rules()).validate().is_ok());
    let invalid = ErrorCode::InvalidRequest;
    let blank = RuleSet { version: "  ".to_string(), rules: default_rules() };
    assert_eq!(complaint(blank), (invalid, "规则版本不能为空".to_string()));
    assert_eq!(complaint(set(vec![])), (invalid, "规则集至少需要一条规则".to_string()));
    assert_eq!(
        complaint(set(vec![rule(" ", "range", "", 1)])),
        (invalid, "规则 id 不能为空".to_string())
    );
    assert_eq!(
        complaint(set(vec![rule("a", "range", "", 1), rule("a", "range", "", 2)])),
        (ErrorCode::RuleConflict, "规则 id 重复: a".to_string())
    );
    assert_eq!(
        complaint(set(vec![rule("a", "email", "x", 1)])),
        (invalid, "内置规则 email 不接受自定义 pattern".to_string())
    );
    assert_eq!(
        complaint(set(vec![rule("a", "pattern", "(x", 1)])),
        (invalid, "规则 a 的正则无效: missing closing ')'".to_string())
    );
    assert_eq!(
        validate_rule(&rule("a", "odd", "", 1)).unwrap_err().message,
        "未知规则类型: odd"
    );
    assert!(validate_rule(&rule("a", "pattern", "x+", 1)).is_ok());
}

#[test]
fn rules_are_found_and_described() {
    let s = set(default_rules());
    assert_eq!(s.find("number").unwrap().name, "数字编号");
    assert!(s.find("none").is_none());
    let long = rule("p", "pattern", &"a".repeat(70), 3);
    let meta = long.metadata();
    assert_eq!(meta[3].0, "pattern_preview");
    assert_eq!(meta[3].1, Value::str(&"a".repeat(64)));
    assert_eq!(meta[4].1, Value::Num("3".to_string()));
    assert_eq!(meta[5].1, Value::Bool(true));
}

#[test]
fn candidates_are_collected_outside_of_tokens() {
    let token = format!("TOK.{}", "0a".repeat(12));
    let text = format!("mail a@b.com {token} 12345");
    let (found, protected) = collect_candidates(&text, &default_rules(), &[]).unwrap();
    let start = text.find("TOK").unwrap();
    assert_eq!(protected, vec![(start, start + 28)]);
    let places: Vec<(usize, usize, &str)> =
        found.iter().map(|c| (c.start, c.end, c.rule_id.as_str())).collect();
    assert_eq!(places, vec![(5, 12, "email"), (start + 29, start + 34, "number")]);
}

#[test]
fn custom_ranges_are_checked() {
    let range = |start, end| [CustomRange { rule_id: "c".to_string(), start, end }];
    let rules = [rule("c", "range", "", 1)];
    let message = |r: &[CustomRange]| match collect_candidates("密码x", &rules, r) {
        Ok(_) => panic!("accepted"),
        Err(e) => e.message,
    };
    assert_eq!(message(&range(3, 3)), "自定义区间非法: [3, 3)");
    assert_eq!(message(&range(0, 8)), "自定义区间非法: [0, 8)");
    assert_eq!(message(&range(1, 6)), "自定义区间必须落在字符边界上");
    let (found, _) = collect_candidates("密码x", &rules, &range(3, 7)).unwrap();
    assert_eq!((found[0].start, found[0].end, found[0].rule_id.as_str()), (3, 7, "c"));
}

#[test]
fn programs_are_compiled_for_enabled_rules() {
    let mut off = rule("off", "odd", "", 1);
    off.enabled = false;
    assert!(compile_rules(&[off]).is_ok());
    let compiled = compile_rules(&[rule("p", "pattern", "a+", 1), rule("r", "range", "", 1)]);
    let compiled = compiled.ok().unwrap();
    assert!(compiled.program("p").is_some());
    assert!(compiled.program("r").is_none());
    let e = compile_rules(&[rule("p", "pattern", "[", 1)]).err().unwrap();
    assert_eq!(e.message, "内置正则编译失败: unterminated character class");
    let e = compile_rules(&[rule("p", "odd", "", 1)]).err().unwrap();
    assert_eq!(e.message, "未知规则类型: odd");
}

fn priority(id: &str) -> Option<i32> {
    match id {
        "high" => Some(9),
        "mid" | "mid2" => Some(5),
        _ => None,
    }
}

#[test]
fn the_higher_priority_wins_and_else_the_longer_match() {
    let a = adjudicate(
        vec![
            candidate(0, 9, "mid"),
            candidate(2, 4, "high"),
            candidate(10, 12, "mid"),
            candidate(10, 14, "mid2"),
            candidate(13, 15, "none"),
            candidate(20, 22, "mid2"),
            candidate(21, 23, "mid"),
        ],
        priority,
    );
    let won: Vec<(usize, usize)> = a.selected.iter().map(|c| (c.start, c.end)).collect();
    assert_eq!(won, vec![(2, 4), (10, 14), (20, 22)]);
    let lost: Vec<(usize, &str, &str)> = a
        .suppressed
        .iter()
        .map(|s| (s.start, s.by_rule_id.as_str(), s.reason.as_str()))
        .collect();
    assert_eq!(
        lost,
        vec![
            (0, "high", "lower_priority"),
            (10, "mid2", "shorter_match"),
            (13, "mid2", "lower_priority"),
            (21, "mid2", "stable_order_tie_break"),
        ]
    );
}

#[test]
fn the_order_of_candidates_does_not_matter() {
    let list = [(0, 4, "mid"), (2, 6, "mid2"), (5, 9, "high"), (8, 12, "mid")];
    let run = |order: [usize; 4]| {
        let a = adjudicate(
            order.iter().map(|i| candidate(list[*i].0, list[*i].1, list[*i].2)).collect(),
            priority,
        );
        let won: Vec<(usize, usize)> = a.selected.iter().map(|c| (c.start, c.end)).collect();
        let lost: Vec<(usize, String)> =
            a.suppressed.iter().map(|s| (s.start, s.reason.clone())).collect();
        (won, lost)
    };
    assert_eq!(run([0, 1, 2, 3]), run([3, 1, 0, 2]));
    assert_eq!(run([0, 1, 2, 3]).0, vec![(0, 4), (5, 9)]);
}

#[test]
fn only_the_selected_fragments_are_replaced() {
    let selected = [candidate(3, 6, "a"), candidate(10, 11, "b")];
    let out = apply_selected("密码 abc x", &selected, |i| format!("<{i}>"));
    assert_eq!(out, "密<0> abc<1>x");
    let same = replace_selected("密码 abc x", &selected, vec!["<0>".to_string(), "<1>".to_string()]);
    assert_eq!(same, out);
    assert_eq!(apply_selected("text", &[], |_| panic!("asked")), "text");
}

#[test]
fn empty_fragments_are_places_for_tokens() {
    let selected = [candidate(0, 0, "a"), candidate(1, 2, "b"), candidate(2, 2, "c")];
    assert_eq!(apply_selected("xyz", &selected, |i| format!("<{i}>")), "<0>x<1><2>z");
}
