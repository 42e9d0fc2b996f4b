//! Masking rules: their model, the recognition of fragments around protected tokens, and
//! the adjudication of overlapping fragments by priority and length.

use crate::engine;
use crate::engine::{Program, RawHit, Step};
use crate::error;
use crate::error::{Error, ErrorCode, Fault, Result};
use crate::json;
use crate::json::{Json, Value};
use crate::sorting;
use crate::text;
use vstd::prelude::*;
use vstd::string::*;
use vstd::utf8::*;

verus! {

broadcast use vstd::seq::group_seq_axioms;

pub const KIND_EMAIL: &'static str = "email";

pub const KIND_NUMBER: &'static str = "number";

pub const KIND_PATTERN: &'static str = "pattern";

pub const KIND_RANGE: &'static str = "range";

pub const EMAIL_PATTERN: &'static str = "[a-zA-Z0-9._%+-]+@[a-zA-Z0-9.-]+";

pub const NUMBER_PATTERN: &'static str = "[0-9]{4,}";

pub const TOKEN_PATTERN: &'static str = "TOK\\.[0-9a-v]{24}";

/// A masking rule.
#[derive(Debug, PartialEq, Eq)]
pub struct Rule {
    pub id: String,
    pub name: String,
    pub kind: String,
    pub pattern: String,
    pub priority: i32,
    pub enabled: bool,
}

impl Clone for Rule {
    fn clone(&self) -> (r: Self)
        ensures
            r == *self,
    {
        Rule {
            id: self.id.clone(),
            name: self.name.clone(),
            kind: self.kind.clone(),
            pattern: self.pattern.clone(),
            priority: self.priority,
            enabled: self.enabled,
        }
    }
}

/// What a listing shows of a rule's pattern: of a custom pattern its first 64 characters.
pub open spec fn preview_of(rule: Rule) -> Seq<char> {
    if rule.kind@ == KIND_PATTERN@ && rule.pattern@.len() > 64 {
        rule.pattern@.take(64)
    } else {
        rule.pattern@
    }
}

impl Rule {
    /// The rule as the pairs of a JSON object.
    pub fn metadata(&self) -> (r: Vec<(String, Value)>)
        ensures
            json::pairs_of(r@) == seq![
                ("id"@, Json::Str(self.id@)),
                ("name"@, Json::Str(self.name@)),
                ("kind"@, Json::Str(self.kind@)),
                ("pattern_preview"@, Json::Str(preview_of(*self))),
                ("priority"@, Json::Num(text::dec_int(self.priority as int))),
                ("enabled"@, Json::Bool(self.enabled)),
            ],
    {
        let preview: String = pattern_preview(self);
        let r: Vec<(String, Value)> = vec![
            ("id".to_string(), Value::str(self.id.as_str())),
            ("name".to_string(), Value::str(self.name.as_str())),
            ("kind".to_string(), Value::str(self.kind.as_str())),
            ("pattern_preview".to_string(), Value::str(preview.as_str())),
            ("priority".to_string(), Value::Num(text::decimal_int(self.priority))),
            ("enabled".to_string(), Value::Bool(self.enabled)),
        ];
        proof {
            let wanted = seq![
                ("id"@, Json::Str(self.id@)),
                ("name"@, Json::Str(self.name@)),
                ("kind"@, Json::Str(self.kind@)),
                ("pattern_preview"@, Json::Str(preview_of(*self))),
                ("priority"@, Json::Num(text::dec_int(self.priority as int))),
                ("enabled"@, Json::Bool(self.enabled)),
            ];
            assert(json::pairs_of(r@) =~= wanted);
        }
        r
    }
}

fn pattern_preview(rule: &Rule) -> (r: String)
    ensures
        r@ == preview_of(*rule),
{
    let chars: Vec<char> = text::chars_of(rule.pattern.as_str());
    if text::same_text(rule.kind.as_str(), KIND_PATTERN) && chars.len() > 64 {
        let head: &[char] = vstd::slice::slice_subrange(chars.as_slice(), 0, 64);
        assert(head@ =~= rule.pattern@.take(64));
        text::string_of(head)
    } else {
        rule.pattern.clone()
    }
}

/// A versioned list of rules.
#[derive(Debug, Clone)]
pub struct RuleSet {
    pub version: String,
    pub rules: Vec<Rule>,
}

/// What is wrong with a single rule.
pub open spec fn rule_fault(rule: Rule) -> Option<Fault> {
    if rule.kind@ == KIND_EMAIL@ || rule.kind@ == KIND_NUMBER@ {
        if rule.pattern@.len() == 0 {
            None
        } else {
            Some(error::invalid_fault("内置规则 "@ + rule.kind@ + " 不接受自定义 pattern"@))
        }
    } else if rule.kind@ == KIND_PATTERN@ {
        match engine::pattern(rule.pattern@) {
            Ok(_) => None,
            Err(e) => Some(error::invalid_fault("规则 "@ + rule.id@ + " 的正则无效: "@ + e)),
        }
    } else if rule.kind@ == KIND_RANGE@ {
        None
    } else {
        Some(error::invalid_fault("未知规则类型: "@ + rule.kind@))
    }
}

/// One of the rules before place `n` has the id.
pub open spec fn id_taken(rules: Seq<Rule>, n: int, id: Seq<char>) -> bool {
    exists|j: int| 0 <= j < n && (#[trigger] rules[j]).id@ == id
}

/// The first fault of the rules from place `i` on.
pub open spec fn first_fault(rules: Seq<Rule>, i: int) -> Option<Fault>
    decreases rules.len() - i,
{
    if !(0 <= i < rules.len()) {
        None
    } else if text::is_blank(rules[i].id@) {
        Some(error::invalid_fault("规则 id 不能为空"@))
    } else if id_taken(rules, i, rules[i].id@) {
        Some(Fault { code: ErrorCode::RuleConflict, message: "规则 id 重复: "@ + rules[i].id@ })
    } else {
        match rule_fault(rules[i]) {
            Some(f) => Some(f),
            None => first_fault(rules, i + 1),
        }
    }
}

/// What is wrong with a rule set.
pub open spec fn rule_set_fault(set: RuleSet) -> Option<Fault> {
    if text::is_blank(set.version@) {
        Some(error::invalid_fault("规则版本不能为空"@))
    } else if set.rules@.len() == 0 {
        Some(error::invalid_fault("规则集至少需要一条规则"@))
    } else {
        first_fault(set.rules@, 0)
    }
}

/// The result is an error with this fault, if there is one, and a success otherwise.
pub open spec fn refuses<T>(r: core::result::Result<T, Error>, fault: Option<Fault>) -> bool {
    match fault {
        Some(f) => r is Err && r->Err_0@ == f,
        None => r is Ok,
    }
}

impl RuleSet {
    /// Checks the version, the ids and every rule; the first fault is reported.
    pub fn validate(&self) -> (r: Result<()>)
        ensures
            refuses(r, rule_set_fault(*self)),
    {
        if text::blank(self.version.as_str()) {
            return Err(Error::invalid("规则版本不能为空"));
        }
        if self.rules.len() == 0 {
            return Err(Error::invalid("规则集至少需要一条规则"));
        }
        let mut i: usize = 0;
        while i < self.rules.len()
            invariant
                0 <= i <= self.rules@.len(),
                rule_set_fault(*self) == first_fault(self.rules@, i as int),
            decreases self.rules@.len() - i,
        {
            let rule: &Rule = &self.rules[i];
            if text::blank(rule.id.as_str()) {
                return Err(Error::invalid("规则 id 不能为空"));
            }
            let mut j: usize = 0;
            while j < i
                invariant
                    0 <= j <= i < self.rules@.len(),
                    *rule == self.rules@[i as int],
                    !text::is_blank(rule.id@),
                    rule_set_fault(*self) == first_fault(self.rules@, i as int),
                    forall|k: int| 0 <= k < j ==> (#[trigger] self.rules@[k]).id@ != rule.id@,
                decreases i - j,
            {
                if text::same_text(self.rules[j].id.as_str(), rule.id.as_str()) {
                    let mut message: String = "规则 id 重复: ".to_string();
                    message.append(rule.id.as_str());
                    assert(self.rules@[j as int].id@ == rule.id@);
                    assert(id_taken(self.rules@, i as int, rule.id@));
                    return Err(Error::conflict(message.as_str()));
                }
                j = j + 1;
            }
            match validate_rule(rule) {
                Ok(()) => {},
                Err(e) => {
                    return Err(e);
                },
            }
            i = i + 1;
        }
        Ok(())
    }

    /// The first rule with the given id.
    pub fn find(&self, rule_id: &str) -> (r: Option<&Rule>)
        ensures
            match r {
                Some(rule) => exists|i: int|
                    0 <= i < self.rules@.len() && *rule == #[trigger] self.rules@[i]
                        && rule.id@ == rule_id@ && !id_taken(self.rules@, i, rule_id@),
                None => !id_taken(self.rules@, self.rules@.len() as int, rule_id@),
            },
    {
        let mut i: usize = 0;
        while i < self.rules.len()
            invariant
                0 <= i <= self.rules@.len(),
                forall|k: int| 0 <= k < i ==> (#[trigger] self.rules@[k]).id@ != rule_id@,
            decreases self.rules@.len() - i,
        {
            if text::same_text(self.rules[i].id.as_str(), rule_id) {
                assert(self.rules@[i as int].id@ == rule_id@);
                return Some(&self.rules[i]);
            }
            i = i + 1;
        }
        None
    }
}

/// Checks a single rule.
pub fn validate_rule(rule: &Rule) -> (r: Result<()>)
    ensures
        refuses(r, rule_fault(*rule)),
{
    let kind: &str = rule.kind.as_str();
    if text::same_text(kind, KIND_EMAIL) || text::same_text(kind, KIND_NUMBER) {
        if text::chars_of(rule.pattern.as_str()).len() > 0 {
            let mut message: String = "内置规则 ".to_string();
            message.append(kind);
            message.append(" 不接受自定义 pattern");
            return Err(Error::invalid(message.as_str()));
        }
        Ok(())
    } else if text::same_text(kind, KIND_PATTERN) {
        match engine::parse(rule.pattern.as_str()) {
            Ok(_) => Ok(()),
            Err(e) => {
                let mut message: String = "规则 ".to_string();
                message.append(rule.id.as_str());
                message.append(" 的正则无效: ");
                message.append(e.as_str());
                Err(Error::invalid(message.as_str()))
            },
        }
    } else if text::same_text(kind, KIND_RANGE) {
        Ok(())
    } else {
        Err(unknown_kind(kind))
    }
}

fn unknown_kind(kind: &str) -> (r: Error)
    ensures
        r@ == error::invalid_fault("未知规则类型: "@ + kind@),
{
    let mut message: String = "未知规则类型: ".to_string();
    message.append(kind);
    Error::invalid(message.as_str())
}

/// A custom range of bytes that a request asks to mask.
#[derive(Debug, Clone)]
pub struct CustomRange {
    pub rule_id: String,
    pub start: usize,
    pub end: usize,
}

/// A fragment that a rule would mask.
#[derive(Debug, Clone)]
pub struct Candidate {
    pub start: usize,
    pub end: usize,
    pub rule_id: String,
}

/// The mathematical form of a `Candidate`.
pub struct Span {
    pub start: int,
    pub end: int,
    pub rule_id: Seq<char>,
}

impl View for Candidate {
    type V = Span;

    open spec fn view(&self) -> Span {
        Span { start: self.start as int, end: self.end as int, rule_id: self.rule_id@ }
    }
}

impl View for CustomRange {
    type V = Span;

    open spec fn view(&self) -> Span {
        Span { start: self.start as int, end: self.end as int, rule_id: self.rule_id@ }
    }
}

/// The spans of a list of candidates.
pub open spec fn spans(list: Seq<Candidate>) -> Seq<Span> {
    list.map_values(|c: Candidate| c@)
}

/// A fragment that lost to another one.
#[derive(Debug, Clone)]
pub struct Suppressed {
    pub start: usize,
    pub end: usize,
    pub rule_id: String,
    pub by_rule_id: String,
    pub reason: String,
}

/// The mathematical form of a `Suppressed`.
pub struct Loss {
    pub start: int,
    pub end: int,
    pub rule_id: Seq<char>,
    pub by_rule_id: Seq<char>,
    pub reason: Seq<char>,
}

impl View for Suppressed {
    type V = Loss;

    open spec fn view(&self) -> Loss {
        Loss {
            start: self.start as int,
            end: self.end as int,
            rule_id: self.rule_id@,
            by_rule_id: self.by_rule_id@,
            reason: self.reason@,
        }
    }
}

/// The losses of a list of suppressed fragments.
pub open spec fn losses(list: Seq<Suppressed>) -> Seq<Loss> {
    list.map_values(|s: Suppressed| s@)
}

/// The fragments that stay and those that lost, each from left to right.
#[derive(Debug, Clone)]
pub struct Adjudication {
    pub selected: Vec<Candidate>,
    pub suppressed: Vec<Suppressed>,
}

/// The programs of the enabled rules, found by rule id.
pub struct CompiledRules {
    by_id: Vec<CompiledRule>,
}

struct CompiledRule {
    id: String,
    program: Option<Program>,
}

spec fn program_of(c: CompiledRule) -> Option<Seq<Step>> {
    match c.program {
        Some(p) => Some(p@),
        None => None,
    }
}

impl View for CompiledRules {
    type V = Map<Seq<char>, Option<Seq<Step>>>;

    closed spec fn view(&self) -> Map<Seq<char>, Option<Seq<Step>>> {
        Map::new(
            |id: Seq<char>|
                exists|i: int| 0 <= i < self.by_id@.len() && (#[trigger] self.by_id@[i]).id@ == id,
            |id: Seq<char>|
                program_of(
                    self.by_id@[choose|i: int|
                        0 <= i < self.by_id@.len() && (#[trigger] self.by_id@[i]).id@ == id],
                ),
        )
    }
}

impl CompiledRules {
    /// No id occurs twice, and every program is closed.
    pub closed spec fn wf(&self) -> bool {
        &&& forall|i: int, j: int|
            0 <= i < j < self.by_id@.len() ==> (#[trigger] self.by_id@[i]).id@ != (
            #[trigger] self.by_id@[j]).id@
        &&& forall|i: int|
            0 <= i < self.by_id@.len() ==> (program_of(#[trigger] self.by_id@[i]) matches Some(p)
                ==> engine::closed(p))
    }

    proof fn lemma_entry(&self, i: int)
        requires
            self.wf(),
            0 <= i < self.by_id@.len(),
        ensures
            self@.dom().contains(self.by_id@[i].id@),
            self@[self.by_id@[i].id@] == program_of(self.by_id@[i]),
    {
        let id = self.by_id@[i].id@;
        let k = choose|k: int|
            0 <= k < self.by_id@.len() && (#[trigger] self.by_id@[k]).id@ == id;
        assert(k == i) by {
            if k < i {
                assert(self.by_id@[k].id@ != self.by_id@[i].id@);
            } else if i < k {
                assert(self.by_id@[i].id@ != self.by_id@[k].id@);
            }
        }
    }

    /// Where the rule with the id stands.
    fn place_of(&self, id: &str) -> (r: Option<usize>)
        ensures
            match r {
                Some(i) => i < self.by_id@.len() && self.by_id@[i as int].id@ == id@,
                None => !self@.dom().contains(id@),
            },
    {
        let mut i: usize = 0;
        while i < self.by_id.len()
            invariant
                0 <= i <= self.by_id@.len(),
                forall|k: int| 0 <= k < i ==> (#[trigger] self.by_id@[k]).id@ != id@,
            decreases self.by_id@.len() - i,
        {
            if text::same_text(self.by_id[i].id.as_str(), id) {
                return Some(i);
            }
            i = i + 1;
        }
        None
    }

    /// The program of the rule with the id, if it has one.
    pub fn program(&self, id: &str) -> (r: Option<&Program>)
        requires
            self.wf(),
        ensures
            match r {
                Some(p) => self@.dom().contains(id@) && self@[id@] == Some(p@) && engine::closed(
                    p@,
                ),
                None => !self@.dom().contains(id@) || self@[id@] is None,
            },
    {
        match self.place_of(id) {
            Some(i) => {
                proof {
                    self.lemma_entry(i as int);
                    assert(program_of(self.by_id@[i as int]) matches Some(p) ==> engine::closed(p));
                }
                match &self.by_id[i].program {
                    Some(p) => Some(p),
                    None => None,
                }
            },
            None => None,
        }
    }

    /// Enters the program of a rule in place of an earlier one with the same id.
    fn enter(&mut self, id: &str, program: Option<Program>)
        requires
            old(self).wf(),
            program matches Some(p) ==> engine::closed(p@),
        ensures
            final(self).wf(),
            final(self)@ == old(self)@.insert(
                id@,
                match program {
                    Some(p) => Some(p@),
                    None => None,
                },
            ),
    {
        let ghost before = *self;
        let entry: CompiledRule = CompiledRule { id: id.to_string(), program };
        let ghost value = program_of(entry);
        let ghost mut spot: int = 0;
        match self.place_of(id) {
            Some(i) => {
                proof {
                    spot = i as int;
                }
                self.by_id.set(i, entry);
            },
            None => {
                proof {
                    assert forall|k: int| 0 <= k < before.by_id@.len() implies (
                    #[trigger] before.by_id@[k]).id@ != id@ by {
                        if before.by_id@[k].id@ == id@ {
                            before.lemma_entry(k);
                        }
                    }
                    spot = before.by_id@.len() as int;
                }
                self.by_id.push(entry);
            },
        }
        proof {
            assert(self.by_id@[spot] == entry);
            assert(forall|i: int|
                0 <= i < self.by_id@.len() && i != spot ==> self.by_id@[i] == before.by_id@[i]);
            assert(self.wf());
            assert forall|k: Seq<char>| #[trigger] self@.dom().contains(k) == before@.insert(
                id@,
                value,
            ).dom().contains(k) by {
                if k == id@ {
                    assert(self.by_id@[spot].id@ == id@);
                } else {
                    if before@.dom().contains(k) {
                        let i = choose|i: int|
                            0 <= i < before.by_id@.len() && (#[trigger] before.by_id@[i]).id@ == k;
                        assert(self.by_id@[i].id@ == k);
                    }
                    if self@.dom().contains(k) {
                        let i = choose|i: int|
                            0 <= i < self.by_id@.len() && (#[trigger] self.by_id@[i]).id@ == k;
                        assert(before.by_id@[i].id@ == k);
                    }
                }
            }
            assert forall|k: Seq<char>| #[trigger] self@.dom().contains(k) implies self@[k]
                == before@.insert(id@, value)[k] by {
                let i = choose|i: int|
                    0 <= i < self.by_id@.len() && (#[trigger] self.by_id@[i]).id@ == k;
                self.lemma_entry(i);
                if k != id@ {
                    before.lemma_entry(i);
                }
            }
            assert(self@ =~= before@.insert(id@, value));
        }
    }
}

/// The program of a pattern, or why there is none.
pub open spec fn pattern_program(p: Seq<char>) -> core::result::Result<Seq<Step>, Fault> {
    match engine::pattern(p) {
        Ok(t) => Ok(engine::program(t)),
        Err(e) => Err(error::invalid_fault("内置正则编译失败: "@ + e)),
    }
}

/// The program of a rule; a range rule has none.
pub open spec fn rule_program(rule: Rule) -> core::result::Result<Option<Seq<Step>>, Fault> {
    let p = if rule.kind@ == KIND_EMAIL@ {
        Some(EMAIL_PATTERN@)
    } else if rule.kind@ == KIND_NUMBER@ {
        Some(NUMBER_PATTERN@)
    } else if rule.kind@ == KIND_PATTERN@ {
        Some(rule.pattern@)
    } else {
        None
    };
    match p {
        Some(p) => match pattern_program(p) {
            Ok(program) => Ok(Some(program)),
            Err(f) => Err(f),
        },
        None => if rule.kind@ == KIND_RANGE@ {
            Ok(None)
        } else {
            Err(error::invalid_fault("未知规则类型: "@ + rule.kind@))
        },
    }
}

/// The programs of the enabled ones among the first `n` rules, by id; the later of two
/// rules with the same id counts.
pub open spec fn programs(rules: Seq<Rule>, n: int) -> core::result::Result<
    Map<Seq<char>, Option<Seq<Step>>>,
    Fault,
>
    decreases n,
{
    if n <= 0 {
        Ok(Map::empty())
    } else {
        match programs(rules, n - 1) {
            Err(f) => Err(f),
            Ok(m) => if !rules[n - 1].enabled {
                Ok(m)
            } else {
                match rule_program(rules[n - 1]) {
                    Err(f) => Err(f),
                    Ok(p) => Ok(m.insert(rules[n - 1].id@, p)),
                }
            },
        }
    }
}

/// A failure at one of the first rules is the failure of all of them.
proof fn lemma_programs_fail(rules: Seq<Rule>, n: int, end: int)
    requires
        0 <= n <= end,
        programs(rules, n) is Err,
    ensures
        programs(rules, end) == programs(rules, n),
    decreases end - n,
{
    if n < end {
        lemma_programs_fail(rules, n, end - 1);
    }
}

/// Compiles the enabled rules.
pub fn compile_rules(rules: &[Rule]) -> (r: Result<CompiledRules>)
    ensures
        match programs(rules@, rules@.len() as int) {
            Ok(m) => r is Ok && r->Ok_0.wf() && r->Ok_0@ == m,
            Err(f) => r is Err && r->Err_0@ == f,
        },
{
    let mut compiled: CompiledRules = CompiledRules { by_id: Vec::new() };
    assert(compiled@ =~= Map::empty());
    let mut i: usize = 0;
    while i < rules.len()
        invariant
            0 <= i <= rules@.len(),
            compiled.wf(),
            programs(rules@, i as int) == Ok::<Map<Seq<char>, Option<Seq<Step>>>, Fault>(
                compiled@,
            ),
        decreases rules@.len() - i,
    {
        let rule: &Rule = &rules[i];
        if rule.enabled {
            match compile_rule(rule) {
                Ok(program) => {
                    compiled.enter(rule.id.as_str(), program);
                },
                Err(e) => {
                    proof {
                        lemma_programs_fail(rules@, i + 1, rules@.len() as int);
                    }
                    return Err(e);
                },
            }
        }
        i = i + 1;
    }
    Ok(compiled)
}

/// Compiles one rule.
fn compile_rule(rule: &Rule) -> (r: Result<Option<Program>>)
    ensures
        match rule_program(*rule) {
            Ok(None) => r is Ok && r->Ok_0 is None,
            Ok(Some(p)) => r is Ok && r->Ok_0 is Some && r->Ok_0->0@ == p && engine::closed(p),
            Err(f) => r is Err && r->Err_0@ == f,
        },
{
    let kind: &str = rule.kind.as_str();
    let pattern: &str = if text::same_text(kind, KIND_EMAIL) {
        EMAIL_PATTERN
    } else if text::same_text(kind, KIND_NUMBER) {
        NUMBER_PATTERN
    } else if text::same_text(kind, KIND_PATTERN) {
        rule.pattern.as_str()
    } else if text::same_text(kind, KIND_RANGE) {
        return Ok(None);
    } else {
        return Err(unknown_kind(kind));
    };
    match compile_pattern(pattern) {
        Ok(p) => Ok(Some(p)),
        Err(e) => Err(e),
    }
}

fn compile_pattern(pattern: &str) -> (r: Result<Program>)
    ensures
        match pattern_program(pattern@) {
            Ok(p) => r is Ok && r->Ok_0@ == p && engine::closed(p),
            Err(f) => r is Err && r->Err_0@ == f,
        },
{
    let parsed = match engine::parse(pattern) {
        Ok(expr) => engine::compile(&expr),
        Err(e) => Err(e),
    };
    match parsed {
        Ok(program) => Ok(program),
        Err(e) => {
            let mut message: String = "内置正则编译失败: ".to_string();
            message.append(e.as_str());
            Err(Error::invalid(message.as_str()))
        },
    }
}

/// The digits of the alphabet that tokens are written in, in either case.
pub open spec fn is_b32hex(x: u8) -> bool {
    0x30 <= x <= 0x39 || 0x61 <= x <= 0x76 || 0x41 <= x <= 0x56
}

/// The bytes from `s` to `e` are not part of a longer word: what stands before them is no
/// token character and no point, and what stands behind them is no token character.
pub open spec fn stands_alone(b: Seq<u8>, s: int, e: int) -> bool {
    &&& s == 0 || !(is_b32hex(b[s - 1]) || b[s - 1] == 0x2e)
    &&& e == b.len() || !is_b32hex(b[e])
}

/// Those of the hits that stand alone.
pub open spec fn standing_alone(b: Seq<u8>, hits: Seq<(int, int)>) -> Seq<(int, int)>
    decreases hits.len(),
{
    if hits.len() == 0 {
        seq![]
    } else {
        let front = standing_alone(b, hits.drop_last());
        if stands_alone(b, hits.last().0, hits.last().1) {
            front.push(hits.last())
        } else {
            front
        }
    }
}

/// Ranges are ordered by their start, then by their end.
pub open spec fn range_before(a: (int, int), b: (int, int)) -> bool {
    a.0 < b.0 || (a.0 == b.0 && a.1 < b.1)
}

/// The tokens of a text, which no rule touches.
pub open spec fn protected_ranges(b: Seq<u8>, token: Seq<Step>) -> Seq<(int, int)> {
    sorting::sorted(
        standing_alone(b, engine::scan(token, b, 0)),
        |x: (int, int), y: (int, int)| range_before(x, y),
    )
}

/// The range from `start` to `end` meets one of the ranges.
pub open spec fn meets_any(start: int, end: int, ranges: Seq<(int, int)>) -> bool {
    exists|i: int| 0 <= i < ranges.len() && start < (#[trigger] ranges[i]).1 && ranges[i].0 < end
}

/// The hits that meet no protected range, as candidates of a rule.
pub open spec fn free_hits(
    hits: Seq<(int, int)>,
    rule_id: Seq<char>,
    protected: Seq<(int, int)>,
) -> Seq<Span>
    decreases hits.len(),
{
    if hits.len() == 0 {
        seq![]
    } else {
        let front = free_hits(hits.drop_last(), rule_id, protected);
        let (start, end) = hits.last();
        if meets_any(start, end, protected) {
            front
        } else {
            front.push(Span { start, end, rule_id })
        }
    }
}

/// The candidates of one rule.
pub open spec fn rule_spans(
    rule: Rule,
    programs: Map<Seq<char>, Option<Seq<Step>>>,
    b: Seq<u8>,
    protected: Seq<(int, int)>,
) -> Seq<Span> {
    if rule.enabled && rule.kind@ != KIND_RANGE@ && programs.dom().contains(rule.id@)
        && programs[rule.id@] is Some {
        free_hits(engine::scan(programs[rule.id@]->0, b, 0), rule.id@, protected)
    } else {
        seq![]
    }
}

/// The candidates of the first `n` rules.
pub open spec fn rules_spans(
    rules: Seq<Rule>,
    n: int,
    programs: Map<Seq<char>, Option<Seq<Step>>>,
    b: Seq<u8>,
    protected: Seq<(int, int)>,
) -> Seq<Span>
    decreases n,
{
    if n <= 0 {
        seq![]
    } else {
        rules_spans(rules, n - 1, programs, b, protected) + rule_spans(
            rules[n - 1],
            programs,
            b,
            protected,
        )
    }
}

/// What is wrong with a custom range.
pub open spec fn custom_fault(range: CustomRange, s: Seq<char>) -> Option<Fault> {
    let b = encode_utf8(s);
    if range.start >= range.end || range.end > b.len() {
        Some(
            error::invalid_fault(
                "自定义区间非法: ["@ + text::dec(range.start as nat) + ", "@ + text::dec(
                    range.end as nat,
                ) + ")"@,
            ),
        )
    } else if !is_char_boundary(b, range.start as int) || !is_char_boundary(b, range.end as int) {
        Some(error::invalid_fault("自定义区间必须落在字符边界上"@))
    } else {
        None
    }
}

/// The candidates of the first `n` custom ranges, or the first fault among them.
pub open spec fn custom_spans(
    custom: Seq<CustomRange>,
    n: int,
    s: Seq<char>,
    protected: Seq<(int, int)>,
) -> core::result::Result<Seq<Span>, Fault>
    decreases n,
{
    if n <= 0 {
        Ok(seq![])
    } else {
        match custom_spans(custom, n - 1, s, protected) {
            Err(f) => Err(f),
            Ok(front) => match custom_fault(custom[n - 1], s) {
                Some(f) => Err(f),
                None => if meets_any(
                    custom[n - 1].start as int,
                    custom[n - 1].end as int,
                    protected,
                ) {
                    Ok(front)
                } else {
                    Ok(front.push(custom[n - 1]@))
                },
            },
        }
    }
}

/// All candidates of a text, and its protected ranges.
pub open spec fn candidates(
    s: Seq<char>,
    rules: Seq<Rule>,
    custom: Seq<CustomRange>,
) -> core::result::Result<(Seq<Span>, Seq<(int, int)>), Fault> {
    let b = encode_utf8(s);
    match programs(rules, rules.len() as int) {
        Err(f) => Err(f),
        Ok(m) => match pattern_program(TOKEN_PATTERN@) {
            Err(f) => Err(f),
            Ok(token) => {
                let protected = protected_ranges(b, token);
                match custom_spans(custom, custom.len() as int, s, protected) {
                    Err(f) => Err(f),
                    Ok(extra) => Ok(
                        (
                            rules_spans(rules, rules.len() as int, m, b, protected) + extra,
                            protected,
                        ),
                    ),
                }
            },
        },
    }
}

/// Machine ranges as mathematical ranges.
pub open spec fn ranges(list: Seq<(usize, usize)>) -> Seq<(int, int)> {
    list.map_values(|r: (usize, usize)| (r.0 as int, r.1 as int))
}

fn is_b32hex_byte(b: u8) -> (r: bool)
    ensures
        r == is_b32hex(b),
{
    (0x30 <= b && b <= 0x39) || (0x61 <= b && b <= 0x76) || (0x41 <= b && b <= 0x56)
}

fn overlaps_any(start: usize, end: usize, spans: &Vec<(usize, usize)>) -> (r: bool)
    ensures
        r == meets_any(start as int, end as int, ranges(spans@)),
{
    let ghost all = ranges(spans@);
    let mut i: usize = 0;
    while i < spans.len()
        invariant
            0 <= i <= spans@.len(),
            all == ranges(spans@),
            forall|k: int| 0 <= k < i ==> !(start < (#[trigger] all[k]).1 && all[k].0 < end),
        decreases spans@.len() - i,
    {
        assert(all[i as int] == (spans@[i as int].0 as int, spans@[i as int].1 as int));
        if start < spans[i].1 && spans[i].0 < end {
            return true;
        }
        i = i + 1;
    }
    false
}

fn range_precedes(x: &(usize, usize), y: &(usize, usize)) -> (r: bool)
    ensures
        r == range_before((x.0 as int, x.1 as int), (y.0 as int, y.1 as int)),
{
    x.0 < y.0 || (x.0 == y.0 && x.1 < y.1)
}

/// The ranges of the tokens in a text.
fn find_protected(text: &str, token: &Program) -> (r: Vec<(usize, usize)>)
    requires
        engine::closed(token@),
    ensures
        ranges(r@) == protected_ranges(encode_utf8(text@), token@),
{
    let bytes: &[u8] = text.as_bytes();
    let ghost b = encode_utf8(text@);
    let hits: Vec<RawHit> = engine::find_matches(token, text);
    let ghost all = engine::hit_ranges(hits@);
    proof {
        crate::matching::lemma_hits_are_apart(token@, text@, 0);
    }
    let mut kept: Vec<(usize, usize)> = Vec::new();
    let mut i: usize = 0;
    assert(ranges(kept@) =~= standing_alone(b, all.take(0)));
    while i < hits.len()
        invariant
            0 <= i <= hits@.len(),
            bytes@ == b,
            all == engine::hit_ranges(hits@),
            forall|k: int| 0 <= k < all.len() ==> 0 <= (#[trigger] all[k]).0 < all[k].1 <= b.len(),
            ranges(kept@) == standing_alone(b, all.take(i as int)),
        decreases hits@.len() - i,
    {
        let hit: RawHit = hits[i];
        let ghost done = kept@;
        proof {
            assert(all[i as int] == (hit.start as int, hit.end as int));
            assert(all.take(i + 1).drop_last() =~= all.take(i as int));
            assert(all.take(i + 1).last() == all[i as int]);
        }
        let left_ok: bool = hit.start == 0 || !(is_b32hex_byte(bytes[hit.start - 1]) || bytes[
            hit.start - 1] == 0x2e);
        let right_ok: bool = hit.end == bytes.len() || !is_b32hex_byte(bytes[hit.end]);
        if left_ok && right_ok {
            kept.push((hit.start, hit.end));
            assert(ranges(kept@) =~= ranges(done).push((hit.start as int, hit.end as int)));
        }
        i = i + 1;
    }
    assert(all.take(i as int) =~= all);
    let ghost order = |x: (usize, usize), y: (usize, usize)|
        range_before((x.0 as int, x.1 as int), (y.0 as int, y.1 as int));
    let ghost found = kept@;
    let sorted: Vec<(usize, usize)> = sorting::sort_by(
        kept,
        Ghost(order),
        range_precedes,
    );
    proof {
        sorting::lemma_sorted_maps(
            found,
            |r: (usize, usize)| (r.0 as int, r.1 as int),
            order,
            |x: (int, int), y: (int, int)| range_before(x, y),
        );
    }
    sorted
}

/// Appends the candidates of one program.
fn push_hits(
    program: &Program,
    text: &str,
    rule_id: &str,
    protected: &Vec<(usize, usize)>,
    out: &mut Vec<Candidate>,
)
    requires
        engine::closed(program@),
    ensures
        spans(final(out)@) == spans(old(out)@) + free_hits(
            engine::scan(program@, encode_utf8(text@), 0),
            rule_id@,
            ranges(protected@),
        ),
{
    let ghost before = spans(out@);
    let ghost shield = ranges(protected@);
    let hits: Vec<RawHit> = engine::find_matches(program, text);
    let ghost all = engine::hit_ranges(hits@);
    let mut i: usize = 0;
    assert(spans(out@) =~= before + free_hits(all.take(0), rule_id@, shield));
    while i < hits.len()
        invariant
            0 <= i <= hits@.len(),
            shield == ranges(protected@),
            all == engine::hit_ranges(hits@),
            spans(out@) == before + free_hits(all.take(i as int), rule_id@, shield),
        decreases hits@.len() - i,
    {
        let hit: RawHit = hits[i];
        let ghost done = out@;
        proof {
            assert(all[i as int] == (hit.start as int, hit.end as int));
            assert(all.take(i + 1).drop_last() =~= all.take(i as int));
            assert(all.take(i + 1).last() == all[i as int]);
        }
        if !overlaps_any(hit.start, hit.end, protected) {
            out.push(Candidate { start: hit.start, end: hit.end, rule_id: rule_id.to_string() });
            proof {
                let span = Span {
                    start: hit.start as int,
                    end: hit.end as int,
                    rule_id: rule_id@,
                };
                assert(spans(out@) =~= spans(done).push(span));
                assert(spans(out@) =~= before + free_hits(all.take(i + 1), rule_id@, shield));
            }
        }
        i = i + 1;
    }
    assert(all.take(i as int) =~= all);
}

/// Finds all fragments that rules and custom ranges would mask. What looks like a token is
/// protected: no candidate meets it.
pub fn collect_candidates(text: &str, rules: &[Rule], custom: &[CustomRange]) -> (r: Result<
    (Vec<Candidate>, Vec<(usize, usize)>),
>)
    ensures
        match candidates(text@, rules@, custom@) {
            Ok((found, protected)) => r is Ok && spans(r->Ok_0.0@) == found && ranges(r->Ok_0.1@)
                == protected,
            Err(f) => r is Err && r->Err_0@ == f,
        },
{
    let compiled: CompiledRules = match compile_rules(rules) {
        Ok(c) => c,
        Err(e) => {
            return Err(e);
        },
    };
    let token: Program = match compile_pattern(TOKEN_PATTERN) {
        Ok(p) => p,
        Err(e) => {
            return Err(e);
        },
    };
    let protected: Vec<(usize, usize)> = find_protected(text, &token);
    let ghost m = compiled@;
    let ghost b = encode_utf8(text@);
    let ghost shield = ranges(protected@);
    let mut out: Vec<Candidate> = Vec::new();
    let mut i: usize = 0;
    assert(spans(out@) =~= Seq::empty());
    while i < rules.len()
        invariant
            0 <= i <= rules@.len(),
            compiled.wf(),
            compiled@ == m,
            b == encode_utf8(text@),
            shield == ranges(protected@),
            spans(out@) == rules_spans(rules@, i as int, m, b, shield),
        decreases rules@.len() - i,
    {
        let rule: &Rule = &rules[i];
        let ghost done = spans(out@);
        if rule.enabled && !text::same_text(rule.kind.as_str(), KIND_RANGE) {
            if let Some(program) = compiled.program(rule.id.as_str()) {
                push_hits(program, text, rule.id.as_str(), &protected, &mut out);
            }
        }
        assert(done + Seq::<Span>::empty() =~= done);
        i = i + 1;
    }
    let ghost from_rules = spans(out@);
    let mut j: usize = 0;
    assert(spans(out@) =~= from_rules + Seq::empty());
    while j < custom.len()
        invariant
            0 <= j <= custom@.len(),
            shield == ranges(protected@),
            custom_spans(custom@, j as int, text@, shield) is Ok,
            spans(out@) == from_rules + custom_spans(custom@, j as int, text@, shield)->Ok_0,
            candidates(text@, rules@, custom@) == match custom_spans(
                custom@,
                custom@.len() as int,
                text@,
                shield,
            ) {
                Err(f) => Err::<(Seq<Span>, Seq<(int, int)>), Fault>(f),
                Ok(extra) => Ok((from_rules + extra, shield)),
            },
        decreases custom@.len() - j,
    {
        let range: &CustomRange = &custom[j];
        let ghost done = out@;
        match check_custom(range, text) {
            Ok(()) => {},
            Err(e) => {
                proof {
                    lemma_custom_spans_fail(
                        custom@,
                        j + 1,
                        custom@.len() as int,
                        text@,
                        shield,
                    );
                }
                return Err(e);
            },
        }
        if !overlaps_any(range.start, range.end, &protected) {
            out.push(
                Candidate {
                    start: range.start,
                    end: range.end,
                    rule_id: range.rule_id.clone(),
                },
            );
            proof {
                let extra = custom_spans(custom@, j as int, text@, shield)->Ok_0;
                assert(spans(out@) =~= spans(done).push(range@));
                assert(spans(out@) =~= from_rules + extra.push(range@));
            }
        }
        j = j + 1;
    }
    Ok((out, protected))
}

proof fn lemma_custom_spans_fail(
    custom: Seq<CustomRange>,
    n: int,
    end: int,
    s: Seq<char>,
    protected: Seq<(int, int)>,
)
    requires
        0 <= n <= end,
        custom_spans(custom, n, s, protected) is Err,
    ensures
        custom_spans(custom, end, s, protected) == custom_spans(custom, n, s, protected),
    decreases end - n,
{
    if n < end {
        lemma_custom_spans_fail(custom, n, end - 1, s, protected);
    }
}

fn check_custom(range: &CustomRange, text: &str) -> (r: Result<()>)
    ensures
        refuses(r, custom_fault(*range, text@)),
{
    proof {
        encode_utf8_valid_utf8(text@);
    }
    let len: usize = text.as_bytes().len();
    if range.start >= range.end || range.end > len {
        let mut message: String = "自定义区间非法: [".to_string();
        text::push_decimal(&mut message, range.start as u64);
        message.append(", ");
        text::push_decimal(&mut message, range.end as u64);
        message.append(")");
        return Err(Error::invalid(message.as_str()));
    }
    if !text.is_char_boundary(range.start) || !text.is_char_boundary(range.end) {
        return Err(Error::invalid("自定义区间必须落在字符边界上"));
    }
    Ok(())
}

/// The function can answer `r` when asked for the priority of the rule `id`.
pub open spec fn answers<F: Fn(&str) -> Option<i32>>(f: F, id: Seq<char>, r: Option<i32>) -> bool {
    exists|s: &str| s@ == id && #[trigger] call_ensures(f, (s,), r)
}

/// The function can be asked about every rule and has one answer for each.
pub open spec fn is_functional<F: Fn(&str) -> Option<i32>>(f: F) -> bool {
    &&& forall|s: &str| #[trigger] call_requires(f, (s,))
    &&& forall|id: Seq<char>, r: Option<i32>, q: Option<i32>| #[trigger]
        answers(f, id, r) && #[trigger] answers(f, id, q) ==> r == q
}

/// The priority of a rule; one that is not known has the lowest.
pub open spec fn priority_of<F: Fn(&str) -> Option<i32>>(f: F, id: Seq<char>) -> int {
    match choose|r: Option<i32>| answers(f, id, r) {
        Some(p) => p as int,
        None => i32::MIN as int,
    }
}

/// The order of adjudication: higher priority first, then the longer fragment, then the
/// one further left, then the smaller rule id, then the smaller end.
pub open spec fn ranks_before(pa: int, a: Span, pb: int, b: Span) -> bool {
    let la = a.end - a.start;
    let lb = b.end - b.start;
    if pa != pb {
        pa > pb
    } else if la != lb {
        la > lb
    } else if a.start != b.start {
        a.start < b.start
    } else if a.rule_id != b.rule_id {
        text::text_before(a.rule_id, b.rule_id)
    } else {
        a.end < b.end
    }
}

/// The order of adjudication under the given priorities.
pub open spec fn ranking(priority: spec_fn(Seq<char>) -> int) -> spec_fn(Span, Span) -> bool {
    |a: Span, b: Span| ranks_before(priority(a.rule_id), a, priority(b.rule_id), b)
}

/// Two fragments have a byte in common.
pub open spec fn meets(a: Span, b: Span) -> bool {
    a.start < b.end && b.start < a.end
}

/// The first of the winners that meets a fragment.
pub open spec fn first_meeting(won: Seq<Span>, c: Span) -> Option<int>
    decreases won.len(),
{
    if won.len() == 0 {
        None
    } else {
        match first_meeting(won.drop_last(), c) {
            Some(i) => Some(i),
            None => if meets(c, won.last()) {
                Some(won.len() - 1)
            } else {
                None
            },
        }
    }
}

/// Why a fragment lost to a winner.
pub open spec fn reason_for(pw: int, w: Span, pc: int, c: Span) -> Seq<char> {
    let lw = w.end - w.start;
    let lc = c.end - c.start;
    if pw > pc {
        "lower_priority"@
    } else if pw == pc && lw > lc {
        "shorter_match"@
    } else if pw == pc && lw == lc {
        "stable_order_tie_break"@
    } else {
        "overlap"@
    }
}

/// The loss of a fragment to a winner.
pub open spec fn loss_to(priority: spec_fn(Seq<char>) -> int, w: Span, c: Span) -> Loss {
    Loss {
        start: c.start,
        end: c.end,
        rule_id: c.rule_id,
        by_rule_id: w.rule_id,
        reason: reason_for(priority(w.rule_id), w, priority(c.rule_id), c),
    }
}

/// The winners and losses among the first `n` fragments: each one in turn stays unless it
/// meets one that stayed before it.
pub open spec fn settled(
    ranked: Seq<Span>,
    n: int,
    priority: spec_fn(Seq<char>) -> int,
) -> (Seq<Span>, Seq<Loss>)
    decreases n,
{
    if n <= 0 {
        (seq![], seq![])
    } else {
        let (won, lost) = settled(ranked, n - 1, priority);
        let c = ranked[n - 1];
        match first_meeting(won, c) {
            Some(i) => (won, lost.push(loss_to(priority, won[i], c))),
            None => (won.push(c), lost),
        }
    }
}

/// From left to right.
pub open spec fn span_before(a: Span, b: Span) -> bool {
    range_before((a.start, a.end), (b.start, b.end))
}

/// From left to right.
pub open spec fn loss_before(a: Loss, b: Loss) -> bool {
    range_before((a.start, a.end), (b.start, b.end))
}

/// The outcome of an adjudication: winners and losses, each from left to right.
pub open spec fn verdict(all: Seq<Span>, priority: spec_fn(Seq<char>) -> int) -> (
    Seq<Span>,
    Seq<Loss>,
) {
    let ranked = sorting::sorted(all, ranking(priority));
    let (won, lost) = settled(ranked, ranked.len() as int, priority);
    (
        sorting::sorted(won, |a: Span, b: Span| span_before(a, b)),
        sorting::sorted(lost, |a: Loss, b: Loss| loss_before(a, b)),
    )
}

fn ranked_precedes(x: &(i32, Candidate), y: &(i32, Candidate)) -> (r: bool)
    ensures
        r == ranks_before(x.0 as int, x.1@, y.0 as int, y.1@),
{
    let a: &Candidate = &x.1;
    let b: &Candidate = &y.1;
    let la: i128 = a.end as i128 - a.start as i128;
    let lb: i128 = b.end as i128 - b.start as i128;
    if x.0 != y.0 {
        x.0 > y.0
    } else if la != lb {
        la > lb
    } else if a.start != b.start {
        a.start < b.start
    } else if !text::same_text(a.rule_id.as_str(), b.rule_id.as_str()) {
        text::precedes(a.rule_id.as_str(), b.rule_id.as_str())
    } else {
        a.end < b.end
    }
}

fn candidate_precedes(x: &Candidate, y: &Candidate) -> (r: bool)
    ensures
        r == span_before(x@, y@),
{
    x.start < y.start || (x.start == y.start && x.end < y.end)
}

fn suppressed_precedes(x: &Suppressed, y: &Suppressed) -> (r: bool)
    ensures
        r == loss_before(x@, y@),
{
    x.start < y.start || (x.start == y.start && x.end < y.end)
}

/// The spans of ranked candidates.
spec fn ranked_spans(list: Seq<(i32, Candidate)>) -> Seq<Span> {
    list.map_values(|x: (i32, Candidate)| x.1@)
}

/// Each candidate carries the priority of its rule.
spec fn carries_priority(
    list: Seq<(i32, Candidate)>,
    priority: spec_fn(Seq<char>) -> int,
) -> bool {
    forall|i: int| 0 <= i < list.len() ==> (#[trigger] list[i]).0 == priority(list[i].1.rule_id@)
}

fn first_overlap(won: &Vec<(i32, Candidate)>, c: &Candidate) -> (r: Option<usize>)
    ensures
        match first_meeting(ranked_spans(won@), c@) {
            Some(i) => r is Some && r->0 == i && 0 <= i < won@.len(),
            None => r is None,
        },
{
    let ghost all = ranked_spans(won@);
    let mut i: usize = 0;
    while i < won.len()
        invariant
            0 <= i <= won@.len(),
            all == ranked_spans(won@),
            first_meeting(all.take(i as int), c@) is None,
        decreases won@.len() - i,
    {
        proof {
            assert(all.take(i + 1).drop_last() =~= all.take(i as int));
            assert(all.take(i + 1).last() == won@[i as int].1@);
        }
        let w: &Candidate = &won[i].1;
        if c.start < w.end && w.start < c.end {
            proof {
                lemma_first_meeting_extends(all, c@, i + 1);
            }
            return Some(i);
        }
        i = i + 1;
    }
    assert(all.take(i as int) =~= all);
    None
}

proof fn lemma_first_meeting_extends(won: Seq<Span>, c: Span, n: int)
    requires
        0 <= n <= won.len(),
        first_meeting(won.take(n), c) is Some,
    ensures
        first_meeting(won, c) == first_meeting(won.take(n), c),
    decreases won.len() - n,
{
    if n < won.len() {
        assert(won.take(n + 1).drop_last() =~= won.take(n));
        lemma_first_meeting_extends(won, c, n + 1);
    } else {
        assert(won.take(n) =~= won);
    }
}

/// Pairs every candidate with the priority of its rule.
fn with_priorities<F: Fn(&str) -> Option<i32>>(list: Vec<Candidate>, rule_priority: &F) -> (r: Vec<
    (i32, Candidate),
>)
    requires
        is_functional(*rule_priority),
    ensures
        ranked_spans(r@) == spans(list@),
        carries_priority(r@, |id: Seq<char>| priority_of(*rule_priority, id)),
{
    let ghost all = list@;
    let ghost priority = |id: Seq<char>| priority_of(*rule_priority, id);
    let mut rest: Vec<Candidate> = list;
    let mut out: Vec<(i32, Candidate)> = Vec::new();
    assert(ranked_spans(out@) =~= spans(all).take(0));
    while rest.len() > 0
        invariant
            is_functional(*rule_priority),
            priority == (|id: Seq<char>| priority_of(*rule_priority, id)),
            out@.len() + rest@.len() == all.len(),
            rest@ == all.skip(out@.len() as int),
            ranked_spans(out@) == spans(all).take(out@.len() as int),
            carries_priority(out@, priority),
        decreases rest@.len(),
    {
        let ghost done = out@;
        let c: Candidate = rest.remove(0);
        assert(c == all[done.len() as int]);
        let answer: Option<i32> = rule_priority(c.rule_id.as_str());
        proof {
            assert(answers(*rule_priority, c.rule_id@, answer));
            let a = choose|a: Option<i32>| answers(*rule_priority, c.rule_id@, a);
            assert(a == answer);
        }
        let p: i32 = match answer {
            Some(p) => p,
            None => i32::MIN,
        };
        let ghost span = c@;
        out.push((p, c));
        proof {
            assert(rest@ =~= all.skip(out@.len() as int));
            assert(ranked_spans(out@) =~= ranked_spans(done).push(span));
            assert(ranked_spans(out@) =~= spans(all).take(out@.len() as int));
        }
    }
    assert(spans(all).take(out@.len() as int) =~= spans(all));
    out
}

/// Decides between overlapping fragments: the one of higher priority stays, among equals
/// the longer one, then the one further left, then the one with the smaller rule id.
pub fn adjudicate<F: Fn(&str) -> Option<i32>>(
    candidates: Vec<Candidate>,
    rule_priority: F,
) -> (r: Adjudication)
    requires
        is_functional(rule_priority),
    ensures
        ({
            let (won, lost) = verdict(
                spans(candidates@),
                |id: Seq<char>| priority_of(rule_priority, id),
            );
            spans(r.selected@) == won && losses(r.suppressed@) == lost
        }),
{
    let ghost all = spans(candidates@);
    let ghost priority = |id: Seq<char>| priority_of(rule_priority, id);
    let paired: Vec<(i32, Candidate)> = with_priorities(candidates, &rule_priority);
    let ghost pairs = paired@;
    let ghost order = |x: (i32, Candidate), y: (i32, Candidate)|
        ranks_before(x.0 as int, x.1@, y.0 as int, y.1@);
    let mut rest: Vec<(i32, Candidate)> = sorting::sort_by(paired, Ghost(order), ranked_precedes);
    let ghost ranked = ranked_spans(rest@);
    let ghost line = rest@;
    proof {
        assert forall|x: (i32, Candidate), y: (i32, Candidate)| #![trigger order(x, y)]
            pairs.contains(x) && pairs.contains(y) implies order(x, y) == ranking(priority)(
            x.1@,
            y.1@,
        ) by {
            let i = choose|i: int| 0 <= i < pairs.len() && pairs[i] == x;
            let j = choose|j: int| 0 <= j < pairs.len() && pairs[j] == y;
            assert(pairs[i].0 == priority(pairs[i].1.rule_id@));
            assert(pairs[j].0 == priority(pairs[j].1.rule_id@));
        }
        sorting::lemma_sorted_maps(
            pairs,
            |x: (i32, Candidate)| x.1@,
            order,
            ranking(priority),
        );
        assert(ranked == sorting::sorted(all, ranking(priority)));
        assert forall|i: int| 0 <= i < line.len() implies (#[trigger] line[i]).0 == priority(
            line[i].1.rule_id@,
        ) by {
            sorting::lemma_sorted_contains(pairs, order, line[i]);
            assert(line.contains(line[i]));
            let k = choose|k: int| 0 <= k < pairs.len() && pairs[k] == line[i];
            assert(pairs[k].0 == priority(pairs[k].1.rule_id@));
        }
    }
    let mut won: Vec<(i32, Candidate)> = Vec::new();
    let mut lost: Vec<Suppressed> = Vec::new();
    let ghost mut n: int = 0;
    proof {
        assert(ranked_spans(won@) =~= Seq::empty());
        assert(losses(lost@) =~= Seq::empty());
        assert(line.skip(0) =~= line);
    }
    while rest.len() > 0
        invariant
            0 <= n <= line.len(),
            rest@ == line.skip(n),
            ranked == ranked_spans(line),
            carries_priority(line, priority),
            carries_priority(won@, priority),
            settled(ranked, n, priority) == (ranked_spans(won@), losses(lost@)),
        decreases rest@.len(),
    {
        let ghost won_before = won@;
        let ghost lost_before = lost@;
        let (pc, c): (i32, Candidate) = rest.remove(0);
        proof {
            assert(line[n] == (pc, c));
            assert(ranked[n] == c@);
            assert(rest@ =~= line.skip(n + 1));
            n = n + 1;
        }
        match first_overlap(&won, &c) {
            Some(i) => {
                let pw: i32 = won[i].0;
                let w: &Candidate = &won[i].1;
                let reason: &str = explain(pw, w, pc, &c);
                proof {
                    assert(ranked_spans(won@)[i as int] == w@);
                    assert(won@[i as int].0 == priority(won@[i as int].1.rule_id@));
                }
                let loss: Suppressed = Suppressed {
                    start: c.start,
                    end: c.end,
                    rule_id: c.rule_id.clone(),
                    by_rule_id: w.rule_id.clone(),
                    reason: reason.to_string(),
                };
                let ghost model = loss@;
                lost.push(loss);
                proof {
                    assert(losses(lost@) =~= losses(lost_before).push(model));
                    assert(pc == priority(c.rule_id@));
                    assert(model == loss_to(priority, w@, c@));
                }
            },
            None => {
                let ghost span = c@;
                won.push((pc, c));
                proof {
                    assert(ranked_spans(won@) =~= ranked_spans(won_before).push(span));
                }
            },
        }
    }
    let ghost winners = ranked_spans(won@);
    let kept: Vec<Candidate> = without_priorities(won);
    let ghost kept_list = kept@;
    let ghost lost_list = lost@;
    let selected: Vec<Candidate> = sorting::sort_by(
        kept,
        Ghost(|a: Candidate, b: Candidate| span_before(a@, b@)),
        candidate_precedes,
    );
    let suppressed: Vec<Suppressed> = sorting::sort_by(
        lost,
        Ghost(|a: Suppressed, b: Suppressed| loss_before(a@, b@)),
        suppressed_precedes,
    );
    proof {
        assert(n == ranked.len());
        sorting::lemma_sorted_maps(
            kept_list,
            |c: Candidate| c@,
            |a: Candidate, b: Candidate| span_before(a@, b@),
            |a: Span, b: Span| span_before(a, b),
        );
        sorting::lemma_sorted_maps(
            lost_list,
            |s: Suppressed| s@,
            |a: Suppressed, b: Suppressed| loss_before(a@, b@),
            |a: Loss, b: Loss| loss_before(a, b),
        );
    }
    Adjudication { selected, suppressed }
}

fn without_priorities(list: Vec<(i32, Candidate)>) -> (r: Vec<Candidate>)
    ensures
        spans(r@) == ranked_spans(list@),
{
    let ghost all = list@;
    let mut rest: Vec<(i32, Candidate)> = list;
    let mut out: Vec<Candidate> = Vec::new();
    assert(spans(out@) =~= ranked_spans(all).take(0));
    while rest.len() > 0
        invariant
            out@.len() + rest@.len() == all.len(),
            rest@ == all.skip(out@.len() as int),
            spans(out@) == ranked_spans(all).take(out@.len() as int),
        decreases rest@.len(),
    {
        let ghost done = out@;
        let (_p, c): (i32, Candidate) = rest.remove(0);
        let ghost span = c@;
        assert(all[done.len() as int] == (_p, c));
        out.push(c);
        proof {
            assert(rest@ =~= all.skip(out@.len() as int));
            assert(spans(out@) =~= spans(done).push(span));
            assert(spans(out@) =~= ranked_spans(all).take(out@.len() as int));
        }
    }
    assert(ranked_spans(all).take(out@.len() as int) =~= ranked_spans(all));
    out
}

fn explain(pw: i32, w: &Candidate, pc: i32, c: &Candidate) -> (r: &'static str)
    ensures
        r@ == reason_for(pw as int, w@, pc as int, c@),
{
    let lw: i128 = w.end as i128 - w.start as i128;
    let lc: i128 = c.end as i128 - c.start as i128;
    if pw > pc {
        "lower_priority"
    } else if pw == pc && lw > lc {
        "shorter_match"
    } else if pw == pc && lw == lc {
        "stable_order_tie_break"
    } else {
        "overlap"
    }
}

/// A replacement: the bytes from one place to another, and what takes their place.
pub open spec fn replacements(selected: Seq<Span>, tokens: Seq<Seq<char>>) -> Seq<
    (int, int, Seq<char>),
> {
    Seq::new(selected.len(), |i: int| (selected[i].start, selected[i].end, tokens[i]))
}

/// The replacements from right to left, so that none moves what a later one speaks of.
pub open spec fn right_to_left(list: Seq<(int, int, Seq<char>)>) -> Seq<(int, int, Seq<char>)> {
    sorting::sorted(list, |a: (int, int, Seq<char>), b: (int, int, Seq<char>)| a.0 > b.0)
}

/// The text after the first `n` replacements.
pub open spec fn spliced(s: Seq<char>, list: Seq<(int, int, Seq<char>)>, n: int) -> Seq<char>
    decreases n,
{
    if n <= 0 {
        s
    } else {
        text::replaced(spliced(s, list, n - 1), list[n - 1].0, list[n - 1].1, list[n - 1].2)
    }
}

/// Each replacement speaks of whole characters of the text as it finds it.
pub open spec fn can_splice(s: Seq<char>, list: Seq<(int, int, Seq<char>)>) -> bool {
    forall|n: int|
        0 <= n < list.len() ==> text::is_text_range(
            #[trigger] spliced(s, list, n),
            list[n].0,
            list[n].1,
        )
}

/// The texts of a list of strings.
pub open spec fn texts(list: Seq<String>) -> Seq<Seq<char>> {
    list.map_values(|s: String| s@)
}

/// The tokens are answers of the function to the places of the list.
pub open spec fn drawn_from<F: FnMut(usize) -> String>(
    f: F,
    n: nat,
    tokens: Seq<String>,
) -> bool {
    &&& tokens.len() == n
    &&& forall|i: int| 0 <= i < n ==> call_ensures(f, (i as usize,), #[trigger] tokens[i])
}

/// The text with each selected fragment replaced by its token.
pub open spec fn masked(s: Seq<char>, selected: Seq<Span>, tokens: Seq<Seq<char>>) -> Seq<char> {
    let list = right_to_left(replacements(selected, tokens));
    spliced(s, list, list.len() as int)
}

fn replacement_precedes(x: &(usize, usize, String), y: &(usize, usize, String)) -> (r: bool)
    ensures
        r == (x.0 > y.0),
{
    x.0 > y.0
}

/// Replaces each selected fragment by its token, from right to left.
pub fn replace_selected(text: &str, selected: &[Candidate], tokens: Vec<String>) -> (r: String)
    requires
        tokens@.len() == selected@.len(),
        can_splice(
            text@,
            right_to_left(replacements(spans(selected@), texts(tokens@))),
        ),
    ensures
        r@ == masked(text@, spans(selected@), texts(tokens@)),
{
    let ghost wanted = replacements(spans(selected@), texts(tokens@));
    let ghost names = tokens@;
    let mut rest: Vec<String> = tokens;
    let mut list: Vec<(usize, usize, String)> = Vec::new();
    let ghost f = |x: (usize, usize, String)| (x.0 as int, x.1 as int, x.2@);
    assert(list@.map_values(f) =~= wanted.take(0));
    while rest.len() > 0
        invariant
            names.len() == selected@.len(),
            wanted == replacements(spans(selected@), texts(names)),
            f == (|x: (usize, usize, String)| (x.0 as int, x.1 as int, x.2@)),
            list@.len() + rest@.len() == names.len(),
            rest@ == names.skip(list@.len() as int),
            list@.map_values(f) == wanted.take(list@.len() as int),
        decreases rest@.len(),
    {
        let i: usize = list.len();
        let ghost done = list@;
        let token: String = rest.remove(0);
        proof {
            assert(names[i as int] == token);
            assert(spans(selected@)[i as int] == selected@[i as int]@);
            assert(texts(names)[i as int] == token@);
        }
        list.push((selected[i].start, selected[i].end, token));
        proof {
            assert(rest@ =~= names.skip(list@.len() as int));
            assert(list@.map_values(f) =~= wanted.take(list@.len() as int));
        }
    }
    assert(wanted.take(list@.len() as int) =~= wanted);
    let ghost drawn = list@;
    let ghost order = |x: (usize, usize, String), y: (usize, usize, String)| x.0 > y.0;
    let ordered: Vec<(usize, usize, String)> = sorting::sort_by(
        list,
        Ghost(order),
        replacement_precedes,
    );
    let ghost steps = right_to_left(wanted);
    proof {
        sorting::lemma_sorted_maps(
            drawn,
            f,
            order,
            |a: (int, int, Seq<char>), b: (int, int, Seq<char>)| a.0 > b.0,
        );
        assert(ordered@.map_values(f) == steps);
    }
    let mut out: String = text.to_string();
    let mut i: usize = 0;
    while i < ordered.len()
        invariant
            0 <= i <= ordered@.len(),
            f == (|x: (usize, usize, String)| (x.0 as int, x.1 as int, x.2@)),
            ordered@.map_values(f) == steps,
            can_splice(text@, steps),
            out@ == spliced(text@, steps, i as int),
        decreases ordered@.len() - i,
    {
        let step: &(usize, usize, String) = &ordered[i];
        proof {
            assert(steps[i as int] == f(ordered@[i as int]));
            assert(text::is_text_range(
                spliced(text@, steps, i as int),
                steps[i as int].0,
                steps[i as int].1,
            ));
        }
        out = text::replace_range(out.as_str(), step.0, step.1, step.2.as_str());
        i = i + 1;
    }
    out
}

/// Replaces each selected fragment by the token that the function gives for its place.
pub fn apply_selected<F: FnMut(usize) -> String>(
    text: &str,
    selected: &[Candidate],
    token_for: F,
) -> (r: String)
    requires
        forall|i: usize| i < selected@.len() ==> #[trigger] call_requires(token_for, (i,)),
        forall|tokens: Seq<String>| #[trigger]
            drawn_from(token_for, selected@.len(), tokens) ==> can_splice(
                text@,
                right_to_left(replacements(spans(selected@), texts(tokens))),
            ),
    ensures
        exists|tokens: Seq<String>| #[trigger]
            drawn_from(token_for, selected@.len(), tokens) && r@ == masked(
                text@,
                spans(selected@),
                texts(tokens),
            ),
{
    let mut token_for = token_for;
    let ghost f = token_for;
    let mut tokens: Vec<String> = Vec::new();
    let mut i: usize = 0;
    while i < selected.len()
        invariant
            0 <= i <= selected@.len(),
            forall|k: usize| k < selected@.len() ==> #[trigger] call_requires(token_for, (k,)),
            tokens@.len() == i,
            f == token_for,
            forall|k: int| 0 <= k < i ==> call_ensures(f, (k as usize,), #[trigger] tokens@[k]),
        decreases selected@.len() - i,
    {
        let token: String = token_for(i);
        tokens.push(token);
        i = i + 1;
    }
    let ghost drawn = tokens@;
    assert(drawn_from(f, selected@.len(), drawn));
    replace_selected(text, selected, tokens)
}

/// The rules that a new room starts with.
pub fn default_rules() -> (r: Vec<Rule>)
    ensures
        r@.len() == 2,
        r@[0].id@ == "email"@ && r@[0].name@ == "邮箱"@ && r@[0].kind@ == KIND_EMAIL@,
        r@[0].pattern@ == ""@ && r@[0].priority == 100 && r@[0].enabled,
        r@[1].id@ == "number"@ && r@[1].name@ == "数字编号"@ && r@[1].kind@ == KIND_NUMBER@,
        r@[1].pattern@ == ""@ && r@[1].priority == 10 && r@[1].enabled,
{
    vec![
        Rule {
            id: "email".to_string(),
            name: "邮箱".to_string(),
            kind: KIND_EMAIL.to_string(),
            pattern: "".to_string(),
            priority: 100,
            enabled: true,
        },
        Rule {
            id: "number".to_string(),
            name: "数字编号".to_string(),
            kind: KIND_NUMBER.to_string(),
            pattern: "".to_string(),
            priority: 10,
            enabled: true,
        },
    ]
}

}
