//! The masking service: rules are registered, texts are masked and restored, keys are rotated,
//! and all of it is entered into the audit log.

use crate::b64;
use crate::canonical;
use crate::clock;
use crate::crypto;
use crate::crypto::{GenKey, KeyFile};
use crate::json;
use crate::json::{Json, Value};
use crate::masking;
use crate::model;
use crate::redaction;
use crate::redaction::{Adjudication, Candidate, Hit, Ruling, Suppressed};
use crate::redaction_laws;
use crate::sealing;
use crate::sealing::Origin;
use crate::sorting;
use crate::state;
use crate::state::{
    AuditRecord, LogRecord, MappingRecord, Mappings, MaskRule, MatchKind, Record, Redaction, RedactionEntry,
    Room, Rule, State, Store,
};
use crate::text;
use vstd::prelude::*;
use vstd::string::*;
use vstd::utf8::*;

verus! {

broadcast use vstd::seq::group_seq_axioms;

/// What every token that cannot be restored is answered, whether it is malformed, unknown or
/// someone else's.
pub const RESTORE_ERROR: &'static str = "无法还原：token 无效或未被授权";

/// Bytes in lower-case hexadecimal, by `hex::encode`.
#[verifier::external_body]
fn hex_of(bytes: &[u8]) -> (r: String)
    ensures
        r@ == crypto::hex_text(bytes@),
{
    hex::encode(bytes)
}

/// The object that the hash of a log record is taken over.
pub open spec fn audit_object(
    seq: u64,
    ts: u64,
    kind: Seq<char>,
    detail: Json,
    prev_hash: Seq<char>,
) -> Json {
    Json::Obj(
        seq![
            ("seq"@, model::number(seq)),
            ("ts"@, model::number(ts)),
            ("kind"@, Json::Str(kind)),
            ("detail"@, detail),
            ("prev_hash"@, Json::Str(prev_hash)),
        ],
    )
}

/// The hash of a log record.
pub fn audit_hash(seq: u64, ts: u64, kind: &str, detail: &Value, prev_hash: &str) -> (r: String)
    ensures
        r@ == model::digest_text(audit_object(seq, ts, kind@, detail.json(), prev_hash@)),
{
    let mut pairs: Vec<(&str, Value)> = Vec::new();
    pairs.push(("seq", Value::Num(text::decimal(seq))));
    pairs.push(("ts", Value::Num(text::decimal(ts))));
    pairs.push(("kind", Value::str(kind)));
    pairs.push(("detail", detail.clone()));
    pairs.push(("prev_hash", Value::str(prev_hash)));
    let object: Value = Value::obj(pairs);
    assert(object.json()->Obj_0 =~= audit_object(
        seq,
        ts,
        kind@,
        detail.json(),
        prev_hash@,
    )->Obj_0);
    let payload: String = canonical::to_text(&object);
    let digest: [u8; 32] = crypto::sha256(payload.as_str().as_bytes());
    hex_of(&digest)
}

/// What the first record of a log names as the hash of the one before it.
pub open spec fn no_hash() -> Seq<char> {
    Seq::new(64, |i: int| '0')
}

fn zeros() -> (r: String)
    ensures
        r@ == no_hash(),
{
    let mut out: String = String::new();
    let mut i: usize = 0;
    while i < 64
        invariant
            i <= 64,
            out@ == no_hash().take(i as int),
        decreases 64 - i,
    {
        out.push('0');
        i = i + 1;
        assert(out@ =~= no_hash().take(i as int));
    }
    assert(no_hash().take(64) =~= no_hash());
    out
}

/// The hash that the record at place `i` has to name.
pub open spec fn hash_before(audit: Seq<LogRecord>, i: int) -> Seq<char> {
    if i <= 0 {
        no_hash()
    } else {
        audit[i - 1].hash
    }
}

/// The record that follows a log.
pub open spec fn next_record(
    audit: Seq<LogRecord>,
    ts: u64,
    kind: Seq<char>,
    detail: Json,
) -> LogRecord {
    let seq = audit.len() as u64;
    let prev_hash = hash_before(audit, audit.len() as int);
    LogRecord {
        seq,
        ts,
        kind,
        detail,
        prev_hash,
        hash: model::digest_text(audit_object(seq, ts, kind, detail, prev_hash)),
    }
}

/// The room with one more record in its log.
pub open spec fn logged(room: Room, ts: u64, kind: Seq<char>, detail: Json) -> Room {
    Room { audit: room.audit.push(next_record(room.audit, ts, kind, detail)), ..room }
}

/// Appends a record to the log.
fn push_audit(state: &mut State, ts: u64, kind: &str, detail: Value)
    ensures
        final(state)@ == logged(old(state)@, ts, kind@, detail.json()),
{
    let ghost before = state@;
    let ghost list = state.audit@;
    let len: usize = state.audit.len();
    let seq: u64 = len as u64;
    let prev_hash: String = if len > 0 {
        assert(before.audit[len - 1] == list[len - 1]@);
        state.audit[len - 1].hash.clone()
    } else {
        zeros()
    };
    let hash: String = audit_hash(seq, ts, kind, &detail, prev_hash.as_str());
    let record: AuditRecord = AuditRecord {
        seq,
        ts,
        kind: kind.to_string(),
        detail,
        prev_hash,
        hash,
    };
    state.audit.push(record);
    assert(state@.audit =~= before.audit.push(record@));
}

/// The record at place `i` is in order.
pub open spec fn record_holds(audit: Seq<LogRecord>, i: int) -> bool {
    let r = audit[i];
    &&& r.seq == i
    &&& r.prev_hash == hash_before(audit, i)
    &&& r.hash == model::digest_text(audit_object(r.seq, r.ts, r.kind, r.detail, r.prev_hash))
}

/// All records are in order.
pub open spec fn chain_holds(audit: Seq<LogRecord>) -> bool {
    forall|i: int| 0 <= i < audit.len() ==> #[trigger] record_holds(audit, i)
}

/// A fragment with the rule that it falls under.
#[derive(Clone, Debug)]
pub struct SpanRef {
    pub rule_id: String,
    pub version: u32,
    pub start: usize,
    pub end: usize,
}

/// A fragment with the rule that it falls under, and its text.
#[derive(Clone, Debug)]
pub struct SpanInfo {
    pub rule_id: String,
    pub version: u32,
    pub start: usize,
    pub end: usize,
    pub matched: String,
}

/// A fragment that is not masked, and the one that it gives way to.
#[derive(Clone, Debug)]
pub struct SuppressedInfo {
    pub rule_id: String,
    pub version: u32,
    pub start: usize,
    pub end: usize,
    pub matched: String,
    pub suppressed_by: SpanRef,
}

/// What would be masked in a text.
#[derive(Clone, Debug)]
pub struct Preview {
    pub accepted: Vec<SpanInfo>,
    pub suppressed: Vec<SuppressedInfo>,
}

/// A token that was put into a text.
#[derive(Clone, Debug)]
pub struct TokenInfo {
    pub token: String,
    pub token_id: String,
    pub rule_id: String,
    pub version: u32,
    pub matched: String,
}

/// A masked text.
#[derive(Clone, Debug)]
pub struct RedactOutcome {
    pub redacted: String,
    pub tokens: Vec<TokenInfo>,
    pub suppressed: Vec<SuppressedInfo>,
}

/// What a token is answered.
#[derive(Clone, Debug)]
pub struct RestoreItem {
    pub token: String,
    pub ok: bool,
    pub text: Option<String>,
    pub error: Option<String>,
}

/// The hashes of the log.
#[derive(Clone, Debug)]
pub struct AuditSummary {
    pub length: usize,
    pub head: Option<String>,
    pub hashes: Vec<String>,
}

/// What may leave the room: masked texts, rules and hashes, but no mappings.
#[derive(Clone, Debug)]
pub struct Export {
    pub rules: Vec<Rule>,
    pub current_gen: u32,
    pub redacted_texts: Vec<RedactionEntry>,
    pub audit: AuditSummary,
}

/// The mathematical form of a `SpanRef`.
pub struct Mark {
    pub rule_id: Seq<char>,
    pub version: u32,
    pub start: int,
    pub end: int,
}

/// The mathematical form of a `SpanInfo`.
pub struct Fragment {
    pub mark: Mark,
    pub matched: Seq<char>,
}

/// The mathematical form of a `TokenInfo`.
pub struct TokenNote {
    pub token: Seq<char>,
    pub token_id: Seq<char>,
    pub rule_id: Seq<char>,
    pub version: u32,
    pub matched: Seq<char>,
}

/// The mathematical form of a `RestoreItem`.
pub struct Answer {
    pub token: Seq<char>,
    pub ok: bool,
    pub text: Option<Seq<char>>,
    pub error: Option<Seq<char>>,
}

impl View for SpanRef {
    type V = Mark;

    open spec fn view(&self) -> Mark {
        Mark {
            rule_id: self.rule_id@,
            version: self.version,
            start: self.start as int,
            end: self.end as int,
        }
    }
}

impl View for SpanInfo {
    type V = Fragment;

    open spec fn view(&self) -> Fragment {
        Fragment {
            mark: Mark {
                rule_id: self.rule_id@,
                version: self.version,
                start: self.start as int,
                end: self.end as int,
            },
            matched: self.matched@,
        }
    }
}

impl View for SuppressedInfo {
    type V = (Fragment, Mark);

    open spec fn view(&self) -> (Fragment, Mark) {
        (
            Fragment {
                mark: Mark {
                    rule_id: self.rule_id@,
                    version: self.version,
                    start: self.start as int,
                    end: self.end as int,
                },
                matched: self.matched@,
            },
            self.suppressed_by@,
        )
    }
}

impl View for TokenInfo {
    type V = TokenNote;

    open spec fn view(&self) -> TokenNote {
        TokenNote {
            token: self.token@,
            token_id: self.token_id@,
            rule_id: self.rule_id@,
            version: self.version,
            matched: self.matched@,
        }
    }
}

/// The text of an optional string.
pub open spec fn text_of(s: Option<String>) -> Option<Seq<char>> {
    match s {
        Some(t) => Some(t@),
        None => None,
    }
}

impl View for RestoreItem {
    type V = Answer;

    open spec fn view(&self) -> Answer {
        Answer {
            token: self.token@,
            ok: self.ok,
            text: text_of(self.text),
            error: text_of(self.error),
        }
    }
}

/// Where a hit stands, with its rule.
pub open spec fn mark_of(rules: Seq<MaskRule>, h: Hit) -> Mark {
    Mark {
        rule_id: rules[h.rule].id,
        version: rules[h.rule].version,
        start: h.start,
        end: h.end,
    }
}

/// A hit with its rule and its text.
pub open spec fn fragment_of(rules: Seq<MaskRule>, h: Hit) -> Fragment {
    Fragment { mark: mark_of(rules, h), matched: h.matched }
}

/// The accepted hits with their rules and texts.
pub open spec fn fragments(rules: Seq<MaskRule>, list: Seq<Hit>) -> Seq<Fragment> {
    list.map_values(|h: Hit| fragment_of(rules, h))
}

/// The losers with their rules and texts, and what they gave way to.
pub open spec fn concessions(rules: Seq<MaskRule>, list: Seq<(Hit, Hit)>) -> Seq<(Fragment, Mark)> {
    list.map_values(|p: (Hit, Hit)| (fragment_of(rules, p.0), mark_of(rules, p.1)))
}

/// The fragments of a list.
pub open spec fn fragments_of(list: Seq<SpanInfo>) -> Seq<Fragment> {
    list.map_values(|s: SpanInfo| s@)
}

/// The suppressed fragments of a list.
pub open spec fn concessions_of(list: Seq<SuppressedInfo>) -> Seq<(Fragment, Mark)> {
    list.map_values(|s: SuppressedInfo| s@)
}

/// The token notes of a list.
pub open spec fn notes_of(list: Seq<TokenInfo>) -> Seq<TokenNote> {
    list.map_values(|t: TokenInfo| t@)
}

/// The answers of a list.
pub open spec fn answers_of(list: Seq<RestoreItem>) -> Seq<Answer> {
    list.map_values(|i: RestoreItem| i@)
}

/// What is decided about a text under some rules.
pub open spec fn verdict(rules: Seq<MaskRule>, text: Seq<char>) -> Ruling {
    redaction::ruling(
        rules,
        redaction::proposed(rules, text, rules.len() as int),
        redaction::token_spans(encode_utf8(text), 0),
    )
}

/// The ruling speaks of `n` rules, and what it accepts can be masked in the text.
#[verifier::opaque]
pub open spec fn can_mask(n: int, text: Seq<char>, r: Ruling) -> bool {
    &&& redaction::are_hits(n, text, r.accepted)
    &&& masking::lie_apart(text, redaction_laws::cuts(r.accepted))
    &&& forall|i: int|
        0 <= i < r.suppressed.len() ==> 0 <= (#[trigger] r.suppressed[i]).0.rule < n && 0
            <= r.suppressed[i].1.rule < n
}

/// A masking room.
pub struct Vault {
    pub store: Store,
}

impl Vault {
    /// The room as it was stored, or else a new one with keys of its own.
    pub fn open_or_init(stored: Option<Store>) -> (r: Self)
        ensures
            match stored {
                Some(s) => r.store == s,
                None => {
                    &&& r.store.state@ == state::empty_room(1)
                    &&& r.store.keys.generations@.len() == 1
                    &&& crypto::top_id(r.store.keys.generations@) == 1
                    &&& crypto::generation_key(r.store.keys.generations@, 1) is Some
                    &&& crypto::may_be_drawn(
                        r.store.keys.master@ + crypto::generation_key(
                            r.store.keys.generations@,
                            1,
                        )->0,
                    )
                },
            },
    {
        match stored {
            Some(s) => Vault { store: s },
            None => Vault { store: Store::init(KeyFile::generate()) },
        }
    }

    /// The room as it was stored.
    pub fn load(stored: Store) -> (r: Self)
        ensures
            r.store == stored,
    {
        Vault { store: stored }
    }

    /// A new room with the given keys.
    pub fn init_with_keys(master: [u8; 32], gen: [u8; 32]) -> (r: Self)
        ensures
            r.store.state@ == state::empty_room(1),
            r.store.keys.master@ == master@,
            r.store.keys.generations@.len() == 1,
            crypto::top_id(r.store.keys.generations@) == 1,
            crypto::generation_key(r.store.keys.generations@, 1) == Some(gen@),
    {
        Vault { store: Store::init(KeyFile::deterministic(master, gen)) }
    }

    /// Decides which fragments of a text are masked.
    pub fn adjudicate(&self, text: &str) -> (r: Adjudication)
        ensures
            r@ == verdict(self.store.state@.rules, text@),
            can_mask(self.store.state@.rules.len() as int, text@, r@),
    {
        let rules: &Vec<Rule> = &self.store.state.rules;
        let protected: Vec<(usize, usize)> = redaction::protected_spans(text);
        let candidates: Vec<Candidate> = redaction::find_candidates(rules, text);
        proof {
            reveal(can_mask);
            let list = redaction::hits_of(candidates@);
            let shield = redaction::ranges(protected@);
            let n = rules@.len() as int;
            let laws = state::rules_of(rules@);
            assert forall|i: int| 0 <= i < candidates@.len() implies (
            #[trigger] candidates@[i]).rule_idx < rules@.len() by {
                assert(redaction::is_hit(n, text@, list[i]));
            }
            redaction_laws::lemma_ruling_is_fair(laws, text@, list, shield);
            let r = redaction::ruling(laws, list, shield);
            assert forall|i: int| 0 <= i < r.suppressed.len() implies 0 <= (
            #[trigger] r.suppressed[i]).0.rule < n && 0 <= r.suppressed[i].1.rule < n by {
                let (h, x) = r.suppressed[i];
                let a = choose|a: int| 0 <= a < list.len() && list[a] == h;
                let b = choose|b: int| 0 <= b < r.accepted.len() && r.accepted[b] == x;
                assert(redaction::is_hit(n, text@, list[a]));
                assert(redaction::is_hit(n, text@, r.accepted[b]));
            }
        }
        redaction::adjudicate(rules, candidates, &protected)
    }

    fn suppressed_infos(&self, adj: &Adjudication) -> (r: Vec<SuppressedInfo>)
        requires
            forall|i: int|
                0 <= i < adj.suppressed@.len() ==> (#[trigger] adj.suppressed@[i]).cand.rule_idx
                    < self.store.state.rules@.len() && adj.suppressed@[i].by.rule_idx
                    < self.store.state.rules@.len(),
        ensures
            concessions_of(r@) == concessions(self.store.state@.rules, adj@.suppressed),
    {
        let rules: &Vec<Rule> = &self.store.state.rules;
        let ghost wanted = concessions(self.store.state@.rules, adj@.suppressed);
        let mut out: Vec<SuppressedInfo> = Vec::new();
        let mut i: usize = 0;
        assert(concessions_of(out@) =~= wanted.take(0));
        while i < adj.suppressed.len()
            invariant
                i <= adj.suppressed@.len(),
                *rules == self.store.state.rules,
                forall|k: int|
                    0 <= k < adj.suppressed@.len() ==> (
                    #[trigger] adj.suppressed@[k]).cand.rule_idx < rules@.len()
                        && adj.suppressed@[k].by.rule_idx < rules@.len(),
                wanted == concessions(self.store.state@.rules, adj@.suppressed),
                concessions_of(out@) == wanted.take(i as int),
            decreases adj.suppressed@.len() - i,
        {
            let ghost done = out@;
            let s: &Suppressed = &adj.suppressed[i];
            let cr: &Rule = &rules[s.cand.rule_idx];
            let br: &Rule = &rules[s.by.rule_idx];
            let info: SuppressedInfo = SuppressedInfo {
                rule_id: cr.id.clone(),
                version: cr.version,
                start: s.cand.start,
                end: s.cand.end,
                matched: s.cand.matched.clone(),
                suppressed_by: SpanRef {
                    rule_id: br.id.clone(),
                    version: br.version,
                    start: s.by.start,
                    end: s.by.end,
                },
            };
            assert(wanted[i as int] == info@);
            out.push(info);
            i = i + 1;
            assert(concessions_of(out@) =~= concessions_of(done).push(info@));
            assert(concessions_of(out@) =~= wanted.take(i as int));
        }
        assert(wanted.take(i as int) =~= wanted);
        out
    }

    /// What would be masked in a text, and what would give way to it.
    pub fn preview(&self, text: &str) -> (r: Preview)
        ensures
            fragments_of(r.accepted@) == fragments(
                self.store.state@.rules,
                verdict(self.store.state@.rules, text@).accepted,
            ),
            concessions_of(r.suppressed@) == concessions(
                self.store.state@.rules,
                verdict(self.store.state@.rules, text@).suppressed,
            ),
    {
        let adj: Adjudication = self.adjudicate(text);
        proof {
            reveal(can_mask);
        }
        let rules: &Vec<Rule> = &self.store.state.rules;
        let ghost n = rules@.len() as int;
        let ghost wanted = fragments(self.store.state@.rules, adj@.accepted);
        let mut accepted: Vec<SpanInfo> = Vec::new();
        let mut i: usize = 0;
        assert(fragments_of(accepted@) =~= wanted.take(0));
        while i < adj.accepted.len()
            invariant
                i <= adj.accepted@.len(),
                *rules == self.store.state.rules,
                n == rules@.len(),
                redaction::are_hits(n, text@, adj@.accepted),
                wanted == fragments(self.store.state@.rules, adj@.accepted),
                fragments_of(accepted@) == wanted.take(i as int),
            decreases adj.accepted@.len() - i,
        {
            let ghost done = accepted@;
            let c: &Candidate = &adj.accepted[i];
            assert(redaction::is_hit(n, text@, adj@.accepted[i as int]));
            let rule: &Rule = &rules[c.rule_idx];
            let info: SpanInfo = SpanInfo {
                rule_id: rule.id.clone(),
                version: rule.version,
                start: c.start,
                end: c.end,
                matched: c.matched.clone(),
            };
            assert(wanted[i as int] == info@);
            accepted.push(info);
            i = i + 1;
            assert(fragments_of(accepted@) =~= fragments_of(done).push(info@));
            assert(fragments_of(accepted@) =~= wanted.take(i as int));
        }
        proof {
            assert(wanted.take(i as int) =~= wanted);
            assert forall|k: int| 0 <= k < adj.suppressed@.len() implies (
            #[trigger] adj.suppressed@[k]).cand.rule_idx < rules@.len()
                && adj.suppressed@[k].by.rule_idx < rules@.len() by {
                assert(adj@.suppressed[k].0.rule < n);
            }
        }
        Preview { accepted, suppressed: self.suppressed_infos(&adj) }
    }

    /// Whether the log is in order: every record carries its place, the hash of the one before
    /// it and its own hash. That records are missing at the end does not show here.
    pub fn verify_audit(&self) -> (r: bool)
        ensures
            r == chain_holds(self.store.state@.audit),
    {
        let list: &Vec<AuditRecord> = &self.store.state.audit;
        let ghost all = self.store.state@.audit;
        let mut prev: String = zeros();
        let mut i: usize = 0;
        while i < list.len()
            invariant
                i <= list@.len(),
                *list == self.store.state.audit,
                all == self.store.state@.audit,
                prev@ == hash_before(all, i as int),
                forall|k: int| 0 <= k < i ==> #[trigger] record_holds(all, k),
            decreases list@.len() - i,
        {
            let rec: &AuditRecord = &list[i];
            assert(all[i as int] == rec@);
            if rec.seq != i as u64 || !text::same_text(rec.prev_hash.as_str(), prev.as_str()) {
                assert(!record_holds(all, i as int));
                return false;
            }
            let hash: String = audit_hash(
                rec.seq,
                rec.ts,
                rec.kind.as_str(),
                &rec.detail,
                rec.prev_hash.as_str(),
            );
            if !text::same_text(hash.as_str(), rec.hash.as_str()) {
                assert(!record_holds(all, i as int));
                return false;
            }
            prev = rec.hash.clone();
            i = i + 1;
        }
        true
    }
}

/// The rules that do not have the id.
pub open spec fn without_id(rules: Seq<MaskRule>, id: Seq<char>) -> Seq<MaskRule>
    decreases rules.len(),
{
    if rules.len() == 0 {
        seq![]
    } else if rules.last().id == id {
        without_id(rules.drop_last(), id)
    } else {
        without_id(rules.drop_last(), id).push(rules.last())
    }
}

/// The order of rules: by their ids.
pub open spec fn id_before(a: MaskRule, b: MaskRule) -> bool {
    text::text_before(a.id, b.id)
}

/// The rules with one more, which takes the place of those with its id; in the order of ids.
pub open spec fn with_rule(rules: Seq<MaskRule>, rule: MaskRule) -> Seq<MaskRule> {
    sorting::sorted(
        without_id(rules, rule.id).push(rule),
        |a: MaskRule, b: MaskRule| id_before(a, b),
    )
}

/// The name of a kind in the log.
pub open spec fn kind_name(kind: MatchKind) -> Seq<char> {
    match kind {
        MatchKind::Literal => "Literal"@,
        MatchKind::Regex => "Regex"@,
    }
}

/// What the log says of a registered rule.
pub open spec fn rule_detail(rule: MaskRule) -> Json {
    Json::Obj(
        seq![
            ("rule_id"@, Json::Str(rule.id)),
            ("version"@, model::number(rule.version as u64)),
            ("kind"@, Json::Str(kind_name(rule.kind))),
            ("priority"@, Json::Num(text::dec_int(rule.priority as int))),
            ("stable"@, Json::Bool(rule.stable)),
        ],
    )
}

/// The room with a rule registered.
pub open spec fn registered(room: Room, rule: MaskRule, ts: u64) -> Room {
    logged(
        Room { rules: with_rule(room.rules, rule), ..room },
        ts,
        "rule_register"@,
        rule_detail(rule),
    )
}

/// Why a rule is refused.
pub open spec fn rule_refusal(rule: MaskRule) -> Option<Seq<char>> {
    if rule.id.len() == 0 || rule.pattern.len() == 0 {
        Some("规则 id 与 pattern 不能为空"@)
    } else if rule.kind == MatchKind::Regex {
        match redaction::regex_fault(rule.pattern) {
            Some(fault) => Some("正则无效: "@ + fault),
            None => None,
        }
    } else {
        None
    }
}

fn rule_precedes(a: &Rule, b: &Rule) -> (r: bool)
    ensures
        r == id_before(a@, b@),
{
    text::precedes(a.id.as_str(), b.id.as_str())
}

fn detail_of_rule(rule: &Rule) -> (r: Value)
    ensures
        r.json() == rule_detail(rule@),
{
    let kind: &str = match rule.kind {
        MatchKind::Literal => "Literal",
        MatchKind::Regex => "Regex",
    };
    let mut pairs: Vec<(&str, Value)> = Vec::new();
    pairs.push(("rule_id", Value::str(rule.id.as_str())));
    pairs.push(("version", Value::Num(text::decimal(rule.version as u64))));
    pairs.push(("kind", Value::str(kind)));
    pairs.push(("priority", Value::Num(text::decimal_int(rule.priority))));
    pairs.push(("stable", Value::Bool(rule.stable)));
    let r: Value = Value::obj(pairs);
    assert(r.json()->Obj_0 =~= rule_detail(rule@)->Obj_0);
    r
}

fn is_empty_text(s: &str) -> (r: bool)
    ensures
        r == (s@.len() == 0),
{
    let chars: Vec<char> = text::chars_of(s);
    chars.len() == 0
}

fn refusal_of(rule: &Rule) -> (r: Option<String>)
    ensures
        text_of(r) == rule_refusal(rule@),
{
    if is_empty_text(rule.id.as_str()) || is_empty_text(rule.pattern.as_str()) {
        return Some("规则 id 与 pattern 不能为空".to_string());
    }
    match rule.kind {
        MatchKind::Literal => None,
        MatchKind::Regex => match redaction::regex_error(rule.pattern.as_str()) {
            Some(fault) => {
                let mut message: String = "正则无效: ".to_string();
                message.append(fault.as_str());
                Some(message)
            },
            None => None,
        },
    }
}

/// Puts a rule among the others.
fn place_rule(rules: Vec<Rule>, rule: Rule) -> (r: Vec<Rule>)
    ensures
        state::rules_of(r@) == with_rule(state::rules_of(rules@), rule@),
{
    let ghost all = rules@;
    let ghost models = state::rules_of(all);
    let mut rest: Vec<Rule> = rules;
    let mut kept: Vec<Rule> = Vec::new();
    let ghost mut done: int = 0;
    assert(models.take(0) =~= Seq::empty());
    assert(state::rules_of(kept@) =~= without_id(models.take(0), rule.id@));
    while rest.len() > 0
        invariant
            0 <= done <= all.len(),
            rest@ == all.skip(done),
            models == state::rules_of(all),
            state::rules_of(kept@) == without_id(models.take(done), rule.id@),
        decreases rest@.len(),
    {
        let ghost before = kept@;
        let other: Rule = rest.remove(0);
        proof {
            assert(all[done] == other);
            assert(rest@ =~= all.skip(done + 1));
            assert(models.take(done + 1).drop_last() =~= models.take(done));
            assert(models.take(done + 1).last() == other@);
            done = done + 1;
        }
        if !text::same_text(other.id.as_str(), rule.id.as_str()) {
            kept.push(other);
            assert(state::rules_of(kept@) =~= state::rules_of(before).push(other@));
        }
    }
    let ghost without = kept@;
    kept.push(rule);
    let ghost unsorted = kept@;
    let ghost order = |a: Rule, b: Rule| id_before(a@, b@);
    let sorted: Vec<Rule> = sorting::sort_by(kept, Ghost(order), rule_precedes);
    proof {
        assert(models.take(done) =~= models);
        assert(state::rules_of(unsorted) =~= state::rules_of(without).push(rule@));
        sorting::lemma_sorted_maps(
            unsorted,
            |r: Rule| r@,
            order,
            |a: MaskRule, b: MaskRule| id_before(a, b),
        );
    }
    sorted
}

/// What the log says of a rotation.
pub open spec fn rotation_detail(from: u32, to: u32) -> Json {
    Json::Obj(
        seq![("from"@, model::number(from as u64)), ("to"@, model::number(to as u64))],
    )
}

/// The room after a rotation to a generation.
pub open spec fn rotated(room: Room, to: u32, ts: u64) -> Room {
    logged(
        Room { current_gen: to, ..room },
        ts,
        "rotate"@,
        rotation_detail(room.current_gen, to),
    )
}

/// The hashes of a log.
pub open spec fn hashes(audit: Seq<LogRecord>) -> Seq<Seq<char>> {
    audit.map_values(|r: LogRecord| r.hash)
}

impl Vault {
    /// Registers a rule at a given time.
    pub fn register_rule_at(&mut self, rule: Rule, now: u64) -> (r: Result<(), String>)
        ensures
            final(self).store.keys == old(self).store.keys,
            match rule_refusal(rule@) {
                Some(message) => r is Err && r->Err_0@ == message && final(self).store.state@
                    == old(self).store.state@,
                None => r is Ok && final(self).store.state@ == registered(
                    old(self).store.state@,
                    rule@,
                    now,
                ),
            },
    {
        if let Some(message) = refusal_of(&rule) {
            return Err(message);
        }
        let detail: Value = detail_of_rule(&rule);
        let mut rules: Vec<Rule> = Vec::new();
        std::mem::swap(&mut rules, &mut self.store.state.rules);
        self.store.state.rules = place_rule(rules, rule);
        push_audit(&mut self.store.state, now, "rule_register", detail);
        Ok(())
    }

    /// Registers a rule; it takes the place of the one with its id.
    pub fn register_rule(&mut self, rule: Rule) -> (r: Result<(), String>)
        ensures
            final(self).store.keys == old(self).store.keys,
            match rule_refusal(rule@) {
                Some(message) => r is Err && r->Err_0@ == message && final(self).store.state@
                    == old(self).store.state@,
                None => r is Ok && exists|ts: u64|
                    clock::may_be_now(ts) && final(self).store.state@ == #[trigger] registered(
                        old(self).store.state@,
                        rule@,
                        ts,
                    ),
            },
    {
        let now: u64 = clock::now_ms();
        self.register_rule_at(rule, now)
    }

    /// Adds a generation of keys with the given key. The room does not use it yet, so that
    /// stopping here leaves everything consistent.
    pub fn begin_rotation_with(&mut self, key: [u8; 32]) -> (r: u32)
        requires
            crypto::top_id(old(self).store.keys.generations@) < u32::MAX,
        ensures
            final(self).store.state == old(self).store.state,
            r == crypto::top_id(old(self).store.keys.generations@) + 1,
            final(self).store.keys.generations@ == old(self).store.keys.generations@.push(
                final(self).store.keys.generations@.last(),
            ),
            final(self).store.keys.generations@.last().id == r,
            crypto::top_id(final(self).store.keys.generations@) == r,
            final(self).store.keys.master@ == old(self).store.keys.master@,
            crypto::generation_key(final(self).store.keys.generations@, r) == Some(key@),
            forall|id: u32|
                id != r ==> #[trigger] crypto::generation_key(
                    final(self).store.keys.generations@,
                    id,
                ) == crypto::generation_key(old(self).store.keys.generations@, id),
    {
        self.store.keys.add_generation_with(key)
    }

    /// The first step of a rotation: adds a generation of keys with a fresh key. The room
    /// does not use it yet, so that stopping here leaves everything consistent.
    pub fn begin_rotation(&mut self) -> (r: u32)
        requires
            crypto::top_id(old(self).store.keys.generations@) < u32::MAX,
        ensures
            final(self).store.state == old(self).store.state,
            r == crypto::top_id(old(self).store.keys.generations@) + 1,
            final(self).store.keys.generations@ == old(self).store.keys.generations@.push(
                final(self).store.keys.generations@.last(),
            ),
            final(self).store.keys.generations@.last().id == r,
            crypto::top_id(final(self).store.keys.generations@) == r,
            final(self).store.keys.master@ == old(self).store.keys.master@,
            crypto::generation_key(final(self).store.keys.generations@, r) is Some,
            crypto::may_be_drawn(
                crypto::generation_key(final(self).store.keys.generations@, r)->0,
            ),
            forall|id: u32|
                id != r ==> #[trigger] crypto::generation_key(
                    final(self).store.keys.generations@,
                    id,
                ) == crypto::generation_key(old(self).store.keys.generations@, id),
    {
        self.store.keys.add_generation()
    }

    /// The second step of a rotation: makes a generation the current one, at a given time.
    pub fn finish_rotation_at(&mut self, new_id: u32, now: u64)
        ensures
            final(self).store.keys == old(self).store.keys,
            final(self).store.state@ == rotated(old(self).store.state@, new_id, now),
    {
        let from: u32 = self.store.state.current_gen;
        self.store.state.current_gen = new_id;
        let mut pairs: Vec<(&str, Value)> = Vec::new();
        pairs.push(("from", Value::Num(text::decimal(from as u64))));
        pairs.push(("to", Value::Num(text::decimal(new_id as u64))));
        let detail: Value = Value::obj(pairs);
        assert(detail.json()->Obj_0 =~= rotation_detail(from, new_id)->Obj_0);
        push_audit(&mut self.store.state, now, "rotate", detail);
    }

    /// The second step of a rotation: makes a generation the current one.
    pub fn finish_rotation(&mut self, new_id: u32)
        ensures
            final(self).store.keys == old(self).store.keys,
            exists|ts: u64|
                clock::may_be_now(ts) && final(self).store.state@ == #[trigger] rotated(
                    old(self).store.state@,
                    new_id,
                    ts,
                ),
    {
        let now: u64 = clock::now_ms();
        self.finish_rotation_at(new_id, now);
    }

    /// Rotates the keys: new mappings are encrypted under a new generation, and old ones can
    /// still be read.
    pub fn rotate(&mut self) -> (r: u32)
        requires
            crypto::top_id(old(self).store.keys.generations@) < u32::MAX,
        ensures
            r == crypto::top_id(old(self).store.keys.generations@) + 1,
            final(self).store.keys.generations@ == old(self).store.keys.generations@.push(
                final(self).store.keys.generations@.last(),
            ),
            final(self).store.keys.generations@.last().id == r,
            crypto::top_id(final(self).store.keys.generations@) == r,
            final(self).store.keys.master@ == old(self).store.keys.master@,
            crypto::generation_key(final(self).store.keys.generations@, r) is Some,
            crypto::may_be_drawn(
                crypto::generation_key(final(self).store.keys.generations@, r)->0,
            ),
            forall|id: u32|
                id != r ==> #[trigger] crypto::generation_key(
                    final(self).store.keys.generations@,
                    id,
                ) == crypto::generation_key(old(self).store.keys.generations@, id),
            exists|ts: u64|
                clock::may_be_now(ts) && final(self).store.state@ == #[trigger] rotated(
                    old(self).store.state@,
                    r,
                    ts,
                ),
    {
        let new_id: u32 = self.begin_rotation();
        self.finish_rotation(new_id);
        new_id
    }

    /// What may leave the room: masked texts, rules and the hashes of the log.
    pub fn export(&self) -> (r: Export)
        ensures
            state::rules_of(r.rules@) == self.store.state@.rules,
            r.current_gen == self.store.state@.current_gen,
            state::redactions_of(r.redacted_texts@) == self.store.state@.redactions,
            r.audit.length == self.store.state@.audit.len(),
            text_of(r.audit.head) == (if self.store.state@.audit.len() > 0 {
                Some(self.store.state@.audit.last().hash)
            } else {
                None
            }),
            state::texts_of(r.audit.hashes@) == hashes(self.store.state@.audit),
    {
        let list: &Vec<AuditRecord> = &self.store.state.audit;
        let ghost wanted = hashes(self.store.state@.audit);
        let len: usize = list.len();
        let mut out: Vec<String> = Vec::new();
        let mut i: usize = 0;
        assert(state::texts_of(out@) =~= wanted.take(0));
        while i < len
            invariant
                i <= len,
                len == list@.len(),
                *list == self.store.state.audit,
                wanted == hashes(self.store.state@.audit),
                state::texts_of(out@) == wanted.take(i as int),
            decreases len - i,
        {
            let ghost done = out@;
            out.push(list[i].hash.clone());
            i = i + 1;
            assert(wanted[i - 1] == list@[i - 1].hash@);
            assert(state::texts_of(out@) =~= state::texts_of(done).push(list@[i - 1].hash@));
            assert(state::texts_of(out@) =~= wanted.take(i as int));
        }
        assert(wanted.take(i as int) =~= wanted);
        let head: Option<String> = if len > 0 {
            Some(list[len - 1].hash.clone())
        } else {
            None
        };
        Export {
            rules: state::copy_rules(&self.store.state.rules),
            current_gen: self.store.state.current_gen,
            redacted_texts: state::copy_redactions(&self.store.state.redactions),
            audit: AuditSummary { length: len, head, hashes: out },
        }
    }
}

/// The text that a token stands for, as far as the room can tell.
pub open spec fn restored_text(room: Room, gens: Seq<GenKey>, token: Seq<char>) -> Option<
    Seq<char>,
> {
    match redaction::extracted(token) {
        Some(id) => if room.mappings.contains_key(id) {
            sealing::opened_text(gens, id, room.mappings[id])
        } else {
            None
        },
        None => None,
    }
}

/// What a token is answered: the text that it stands for, or always the same error.
pub open spec fn answer_to(room: Room, gens: Seq<GenKey>, token: Seq<char>) -> Answer {
    match restored_text(room, gens, token) {
        Some(t) => Answer { token, ok: true, text: Some(t), error: None },
        None => Answer { token, ok: false, text: None, error: Some(RESTORE_ERROR@) },
    }
}

/// What the log says of a request to restore a token.
pub open spec fn restore_detail(token: Seq<char>, purpose: Seq<char>) -> Json {
    Json::Obj(seq![("token"@, Json::Str(token)), ("purpose"@, Json::Str(purpose))])
}

/// The room after a token was asked for: success and failure are both logged.
pub open spec fn asked(
    room: Room,
    gens: Seq<GenKey>,
    purpose: Seq<char>,
    token: Seq<char>,
    ts: u64,
) -> Room {
    logged(
        room,
        ts,
        if restored_text(room, gens, token) is Some {
            "restore_ok"@
        } else {
            "restore_fail"@
        },
        restore_detail(token, purpose),
    )
}

/// The room after the first `n` tokens of a list were asked for, at the given times.
pub open spec fn asked_all(
    room: Room,
    gens: Seq<GenKey>,
    purpose: Seq<char>,
    tokens: Seq<Seq<char>>,
    times: Seq<u64>,
    n: int,
) -> Room
    decreases n,
{
    if n <= 0 {
        room
    } else {
        asked(
            asked_all(room, gens, purpose, tokens, times, n - 1),
            gens,
            purpose,
            tokens[n - 1],
            times[n - 1],
        )
    }
}

/// The system clock may show each of these times.
pub open spec fn all_now(times: Seq<u64>) -> bool {
    forall|i: int| 0 <= i < times.len() ==> clock::may_be_now(#[trigger] times[i])
}

/// Asking for tokens changes nothing but the log.
pub proof fn lemma_asking_changes_the_log(
    room: Room,
    gens: Seq<GenKey>,
    purpose: Seq<char>,
    tokens: Seq<Seq<char>>,
    times: Seq<u64>,
    n: int,
)
    ensures
        asked_all(room, gens, purpose, tokens, times, n) == (Room {
            audit: asked_all(room, gens, purpose, tokens, times, n).audit,
            ..room
        }),
    decreases n,
{
    if n > 0 {
        lemma_asking_changes_the_log(room, gens, purpose, tokens, times, n - 1);
    }
}

/// The rooms of two lists of times that agree on the first `n` are the same.
proof fn lemma_asked_before(
    room: Room,
    gens: Seq<GenKey>,
    purpose: Seq<char>,
    tokens: Seq<Seq<char>>,
    times: Seq<u64>,
    more: u64,
    n: int,
)
    requires
        n <= times.len(),
    ensures
        asked_all(room, gens, purpose, tokens, times.push(more), n) == asked_all(
            room,
            gens,
            purpose,
            tokens,
            times,
            n,
        ),
    decreases n,
{
    if n > 0 {
        lemma_asked_before(room, gens, purpose, tokens, times, more, n - 1);
        assert(times.push(more)[n - 1] == times[n - 1]);
    }
}

/// The answer to every token of a request without a purpose.
pub open spec fn no_purpose(token: Seq<char>) -> Answer {
    Answer { token, ok: false, text: None, error: Some("必须填写用途说明"@) }
}

/// The room has a record for the token, and the record holds the fragment.
pub open spec fn stands_for(store: Store, token: Seq<char>, o: Origin) -> bool {
    match redaction::extracted(token) {
        Some(id) => store.state@.mappings.contains_key(id) && store.state@.mappings[id].token_id
            == id && sealing::holds(store.keys.generations@, store.state@.mappings[id], o),
        None => false,
    }
}

impl Vault {
    /// Restores one token at a given time, and enters the request into the log.
    pub fn restore_one(&mut self, purpose: &str, token: &str, now: u64) -> (r: RestoreItem)
        ensures
            final(self).store.keys == old(self).store.keys,
            r@ == answer_to(
                old(self).store.state@,
                old(self).store.keys.generations@,
                token@,
            ),
            final(self).store.state@ == asked(
                old(self).store.state@,
                old(self).store.keys.generations@,
                purpose@,
                token@,
                now,
            ),
            forall|o: Origin| #[trigger]
                stands_for(old(self).store, token@, o) ==> r@.text == Some(o.matched),
    {
        let plaintext: Option<String> = match redaction::extract_token_id(token) {
            Some(id) => match self.store.state.mappings.get(id.as_str()) {
                Some(m) => sealing::unseal(&self.store.keys, id.as_str(), m),
                None => None,
            },
            None => None,
        };
        let mut pairs: Vec<(&str, Value)> = Vec::new();
        pairs.push(("token", Value::str(token)));
        pairs.push(("purpose", Value::str(purpose)));
        let detail: Value = Value::obj(pairs);
        assert(detail.json()->Obj_0 =~= restore_detail(token@, purpose@)->Obj_0);
        match plaintext {
            Some(text) => {
                push_audit(&mut self.store.state, now, "restore_ok", detail);
                RestoreItem { token: token.to_string(), ok: true, text: Some(text), error: None }
            },
            None => {
                push_audit(&mut self.store.state, now, "restore_fail", detail);
                RestoreItem {
                    token: token.to_string(),
                    ok: false,
                    text: None,
                    error: Some(RESTORE_ERROR.to_string()),
                }
            },
        }
    }

    /// Restores a list of tokens, each on its own: one that cannot be restored does not keep
    /// the others from it, and every request is entered into the log. Without a purpose
    /// nothing is restored and nothing is logged.
    pub fn restore(&mut self, purpose: &str, tokens: &[String]) -> (r: Vec<RestoreItem>)
        ensures
            final(self).store.keys == old(self).store.keys,
            answers_of(r@) == Seq::new(
                tokens@.len(),
                |i: int|
                    if text::is_blank(purpose@) {
                        no_purpose(tokens@[i]@)
                    } else {
                        answer_to(
                            old(self).store.state@,
                            old(self).store.keys.generations@,
                            tokens@[i]@,
                        )
                    },
            ),
            text::is_blank(purpose@) ==> final(self).store.state@ == old(self).store.state@,
            !text::is_blank(purpose@) ==> exists|times: Seq<u64>|
                times.len() == tokens@.len() && all_now(times) && final(self).store.state@
                    == #[trigger] asked_all(
                    old(self).store.state@,
                    old(self).store.keys.generations@,
                    purpose@,
                    state::texts_of(tokens@),
                    times,
                    tokens@.len() as int,
                ),
            !text::is_blank(purpose@) ==> forall|i: int, o: Origin|
                0 <= i < tokens@.len() && #[trigger] stands_for(old(self).store, tokens@[i]@, o)
                    ==> r@[i]@.text == Some(o.matched),
    {
        let ghost room = self.store.state@;
        let ghost keys = self.store.keys;
        let ghost gens = keys.generations@;
        let ghost names = state::texts_of(tokens@);
        let mut results: Vec<RestoreItem> = Vec::new();
        if text::blank(purpose) {
            let mut i: usize = 0;
            while i < tokens.len()
                invariant
                    i <= tokens@.len(),
                    self.store.state@ == room,
                    self.store.keys == keys,
                    results@.len() == i,
                    forall|k: int|
                        0 <= k < i ==> (#[trigger] results@[k])@ == no_purpose(tokens@[k]@),
                decreases tokens@.len() - i,
            {
                results.push(
                    RestoreItem {
                        token: tokens[i].clone(),
                        ok: false,
                        text: None,
                        error: Some("必须填写用途说明".to_string()),
                    },
                );
                i = i + 1;
            }
            assert(answers_of(results@) =~= Seq::new(
                tokens@.len(),
                |i: int| no_purpose(tokens@[i]@),
            ));
            return results;
        }
        let ghost mut times: Seq<u64> = seq![];
        let mut i: usize = 0;
        while i < tokens.len()
            invariant
                i <= tokens@.len(),
                keys == old(self).store.keys,
                room == old(self).store.state@,
                self.store.keys == keys,
                gens == keys.generations@,
                names == state::texts_of(tokens@),
                times.len() == i,
                all_now(times),
                self.store.state@ == asked_all(room, gens, purpose@, names, times, i as int),
                results@.len() == i,
                forall|k: int|
                    0 <= k < i ==> (#[trigger] results@[k])@ == answer_to(
                        room,
                        gens,
                        tokens@[k]@,
                    ),
                forall|k: int, o: Origin|
                    0 <= k < i && #[trigger] stands_for(old(self).store, tokens@[k]@, o)
                        ==> results@[k]@.text == Some(o.matched),
            decreases tokens@.len() - i,
        {
            let ghost before = results@;
            proof {
                lemma_asking_changes_the_log(room, gens, purpose@, names, times, i as int);
                assert(self.store.state@.mappings == room.mappings);
            }
            let now: u64 = clock::now_ms();
            let ghost store = self.store;
            let item: RestoreItem = self.restore_one(purpose, tokens[i].as_str(), now);
            results.push(item);
            proof {
                lemma_asked_before(room, gens, purpose@, names, times, now, i as int);
                assert forall|k: int| 0 <= k < times.push(now).len() implies clock::may_be_now(
                    #[trigger] times.push(now)[k],
                ) by {
                    if k < times.len() {
                        assert(times.push(now)[k] == times[k]);
                    }
                }
                times = times.push(now);
                assert(names[i as int] == tokens@[i as int]@);
                assert forall|k: int, o: Origin|
                    0 <= k < i + 1 && #[trigger] stands_for(
                        old(self).store,
                        tokens@[k]@,
                        o,
                    ) implies results@[k]@.text == Some(o.matched) by {
                    if k == i {
                        assert(stands_for(store, tokens@[k]@, o));
                    } else {
                        assert(results@[k] == before[k]);
                    }
                }
            }
            i = i + 1;
        }
        proof {
            assert(answers_of(results@) =~= Seq::new(
                tokens@.len(),
                |i: int| answer_to(room, gens, tokens@[i]@),
            ));
        }
        results
    }
}

/// What chance and the clock contribute to one token.
#[derive(Clone, Copy, Debug)]
pub struct Draw {
    pub salt: [u8; 16],
    pub nonce: [u8; 12],
    pub now: u64,
}

/// The origin of a hit.
pub open spec fn origin_of(tenant: Seq<char>, rules: Seq<MaskRule>, h: Hit) -> Origin {
    Origin {
        tenant,
        rule_id: rules[h.rule].id,
        version: rules[h.rule].version,
        matched: h.matched,
    }
}

/// What is mixed into the id of a token: nothing under a stable rule.
pub open spec fn salt_for(rule: MaskRule, d: Draw) -> Seq<u8> {
    if rule.stable {
        seq![]
    } else {
        d.salt@
    }
}

/// The id of the token for a hit.
pub open spec fn id_for(
    master: Seq<u8>,
    tenant: Seq<char>,
    rules: Seq<MaskRule>,
    h: Hit,
    d: Draw,
) -> Seq<char> {
    let rule = rules[h.rule];
    crypto::token_id_of(master, tenant, rule.id, rule.version, h.matched, salt_for(rule, d))
}

/// What a tenant's text is masked with: the keys, the rules and the draws.
pub struct Means {
    pub master: Seq<u8>,
    pub key: Seq<u8>,
    pub gen: u32,
    pub tenant: Seq<char>,
    pub rules: Seq<MaskRule>,
    pub draws: Seq<Draw>,
}

/// The ids of the tokens for a list of hits.
pub open spec fn ids_for(m: Means, list: Seq<Hit>) -> Seq<Seq<char>> {
    Seq::new(
        list.len(),
        |i: int| id_for(m.master, m.tenant, m.rules, list[i], m.draws[i]),
    )
}

/// The tokens for a list of hits.
pub open spec fn tokens_for(m: Means, list: Seq<Hit>) -> Seq<Seq<char>> {
    Seq::new(list.len(), |i: int| redaction::token_text(ids_for(m, list)[i]))
}

/// What is noted of the tokens for a list of hits.
pub open spec fn notes_for(m: Means, list: Seq<Hit>) -> Seq<TokenNote> {
    Seq::new(
        list.len(),
        |i: int|
            TokenNote {
                token: tokens_for(m, list)[i],
                token_id: ids_for(m, list)[i],
                rule_id: m.rules[list[i].rule].id,
                version: m.rules[list[i].rule].version,
                matched: list[i].matched,
            },
    )
}

/// The record for a hit.
pub open spec fn record_for(m: Means, list: Seq<Hit>, i: int) -> Record {
    sealing::sealed_record(
        m.key,
        m.gen,
        m.draws[i].nonce@,
        ids_for(m, list)[i],
        origin_of(m.tenant, m.rules, list[i]),
        m.draws[i].now,
    )
}

/// The mappings after the hits from `k` on were masked, from right to left: a token that is
/// known already keeps its record.
pub open spec fn mapped(
    mappings: Map<Seq<char>, Record>,
    m: Means,
    list: Seq<Hit>,
    k: int,
) -> Map<Seq<char>, Record>
    decreases list.len() - k,
{
    if !(0 <= k < list.len()) {
        mappings
    } else {
        let later = mapped(mappings, m, list, k + 1);
        let id = ids_for(m, list)[k];
        if later.contains_key(id) {
            later
        } else {
            later.insert(id, record_for(m, list, k))
        }
    }
}

/// The text with the hits replaced by their tokens.
pub open spec fn masked_by(m: Means, text: Seq<char>, list: Seq<Hit>) -> Seq<char> {
    masking::masked_text(text, redaction_laws::cuts(list), tokens_for(m, list))
}

/// What the log says of a token.
pub open spec fn token_detail(n: TokenNote) -> Json {
    Json::Obj(
        seq![
            ("token_id"@, Json::Str(n.token_id)),
            ("rule_id"@, Json::Str(n.rule_id)),
            ("version"@, model::number(n.version as u64)),
        ],
    )
}

/// What the log says of a masked text.
pub open spec fn redact_detail(tenant: Seq<char>, notes: Seq<TokenNote>) -> Json {
    Json::Obj(
        seq![
            ("tenant"@, Json::Str(tenant)),
            ("count"@, model::number(notes.len() as u64)),
            ("tokens"@, Json::Arr(notes.map_values(|n: TokenNote| token_detail(n)))),
        ],
    )
}

/// The room after a text was masked.
pub open spec fn redacted_room(
    room: Room,
    m: Means,
    text: Seq<char>,
    list: Seq<Hit>,
    masked_at: u64,
    logged_at: u64,
) -> Room {
    logged(
        Room {
            mappings: mapped(room.mappings, m, list, 0),
            redactions: room.redactions.push(
                Redaction {
                    tenant: m.tenant,
                    redacted_text: masked_by(m, text, list),
                    token_ids: ids_for(m, list),
                    ts: masked_at,
                },
            ),
            ..room
        },
        logged_at,
        "redact"@,
        redact_detail(m.tenant, notes_for(m, list)),
    )
}

/// What would be encrypted for each of the hits is not too long for AES-GCM.
pub open spec fn within_limit(rules: Seq<MaskRule>, tenant: Seq<char>, list: Seq<Hit>) -> bool {
    forall|i: int|
        0 <= i < list.len() ==> sealing::payload_bytes(
            origin_of(tenant, rules, #[trigger] list[i]),
        ).len() <= crypto::SEAL_LIMIT
}

/// What would be encrypted for each of the hits is short enough, and the random bytes for all of
/// them can be counted.
pub open spec fn can_be_masked(rules: Seq<MaskRule>, tenant: Seq<char>, list: Seq<Hit>) -> bool {
    within_limit(rules, tenant, list) && list.len() * DRAW_BYTES <= usize::MAX
}

/// What a room masks a text with.
pub open spec fn means_of(store: Store, key: Seq<u8>, tenant: Seq<char>, draws: Seq<Draw>) -> Means {
    Means {
        master: store.keys.master@,
        key,
        gen: store.state@.current_gen,
        tenant,
        rules: store.state@.rules,
        draws,
    }
}

/// What masking a text gave: the text with its tokens, what is noted of them, and the room
/// with the mappings of the new tokens, each of which can be opened again.
#[verifier::opaque]
pub open spec fn masked_with(
    before: Store,
    after: Store,
    m: Means,
    text: Seq<char>,
    ruling: Ruling,
    outcome: RedactOutcome,
    masked_at: u64,
    logged_at: u64,
) -> bool {
    let list = ruling.accepted;
    &&& outcome.redacted@ == masked_by(m, text, list)
    &&& notes_of(outcome.tokens@) == notes_for(m, list)
    &&& concessions_of(outcome.suppressed@) == concessions(m.rules, ruling.suppressed)
    &&& after.state@ == redacted_room(before.state@, m, text, list, masked_at, logged_at)
    &&& new_records_open(before.state@.mappings, m, list, 0)
}

fn detail_of_tokens(tenant: &str, tokens: &Vec<TokenInfo>) -> (r: Value)
    ensures
        r.json() == redact_detail(tenant@, notes_of(tokens@)),
{
    let ghost notes = notes_of(tokens@);
    let ghost wanted = notes.map_values(|n: TokenNote| token_detail(n));
    let mut list: Vec<Value> = Vec::new();
    let mut i: usize = 0;
    assert(json::items_of(list@) =~= wanted.take(0));
    while i < tokens.len()
        invariant
            i <= tokens@.len(),
            notes == notes_of(tokens@),
            wanted == notes.map_values(|n: TokenNote| token_detail(n)),
            json::items_of(list@) == wanted.take(i as int),
        decreases tokens@.len() - i,
    {
        let ghost done = list@;
        let t: &TokenInfo = &tokens[i];
        let mut pairs: Vec<(&str, Value)> = Vec::new();
        pairs.push(("token_id", Value::str(t.token_id.as_str())));
        pairs.push(("rule_id", Value::str(t.rule_id.as_str())));
        pairs.push(("version", Value::Num(text::decimal(t.version as u64))));
        let item: Value = Value::obj(pairs);
        proof {
            assert(notes[i as int] == t@);
            assert(item.json()->Obj_0 =~= token_detail(t@)->Obj_0);
        }
        list.push(item);
        i = i + 1;
        assert(json::items_of(list@) =~= json::items_of(done).push(item.json()));
        assert(json::items_of(list@) =~= wanted.take(i as int));
    }
    proof {
        assert(wanted.take(i as int) =~= wanted);
        json::lemma_arr_json(list);
    }
    let mut pairs: Vec<(&str, Value)> = Vec::new();
    pairs.push(("tenant", Value::str(tenant)));
    pairs.push(("count", Value::Num(text::decimal(tokens.len() as u64))));
    pairs.push(("tokens", Value::Arr(list)));
    let r: Value = Value::obj(pairs);
    assert(r.json()->Obj_0 =~= redact_detail(tenant@, notes)->Obj_0);
    r
}

fn ids_of_tokens(tokens: &Vec<TokenInfo>) -> (r: Vec<String>)
    ensures
        state::texts_of(r@) == notes_of(tokens@).map_values(|n: TokenNote| n.token_id),
{
    let ghost wanted = notes_of(tokens@).map_values(|n: TokenNote| n.token_id);
    let mut out: Vec<String> = Vec::new();
    let mut i: usize = 0;
    assert(state::texts_of(out@) =~= wanted.take(0));
    while i < tokens.len()
        invariant
            i <= tokens@.len(),
            wanted == notes_of(tokens@).map_values(|n: TokenNote| n.token_id),
            state::texts_of(out@) == wanted.take(i as int),
        decreases tokens@.len() - i,
    {
        let ghost done = out@;
        out.push(tokens[i].token_id.clone());
        i = i + 1;
        assert(wanted[i - 1] == tokens@[i - 1].token_id@);
        assert(state::texts_of(out@) =~= state::texts_of(done).push(tokens@[i - 1].token_id@));
        assert(state::texts_of(out@) =~= wanted.take(i as int));
    }
    assert(wanted.take(i as int) =~= wanted);
    out
}

proof fn lemma_id_is_short(id: Seq<char>)
    requires
        crypto::is_token_id(id),
    ensures
        encode_utf8(id).len() == 22,
{
    let b = Seq::new(id.len(), |i: int| id[i] as u8);
    assert forall|i: int| 0 <= i < id.len() implies (#[trigger] b[i]) < 0x80 && id[i]
        == b[i] as char by {
        assert(b64::symbol_value(id[i]) is Some);
    }
    text::lemma_encode_ascii(id, b);
}

/// A record that was made for a fragment can be opened with the key that it was made with.
pub open spec fn sealed_well(key: Seq<u8>, r: Record, o: Origin) -> bool {
    crypto::record_plaintext(key, r.token_id, r.nonce_b64, r.ciphertext_b64) == Some(
        sealing::payload_bytes(o),
    )
}

/// The token for the hit at place `i` is not known when its turn comes.
pub open spec fn is_new(
    mappings: Map<Seq<char>, Record>,
    m: Means,
    list: Seq<Hit>,
    i: int,
) -> bool {
    !mapped(mappings, m, list, i + 1).contains_key(ids_for(m, list)[i])
}

/// The records that are new from place `k` on can be opened.
pub open spec fn new_records_open(
    mappings: Map<Seq<char>, Record>,
    m: Means,
    list: Seq<Hit>,
    k: int,
) -> bool {
    forall|i: int|
        k <= i < list.len() && #[trigger] is_new(mappings, m, list, i) ==> sealed_well(
            m.key,
            record_for(m, list, i),
            origin_of(m.tenant, m.rules, list[i]),
        )
}

/// Makes the token for a fragment, and a record for it unless the token is known already.
fn map_fragment(
    mappings: &mut Mappings,
    master: &[u8; 32],
    gen_key: &[u8; 32],
    gen: u32,
    tenant: &str,
    rule: &Rule,
    matched: &str,
    d: &Draw,
) -> (r: TokenInfo)
    requires
        sealing::payload_bytes(
            Origin {
                tenant: tenant@,
                rule_id: rule.id@,
                version: rule.version,
                matched: matched@,
            },
        ).len() <= crypto::SEAL_LIMIT,
    ensures
        ({
            let id = crypto::token_id_of(
                master@,
                tenant@,
                rule.id@,
                rule.version,
                matched@,
                salt_for(rule@, *d),
            );
            let o = Origin {
                tenant: tenant@,
                rule_id: rule.id@,
                version: rule.version,
                matched: matched@,
            };
            let record = sealing::sealed_record(gen_key@, gen, d.nonce@, id, o, d.now);
            &&& r@ == (TokenNote {
                token: redaction::token_text(id),
                token_id: id,
                rule_id: rule.id@,
                version: rule.version,
                matched: matched@,
            })
            &&& final(mappings)@ == if old(mappings)@.contains_key(id) {
                old(mappings)@
            } else {
                old(mappings)@.insert(id, record)
            }
            &&& !old(mappings)@.contains_key(id) ==> sealed_well(gen_key@, record, o)
        }),
{
    let mut salt: Vec<u8> = Vec::new();
    if !rule.stable {
        crypto::push_bytes(&mut salt, &d.salt);
    }
    assert(salt@ =~= salt_for(rule@, *d));
    let id: String = crypto::token_id(
        master,
        tenant,
        rule.id.as_str(),
        rule.version,
        matched,
        salt.as_slice(),
    );
    proof {
        lemma_id_is_short(id@);
    }
    if !mappings.contains_key(id.as_str()) {
        let (nonce_b64, ciphertext_b64): (String, String) = sealing::seal(
            gen_key,
            &d.nonce,
            id.as_str(),
            tenant,
            rule.id.as_str(),
            rule.version,
            matched,
        );
        mappings.insert(
            MappingRecord {
                token_id: id.clone(),
                gen,
                nonce_b64,
                ciphertext_b64,
                created_ms: d.now,
            },
        );
    }
    TokenInfo {
        token: redaction::make_token(id.as_str()),
        token_id: id,
        rule_id: rule.id.clone(),
        version: rule.version,
        matched: matched.to_string(),
    }
}

/// Masks fragments from right to left: the text, the tokens from left to right, and the
/// mappings for the tokens that were not known.
#[verifier::rlimit(60)]
fn mask_fragments(
    mappings: &mut Mappings,
    rules: &Vec<Rule>,
    master: &[u8; 32],
    gen_key: &[u8; 32],
    gen: u32,
    tenant: &str,
    text: &str,
    accepted: &Vec<Candidate>,
    draws: &Vec<Draw>,
) -> (r: (String, Vec<TokenInfo>))
    requires
        redaction::are_hits(rules@.len() as int, text@, redaction::hits_of(accepted@)),
        masking::lie_apart(text@, redaction_laws::cuts(redaction::hits_of(accepted@))),
        draws@.len() == accepted@.len(),
        within_limit(state::rules_of(rules@), tenant@, redaction::hits_of(accepted@)),
    ensures
        ({
            let m = Means {
                master: master@,
                key: gen_key@,
                gen,
                tenant: tenant@,
                rules: state::rules_of(rules@),
                draws: draws@,
            };
            let hits = redaction::hits_of(accepted@);
            &&& r.0@ == masked_by(m, text@, hits)
            &&& notes_of(r.1@) == notes_for(m, hits)
            &&& final(mappings)@ == mapped(old(mappings)@, m, hits, 0)
            &&& new_records_open(old(mappings)@, m, hits, 0)
        }),
{
    let ghost known = mappings@;
    let ghost m = Means {
        master: master@,
        key: gen_key@,
        gen,
        tenant: tenant@,
        rules: state::rules_of(rules@),
        draws: draws@,
    };
    let ghost hits = redaction::hits_of(accepted@);
    let ghost places = redaction_laws::cuts(hits);
    let ghost names = tokens_for(m, hits);
    let ghost notes = notes_for(m, hits);
    let mut redacted: String = text.to_string();
    let mut tokens: Vec<TokenInfo> = Vec::new();
    let mut k: usize = accepted.len();
    proof {
        masking::lemma_nothing_masked(text@, places, names);
        assert(notes_of(tokens@) =~= notes.skip(k as int));
    }
    while k > 0
        invariant
            k <= accepted@.len(),
            m == (Means {
                master: master@,
                key: gen_key@,
                gen,
                tenant: tenant@,
                rules: state::rules_of(rules@),
                draws: draws@,
            }),
            hits == redaction::hits_of(accepted@),
            redaction::are_hits(rules@.len() as int, text@, hits),
            masking::lie_apart(text@, places),
            draws@.len() == hits.len(),
            within_limit(m.rules, tenant@, hits),
            places == redaction_laws::cuts(hits),
            names == tokens_for(m, hits),
            notes == notes_for(m, hits),
            mappings@ == mapped(known, m, hits, k as int),
            redacted@ == masking::half_masked(text@, places, names, k as int),
            notes_of(tokens@) == notes.skip(k as int),
            new_records_open(known, m, hits, k as int),
        decreases k,
    {
        k = k - 1;
        let c: &Candidate = &accepted[k];
        let d: Draw = draws[k];
        let ghost h = hits[k as int];
        proof {
            assert(c@ == h);
            assert(redaction::is_hit(rules@.len() as int, text@, h));
        }
        let rule: &Rule = &rules[c.rule_idx];
        assert(rule@ == m.rules[h.rule]);
        let info: TokenInfo = map_fragment(
            mappings,
            master,
            gen_key,
            gen,
            tenant,
            rule,
            c.matched.as_str(),
            &d,
        );
        proof {
            lemma_mapped_step(known, m, hits, k as int);
            assert(info@ == notes[k as int]);
            masking::lemma_mask_step(text@, places, names, k as int);
            assert(places[k as int] == (h.start, h.end));
        }
        redacted =
        text::replace_range(redacted.as_str(), c.start, c.end, info.token.as_str());
        let ghost done = tokens@;
        tokens.insert(0, info);
        proof {
            assert(notes_of(tokens@) =~= seq![info@] + notes_of(done));
            assert(notes_of(tokens@) =~= notes.skip(k as int));
        }
    }
    assert(notes.skip(0) =~= notes);
    (redacted, tokens)
}

/// One more step of the mapping, from right to left.
proof fn lemma_mapped_step(mappings: Map<Seq<char>, Record>, m: Means, list: Seq<Hit>, k: int)
    requires
        0 <= k < list.len(),
    ensures
        is_new(mappings, m, list, k) ==> mapped(mappings, m, list, k) == mapped(
            mappings,
            m,
            list,
            k + 1,
        ).insert(ids_for(m, list)[k], record_for(m, list, k)),
        !is_new(mappings, m, list, k) ==> mapped(mappings, m, list, k) == mapped(
            mappings,
            m,
            list,
            k + 1,
        ),
{
}

impl Vault {
    /// Masks the accepted fragments of a text with the given draws, one for each fragment,
    /// and enters it into the log at the given times.
    pub fn mask(
        &mut self,
        tenant: &str,
        text: &str,
        adj: &Adjudication,
        gen_key: &[u8; 32],
        draws: &Vec<Draw>,
        masked_at: u64,
        logged_at: u64,
    ) -> (r: RedactOutcome)
        requires
            can_mask(old(self).store.state@.rules.len() as int, text@, adj@),
            draws@.len() == adj@.accepted.len(),
            within_limit(old(self).store.state@.rules, tenant@, adj@.accepted),
        ensures
            final(self).store.keys == old(self).store.keys,
            masked_with(
                old(self).store,
                final(self).store,
                means_of(old(self).store, gen_key@, tenant@, draws@),
                text@,
                adj@,
                r,
                masked_at,
                logged_at,
            ),
    {
        let ghost before = self.store;
        let ghost m = means_of(before, gen_key@, tenant@, draws@);
        let ghost hits = adj@.accepted;
        proof {
            reveal(can_mask);
            assert forall|k: int| 0 <= k < adj.suppressed@.len() implies (
            #[trigger] adj.suppressed@[k]).cand.rule_idx < self.store.state.rules@.len()
                && adj.suppressed@[k].by.rule_idx < self.store.state.rules@.len() by {
                assert(adj@.suppressed[k].0.rule < m.rules.len());
            }
        }
        let suppressed: Vec<SuppressedInfo> = self.suppressed_infos(adj);
        let master: [u8; 32] = self.store.keys.master();
        let gen: u32 = self.store.state.current_gen;
        let (redacted, tokens): (String, Vec<TokenInfo>) = mask_fragments(
            &mut self.store.state.mappings,
            &self.store.state.rules,
            &master,
            gen_key,
            gen,
            tenant,
            text,
            &adj.accepted,
            draws,
        );
        let token_ids: Vec<String> = ids_of_tokens(&tokens);
        assert(state::texts_of(token_ids@) =~= ids_for(m, hits));
        let entry: RedactionEntry = RedactionEntry {
            tenant: tenant.to_string(),
            redacted_text: redacted.clone(),
            token_ids,
            ts: masked_at,
        };
        let ghost earlier = self.store.state.redactions@;
        self.store.state.redactions.push(entry);
        assert(state::redactions_of(self.store.state.redactions@) =~= state::redactions_of(
            earlier,
        ).push(entry@));
        let detail: Value = detail_of_tokens(tenant, &tokens);
        push_audit(&mut self.store.state, logged_at, "redact", detail);
        proof {
            reveal(masked_with);
        }
        RedactOutcome { redacted, tokens, suppressed }
    }
}

/// How many random bytes go into one token: sixteen for its salt and twelve for its nonce.
pub const DRAW_BYTES: usize = 28;

/// The random bytes of the draws, one behind the other: salt and nonce of each.
pub open spec fn random_part(draws: Seq<Draw>) -> Seq<u8>
    decreases draws.len(),
{
    if draws.len() == 0 {
        seq![]
    } else {
        random_part(draws.drop_last()) + draws.last().salt@ + draws.last().nonce@
    }
}

/// All salts and nonces may come from the operating system in one draw, each from bytes of its
/// own, and the times from its clock.
pub open spec fn are_fresh(draws: Seq<Draw>) -> bool {
    &&& crypto::may_be_drawn(random_part(draws))
    &&& forall|i: int| 0 <= i < draws.len() ==> clock::may_be_now((#[trigger] draws[i]).now)
}

/// The salt and the nonce of a token from its random bytes.
fn draw_from(bytes: &[u8], now: u64) -> (r: Draw)
    requires
        bytes@.len() == DRAW_BYTES,
    ensures
        r.salt@ + r.nonce@ == bytes@,
        r.now == now,
{
    let mut salt: [u8; 16] = [0u8;16];
    let mut nonce: [u8; 12] = [0u8;12];
    let mut i: usize = 0;
    while i < DRAW_BYTES
        invariant
            i <= DRAW_BYTES,
            bytes@.len() == DRAW_BYTES,
            forall|k: int| 0 <= k < i && k < 16 ==> salt@[k] == bytes@[k],
            forall|k: int| 16 <= k < i ==> nonce@[k - 16] == #[trigger] bytes@[k],
        decreases DRAW_BYTES - i,
    {
        if i < 16 {
            salt[i] = bytes[i];
        } else {
            nonce[i - 16] = bytes[i];
        }
        i = i + 1;
    }
    assert(salt@ + nonce@ =~= bytes@);
    Draw { salt, nonce, now }
}

fn fresh_draws(count: usize) -> (r: Vec<Draw>)
    requires
        count * DRAW_BYTES <= usize::MAX,
    ensures
        r@.len() == count,
        are_fresh(r@),
{
    let bytes: Vec<u8> = crypto::drawn_bytes(count * DRAW_BYTES);
    let mut out: Vec<Draw> = Vec::new();
    let mut i: usize = 0;
    assert(random_part(out@) =~= bytes@.take(0));
    while i < count
        invariant
            i <= count,
            out@.len() == i,
            bytes@.len() == count * DRAW_BYTES <= usize::MAX,
            random_part(out@) == bytes@.take(i * DRAW_BYTES),
            forall|k: int| 0 <= k < i ==> clock::may_be_now((#[trigger] out@[k]).now),
        decreases count - i,
    {
        let start: usize = i * DRAW_BYTES;
        let part: &[u8] = vstd::slice::slice_subrange(
            bytes.as_slice(),
            start,
            start + DRAW_BYTES,
        );
        let d: Draw = draw_from(part, clock::now_ms());
        let ghost done = out@;
        out.push(d);
        proof {
            assert(out@.drop_last() =~= done);
            assert(random_part(done) + d.salt@ + d.nonce@ =~= random_part(done) + (d.salt@
                + d.nonce@));
            assert(bytes@.take(start + DRAW_BYTES) =~= bytes@.take(start as int) + part@);
        }
        i = i + 1;
    }
    assert(bytes@.take(i * DRAW_BYTES) =~= bytes@);
    out
}

/// Why a text is not masked.
pub open spec fn redact_refusal(store: Store, tenant: Seq<char>) -> Option<Seq<char>> {
    if tenant.len() == 0 {
        Some("租户不能为空"@)
    } else if crypto::generation_key(
        store.keys.generations@,
        store.state@.current_gen,
    ) is None {
        Some("当前密钥代次不存在"@)
    } else {
        None
    }
}

/// What masking a text gave, with the draws of the room's own choice.
pub open spec fn was_masked(
    before: Store,
    after: Store,
    tenant: Seq<char>,
    text: Seq<char>,
    outcome: RedactOutcome,
    draws: Seq<Draw>,
    masked_at: u64,
    logged_at: u64,
) -> bool {
    let key = crypto::generation_key(before.keys.generations@, before.state@.current_gen)->0;
    let ruling = verdict(before.state@.rules, text);
    &&& draws.len() == ruling.accepted.len()
    &&& are_fresh(draws)
    &&& clock::may_be_now(masked_at)
    &&& clock::may_be_now(logged_at)
    &&& masked_with(
        before,
        after,
        means_of(before, key, tenant, draws),
        text,
        ruling,
        outcome,
        masked_at,
        logged_at,
    )
}

impl Vault {
    /// Whether a text can be masked: everything that would be encrypted for it is short enough,
    /// and the random bytes for it can be counted.
    pub fn fits(&self, tenant: &str, text: &str) -> (r: bool)
        ensures
            r == can_be_masked(
                self.store.state@.rules,
                tenant@,
                verdict(self.store.state@.rules, text@).accepted,
            ),
    {
        let adj: Adjudication = self.adjudicate(text);
        proof {
            reveal(can_mask);
        }
        let rules: &Vec<Rule> = &self.store.state.rules;
        let ghost models = self.store.state@.rules;
        let ghost hits = adj@.accepted;
        if adj.accepted.len() > usize::MAX / DRAW_BYTES {
            return false;
        }
        let mut i: usize = 0;
        while i < adj.accepted.len()
            invariant
                i <= adj.accepted@.len() <= usize::MAX / DRAW_BYTES,
                *rules == self.store.state.rules,
                models == self.store.state@.rules,
                hits == adj@.accepted,
                hits == verdict(models, text@).accepted,
                redaction::are_hits(rules@.len() as int, text@, hits),
                forall|k: int|
                    0 <= k < i ==> sealing::payload_bytes(
                        origin_of(tenant@, models, #[trigger] hits[k]),
                    ).len() <= crypto::SEAL_LIMIT,
            decreases adj.accepted@.len() - i,
        {
            let c: &Candidate = &adj.accepted[i];
            assert(c@ == hits[i as int]);
            assert(redaction::is_hit(rules@.len() as int, text@, hits[i as int]));
            let rule: &Rule = &rules[c.rule_idx];
            assert(rule@ == models[hits[i as int].rule]);
            let payload: String = sealing::payload_text(
                tenant,
                rule.id.as_str(),
                rule.version,
                c.matched.as_str(),
            );
            if payload.as_str().as_bytes().len() as u64 > crypto::SEAL_LIMIT {
                return false;
            }
            i = i + 1;
        }
        true
    }

    /// Masks a text for a tenant: every accepted fragment gives way to a token, the mappings
    /// of new tokens are stored encrypted, and the log notes it.
    pub fn redact(&mut self, tenant: &str, text: &str) -> (r: Result<RedactOutcome, String>)
        requires
            redact_refusal(old(self).store, tenant@) is None ==> can_be_masked(
                old(self).store.state@.rules,
                tenant@,
                verdict(old(self).store.state@.rules, text@).accepted,
            ),
        ensures
            final(self).store.keys == old(self).store.keys,
            match redact_refusal(old(self).store, tenant@) {
                Some(message) => r is Err && r->Err_0@ == message && final(self).store
                    == old(self).store,
                None => r is Ok && exists|draws: Seq<Draw>, masked_at: u64, logged_at: u64|
                    #[trigger] was_masked(
                        old(self).store,
                        final(self).store,
                        tenant@,
                        text@,
                        r->Ok_0,
                        draws,
                        masked_at,
                        logged_at,
                    ),
            },
    {
        if is_empty_text(tenant) {
            return Err("租户不能为空".to_string());
        }
        let adj: Adjudication = self.adjudicate(text);
        let gen_key: [u8; 32] = match self.store.keys.key_for(self.store.state.current_gen) {
            Some(k) => k,
            None => {
                return Err("当前密钥代次不存在".to_string());
            },
        };
        let draws: Vec<Draw> = fresh_draws(adj.accepted.len());
        let masked_at: u64 = clock::now_ms();
        let logged_at: u64 = clock::now_ms();
        let outcome: RedactOutcome = self.mask(
            tenant,
            text,
            &adj,
            &gen_key,
            &draws,
            masked_at,
            logged_at,
        );
        let r: Result<RedactOutcome, String> = Ok(outcome);
        assert(was_masked(
            old(self).store,
            self.store,
            tenant@,
            text@,
            r->Ok_0,
            draws@,
            masked_at,
            logged_at,
        ));
        r
    }

    /// Masks a text for a tenant as `redact` does. Where that cannot be done, because something
    /// would have to be encrypted that is too long for it, nothing changes and there is no
    /// answer.
    pub fn redact_if_it_fits(&mut self, tenant: &str, text: &str) -> (r: Option<
        Result<RedactOutcome, String>,
    >)
        ensures
            final(self).store.keys == old(self).store.keys,
            r is None <==> redact_refusal(old(self).store, tenant@) is None && !can_be_masked(
                old(self).store.state@.rules,
                tenant@,
                verdict(old(self).store.state@.rules, text@).accepted,
            ),
            r is None ==> final(self).store == old(self).store,
            r is Some ==> match redact_refusal(old(self).store, tenant@) {
                Some(message) => r->0 is Err && r->0->Err_0@ == message && final(self).store
                    == old(self).store,
                None => r->0 is Ok && exists|draws: Seq<Draw>, masked_at: u64, logged_at: u64|
                    #[trigger] was_masked(
                        old(self).store,
                        final(self).store,
                        tenant@,
                        text@,
                        r->0->Ok_0,
                        draws,
                        masked_at,
                        logged_at,
                    ),
            },
    {
        let key: Option<[u8; 32]> = self.store.keys.key_for(self.store.state.current_gen);
        if !is_empty_text(tenant) && key.is_some() && !self.fits(tenant, text) {
            return None;
        }
        let r: Result<RedactOutcome, String> = self.redact(tenant, text);
        Some(r)
    }
}

}
