//! The records of a room that keeps its own rules, documents and mappings for each tenant.

use crate::canonical;
use crate::crypto;
use crate::json::{Json, Value};
use crate::json_text;
use crate::text;
use vstd::prelude::*;
use vstd::string::*;
use vstd::utf8::*;

verus! {

/// Why an operation on keys or stored data was refused.
#[derive(Debug)]
pub enum EngineError {
    /// Stored data are not as they should be.
    Corrupt(String),
    /// The operation does not fit the state.
    Conflict(String),
    /// The token is invalid, or belongs to someone else: which of the two is not told.
    InvalidToken,
    /// Reading or writing failed.
    Io(String),
}

/// The mathematical form of an `EngineError`.
pub enum Refusal {
    Corrupt(Seq<char>),
    Conflict(Seq<char>),
    InvalidToken,
    Io(Seq<char>),
}

impl View for EngineError {
    type V = Refusal;

    open spec fn view(&self) -> Refusal {
        match *self {
            EngineError::Corrupt(m) => Refusal::Corrupt(m@),
            EngineError::Conflict(m) => Refusal::Conflict(m@),
            EngineError::InvalidToken => Refusal::InvalidToken,
            EngineError::Io(m) => Refusal::Io(m@),
        }
    }
}

/// The result of an operation on keys or stored data.
pub type EngineResult<T> = core::result::Result<T, EngineError>;

/// A masking rule. Registering a rule again under its name makes a new version and keeps the
/// old one, so that what tokens were derived from stays known.
#[derive(Debug, Clone)]
pub struct Rule {
    pub id: u64,
    pub tenant: String,
    pub name: String,
    pub version: u64,
    pub pattern: String,
    pub priority: i64,
    /// Whether the same tenant, rule version and text give the same token.
    pub stable: bool,
    pub enabled: bool,
    pub created_seq: u64,
}

/// A masked document. Only the masked text is kept.
#[derive(Debug, Clone)]
pub struct Document {
    pub id: u64,
    pub tenant: String,
    pub redacted_text: String,
    pub token_count: usize,
    pub created_seq: u64,
}

/// What a token stands for, as it is held in memory.
#[derive(Debug, Clone)]
pub struct Mapping {
    pub token: String,
    pub tenant: String,
    pub rule_name: String,
    pub rule_version: u64,
    pub original: String,
    pub created_seq: u64,
}

/// What a token stands for, as it is stored: encrypted under the key of a generation.
#[derive(Debug, Clone)]
pub struct MappingRecord {
    pub gen: u64,
    pub nonce: String,
    pub ct: String,
}

/// An entry of the audit chain; its hash covers all its other fields.
#[derive(Debug, Clone)]
pub struct AuditEntry {
    pub seq: u64,
    pub ts: u64,
    pub kind: String,
    pub tenant: String,
    pub gen: u64,
    pub payload: Value,
    pub prev_hash: String,
    pub hash: String,
}

/// A whole number as a JSON value.
pub open spec fn number(n: u64) -> Json {
    Json::Num(text::dec(n as nat))
}

/// The object that the hash of an entry is taken over.
pub open spec fn hashed_object(
    seq: u64,
    ts: u64,
    kind: Seq<char>,
    tenant: Seq<char>,
    gen: u64,
    payload: Json,
    prev_hash: Seq<char>,
) -> Json {
    Json::Obj(
        seq![
            ("seq"@, number(seq)),
            ("ts"@, number(ts)),
            ("kind"@, Json::Str(kind)),
            ("tenant"@, Json::Str(tenant)),
            ("gen"@, number(gen)),
            ("payload"@, payload),
            ("prev_hash"@, Json::Str(prev_hash)),
        ],
    )
}

/// The digest of the canonical text of a value, in hexadecimal.
pub open spec fn digest_text(v: Json) -> Seq<char> {
    crypto::hex_text(crypto::sha256_of(encode_utf8(canonical::canonical(v))))
}

impl AuditEntry {
    /// The hash of an entry with the given fields.
    pub fn compute_hash(
        seq: u64,
        ts: u64,
        kind: &str,
        tenant: &str,
        gen: u64,
        payload: &Value,
        prev_hash: &str,
    ) -> (r: String)
        ensures
            r@ == digest_text(
                hashed_object(seq, ts, kind@, tenant@, gen, payload.json(), prev_hash@),
            ),
    {
        let mut pairs: Vec<(&str, Value)> = Vec::new();
        pairs.push(("seq", Value::Num(text::decimal(seq))));
        pairs.push(("ts", Value::Num(text::decimal(ts))));
        pairs.push(("kind", Value::str(kind)));
        pairs.push(("tenant", Value::str(tenant)));
        pairs.push(("gen", Value::Num(text::decimal(gen))));
        pairs.push(("payload", payload.clone()));
        pairs.push(("prev_hash", Value::str(prev_hash)));
        let object: Value = Value::obj(pairs);
        proof {
            assert(object.json()->Obj_0 =~= hashed_object(
                seq,
                ts,
                kind@,
                tenant@,
                gen,
                payload.json(),
                prev_hash@,
            )->Obj_0);
        }
        let preimage: String = canonical::to_text(&object);
        crypto::hex_encode(&crypto::sha256(preimage.as_str().as_bytes()))
    }
}

/// The hash of an entry covers all its other fields: entries with the same canonical text
/// agree in each of them, in the payload up to the order of keys.
pub proof fn lemma_hashed_text_fixes_fields(
    seq: u64,
    ts: u64,
    kind: Seq<char>,
    tenant: Seq<char>,
    gen: u64,
    payload: Json,
    prev_hash: Seq<char>,
    seq2: u64,
    ts2: u64,
    kind2: Seq<char>,
    tenant2: Seq<char>,
    gen2: u64,
    payload2: Json,
    prev_hash2: Seq<char>,
)
    requires
        json_text::is_proper(payload),
        json_text::is_proper(payload2),
        canonical::canonical(hashed_object(seq, ts, kind, tenant, gen, payload, prev_hash))
            == canonical::canonical(
            hashed_object(seq2, ts2, kind2, tenant2, gen2, payload2, prev_hash2),
        ),
    ensures
        seq == seq2,
        ts == ts2,
        kind == kind2,
        tenant == tenant2,
        gen == gen2,
        canonical::normal(payload) == canonical::normal(payload2),
        prev_hash == prev_hash2,
{
    let a = hashed_object(seq, ts, kind, tenant, gen, payload, prev_hash);
    let b = hashed_object(seq2, ts2, kind2, tenant2, gen2, payload2, prev_hash2);
    lemma_hashed_object_is_proper(seq, ts, kind, tenant, gen, payload, prev_hash);
    lemma_hashed_object_is_proper(seq2, ts2, kind2, tenant2, gen2, payload2, prev_hash2);
    let p = a->Obj_0;
    let q = b->Obj_0;
    canonical::lemma_same_text_same_members(p, q);
    assert(canonical::normal(p[0].1) == canonical::normal(q[0].1));
    assert(canonical::normal(p[1].1) == canonical::normal(q[1].1));
    assert(canonical::normal(p[2].1) == canonical::normal(q[2].1));
    assert(canonical::normal(p[3].1) == canonical::normal(q[3].1));
    assert(canonical::normal(p[4].1) == canonical::normal(q[4].1));
    assert(canonical::normal(p[5].1) == canonical::normal(q[5].1));
    assert(canonical::normal(p[6].1) == canonical::normal(q[6].1));
    text::lemma_dec_reads_back(seq as nat);
    text::lemma_dec_reads_back(seq2 as nat);
    text::lemma_dec_reads_back(ts as nat);
    text::lemma_dec_reads_back(ts2 as nat);
    text::lemma_dec_reads_back(gen as nat);
    text::lemma_dec_reads_back(gen2 as nat);
}

proof fn lemma_hashed_object_is_proper(
    seq: u64,
    ts: u64,
    kind: Seq<char>,
    tenant: Seq<char>,
    gen: u64,
    payload: Json,
    prev_hash: Seq<char>,
)
    requires
        json_text::is_proper(payload),
    ensures
        json_text::is_proper(hashed_object(seq, ts, kind, tenant, gen, payload, prev_hash)),
{
    reveal_strlit("seq");
    reveal_strlit("ts");
    reveal_strlit("kind");
    reveal_strlit("tenant");
    reveal_strlit("gen");
    reveal_strlit("payload");
    reveal_strlit("prev_hash");
    json_text::lemma_decimal_is_notation(seq as nat);
    json_text::lemma_decimal_is_notation(ts as nat);
    json_text::lemma_decimal_is_notation(gen as nat);
    let pairs = hashed_object(seq, ts, kind, tenant, gen, payload, prev_hash)->Obj_0;
    assert("seq"@.len() == 3 && "ts"@.len() == 2 && "kind"@.len() == 4 && "tenant"@.len() == 6);
    assert("gen"@.len() == 3 && "payload"@.len() == 7 && "prev_hash"@.len() == 9);
    assert("seq"@[0] == 's' && "gen"@[0] == 'g');
    assert forall|i: int| 0 <= i < pairs.len() implies json_text::is_proper(
        (#[trigger] pairs[i]).1,
    ) by {}
}

/// The state of a room.
#[derive(Debug, Clone)]
pub struct State {
    pub active_gen: u64,
    pub next_rule_id: u64,
    pub next_doc_id: u64,
    pub seq: u64,
    pub rules: Vec<Rule>,
    pub documents: Vec<Document>,
}

impl Default for State {
    /// The state of a new room.
    fn default() -> (r: Self)
        ensures
            r.active_gen == 1,
            r.next_rule_id == 1,
            r.next_doc_id == 1,
            r.seq == 0,
            r.rules@.len() == 0,
            r.documents@.len() == 0,
    {
        State {
            active_gen: 1,
            next_rule_id: 1,
            next_doc_id: 1,
            seq: 0,
            rules: Vec::new(),
            documents: Vec::new(),
        }
    }
}

}
