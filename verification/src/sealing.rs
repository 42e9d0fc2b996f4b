//! What is stored under a token: the fragment with its origin, encrypted and bound to the id
//! of the token.

use crate::b64;
use crate::canonical;
use crate::crypto;
use crate::crypto::{GenKey, KeyFile};
use crate::json::{Json, Value};
use crate::model;
use crate::state::{MappingRecord, Record};
use crate::text;
use vstd::prelude::*;
use vstd::string::*;
use vstd::utf8::*;

verus! {

broadcast use vstd::seq::group_seq_axioms;

/// Where a fragment comes from: its tenant, the rule that it falls under, and its text.
pub struct Origin {
    pub tenant: Seq<char>,
    pub rule_id: Seq<char>,
    pub version: u32,
    pub matched: Seq<char>,
}

/// The members of the object that is stored for a fragment.
pub open spec fn payload_members(o: Origin) -> Seq<(Seq<char>, Json)> {
    seq![
        ("plaintext"@, Json::Str(o.matched)),
        ("rule_id"@, Json::Str(o.rule_id)),
        ("tenant"@, Json::Str(o.tenant)),
        ("version"@, model::number(o.version as u64)),
    ]
}

/// The bytes that are encrypted for a fragment.
pub open spec fn payload_bytes(o: Origin) -> Seq<u8> {
    encode_utf8(canonical::canonical(Json::Obj(payload_members(o))))
}

/// The text that `serde_json` finds under a key of the object that some bytes are.
pub uninterp spec fn json_field(bytes: Seq<u8>, key: Seq<char>) -> Option<Seq<char>>;

/// The text under a key of the object that some bytes are, by `serde_json::from_slice`, `get`
/// and `as_str`; there is none where the bytes are no JSON, no object, or hold no text under
/// the key. Of the bytes that are encrypted for a fragment it reads the text of the fragment
/// under its key. Nothing is said of what it reads from other bytes.
#[verifier::external_body]
fn read_field(bytes: &[u8], key: &str) -> (r: Option<String>)
    ensures
        match json_field(bytes@, key@) {
            Some(t) => r is Some && r->0@ == t,
            None => r is None,
        },
        forall|o: Origin|
            bytes@ == #[trigger] payload_bytes(o) && key@ == "plaintext"@ ==> r is Some && r->0@
                == o.matched,
{
    let value: serde_json::Value = serde_json::from_slice(bytes).ok()?;
    Some(value.get(key)?.as_str()?.to_string())
}

/// The record that is stored for a fragment.
pub open spec fn sealed_record(
    key: Seq<u8>,
    gen: u32,
    nonce: Seq<u8>,
    token_id: Seq<char>,
    o: Origin,
    created_ms: u64,
) -> Record {
    Record {
        token_id,
        gen,
        nonce_b64: b64::encoded(nonce),
        ciphertext_b64: b64::encoded(
            crypto::sealed(key, nonce, encode_utf8(token_id), payload_bytes(o)),
        ),
        created_ms,
    }
}

/// The record can be opened with the keys of the room, and holds the fragment.
pub open spec fn holds(gens: Seq<GenKey>, m: Record, o: Origin) -> bool {
    match crypto::generation_key(gens, m.gen) {
        Some(key) => crypto::record_plaintext(key, m.token_id, m.nonce_b64, m.ciphertext_b64)
            == Some(payload_bytes(o)),
        None => false,
    }
}

/// The text that a record holds, as far as the keys of the room open it.
pub open spec fn opened_text(gens: Seq<GenKey>, token_id: Seq<char>, m: Record) -> Option<
    Seq<char>,
> {
    match crypto::generation_key(gens, m.gen) {
        Some(key) => match crypto::record_plaintext(
            key,
            token_id,
            m.nonce_b64,
            m.ciphertext_b64,
        ) {
            Some(bytes) => json_field(bytes, "plaintext"@),
            None => None,
        },
        None => None,
    }
}

/// The text that is encrypted for a fragment.
pub fn payload_text(tenant: &str, rule_id: &str, version: u32, matched: &str) -> (r: String)
    ensures
        encode_utf8(r@) == payload_bytes(
            Origin { tenant: tenant@, rule_id: rule_id@, version, matched: matched@ },
        ),
{
    let ghost o = Origin { tenant: tenant@, rule_id: rule_id@, version, matched: matched@ };
    let mut pairs: Vec<(&str, Value)> = Vec::new();
    pairs.push(("plaintext", Value::str(matched)));
    pairs.push(("rule_id", Value::str(rule_id)));
    pairs.push(("tenant", Value::str(tenant)));
    pairs.push(("version", Value::Num(text::decimal(version as u64))));
    let object: Value = Value::obj(pairs);
    assert(object.json()->Obj_0 =~= payload_members(o));
    canonical::to_text(&object)
}

/// Encrypts a fragment with its origin; nonce and ciphertext come as text.
pub fn seal(
    key: &[u8; 32],
    nonce: &[u8; 12],
    token_id: &str,
    tenant: &str,
    rule_id: &str,
    version: u32,
    matched: &str,
) -> (r: (String, String))
    requires
        payload_bytes(
            Origin { tenant: tenant@, rule_id: rule_id@, version, matched: matched@ },
        ).len() <= crypto::SEAL_LIMIT,
        encode_utf8(token_id@).len() <= crypto::SEAL_LIMIT,
    ensures
        ({
            let o = Origin { tenant: tenant@, rule_id: rule_id@, version, matched: matched@ };
            &&& r.0@ == b64::encoded(nonce@)
            &&& r.1@ == b64::encoded(
                crypto::sealed(key@, nonce@, encode_utf8(token_id@), payload_bytes(o)),
            )
            &&& crypto::record_plaintext(key@, token_id@, r.0@, r.1@) == Some(payload_bytes(o))
        }),
{
    let payload: String = payload_text(tenant, rule_id, version, matched);
    crypto::encrypt_with(key, nonce, token_id, payload.as_str().as_bytes())
}

/// Reads the text that a record holds. A record that holds a fragment gives its text.
pub fn unseal(keys: &KeyFile, token_id: &str, m: &MappingRecord) -> (r: Option<String>)
    ensures
        match opened_text(keys.generations@, token_id@, m@) {
            Some(t) => r is Some && r->0@ == t,
            None => r is None,
        },
        forall|o: Origin| #[trigger]
            holds(keys.generations@, m@, o) && m@.token_id == token_id@ ==> r is Some && r->0@
                == o.matched,
{
    let key: [u8; 32] = match keys.key_for(m.gen) {
        Some(k) => k,
        None => {
            return None;
        },
    };
    let bytes: Vec<u8> = match crypto::decrypt(
        &key,
        token_id,
        m.nonce_b64.as_str(),
        m.ciphertext_b64.as_str(),
    ) {
        Some(b) => b,
        None => {
            return None;
        },
    };
    read_field(bytes.as_slice(), "plaintext")
}

}
