//! Laws of the key ring: what each phase of a rotation changes, and how keys are told apart.

use crate::crypto;
use crate::crypto_laws;
use crate::keys;
use crate::keys::{Gen, GenerationRecord, Ring, RotationPhase};
use crate::text;
use vstd::prelude::*;
use vstd::utf8::*;

verus! {

broadcast use vstd::seq::group_seq_axioms;

/// The first phase of a rotation adds a generation under the next number, with the seed and the
/// time, and marks it as written; the current generation and all others stay as they are, with the
/// keys of the ring.
pub proof fn lemma_first_phase(ring: Ring, seed: Seq<u8>, now: i64)
    requires
        ring.current < u64::MAX,
    ensures
        ({
            let id = (ring.current + 1) as u64;
            let after = keys::with_new(ring, seed, now);
            &&& after.current == ring.current
            &&& after.master_hex == ring.master_hex
            &&& after.audit_key_hex == ring.audit_key_hex
            &&& after.gens.contains_key(id)
            &&& after.gens[id].id == id
            &&& after.gens[id].seed == seed
            &&& after.gens[id].created_unix == now
            &&& after.gens[id].pending == Some(RotationPhase::KeyWritten)
            &&& after.seed_texts[id] == crypto::hex_text(seed)
            &&& forall|k: u64|
                k != id ==> (#[trigger] after.gens.contains_key(k) <==> ring.gens.contains_key(k))
                    && after.gens[k] == ring.gens[k]
        }),
{
}

/// The second phase makes a generation the current one and marks it as written; its seed and its
/// time, and all other generations, stay as they are.
pub proof fn lemma_second_phase(ring: Ring, id: u64)
    requires
        ring.gens.contains_key(id),
    ensures
        ({
            let after = keys::promoted(ring, id);
            &&& after.current == id
            &&& after.master_hex == ring.master_hex
            &&& after.audit_key_hex == ring.audit_key_hex
            &&& after.gens.contains_key(id)
            &&& after.gens[id].id == ring.gens[id].id
            &&& after.gens[id].seed == ring.gens[id].seed
            &&& after.gens[id].created_unix == ring.gens[id].created_unix
            &&& after.gens[id].pending == Some(RotationPhase::KeyWritten)
            &&& after.seed_texts == ring.seed_texts
            &&& forall|k: u64|
                k != id ==> (#[trigger] after.gens.contains_key(k) <==> ring.gens.contains_key(k))
                    && after.gens[k] == ring.gens[k]
        }),
{
}

/// The last phase takes the mark from a generation and changes nothing else; for a generation that
/// is not there it changes nothing at all.
pub proof fn lemma_last_phase(ring: Ring, id: u64)
    ensures
        ({
            let after = keys::committed(ring, id);
            &&& after.current == ring.current
            &&& after.master_hex == ring.master_hex
            &&& after.audit_key_hex == ring.audit_key_hex
            &&& after.seed_texts == ring.seed_texts
            &&& ring.gens.contains_key(id) ==> {
                &&& after.gens.contains_key(id)
                &&& after.gens[id].id == ring.gens[id].id
                &&& after.gens[id].seed == ring.gens[id].seed
                &&& after.gens[id].created_unix == ring.gens[id].created_unix
                &&& after.gens[id].pending is None
            }
            &&& forall|k: u64|
                k != id || !ring.gens.contains_key(id) ==> (#[trigger] after.gens.contains_key(k)
                    <==> ring.gens.contains_key(k)) && after.gens[k] == ring.gens[k]
        }),
{
}

/// Taking back a generation leaves all others, and which one is current, as they are.
pub proof fn lemma_discarding(ring: Ring, id: u64)
    ensures
        ({
            let after = keys::without(ring, id);
            &&& !after.gens.contains_key(id)
            &&& !after.seed_texts.contains_key(id)
            &&& after.current == ring.current
            &&& after.master_hex == ring.master_hex
            &&& after.audit_key_hex == ring.audit_key_hex
            &&& forall|k: u64|
                k != id ==> (#[trigger] after.gens.contains_key(k) <==> ring.gens.contains_key(k))
                    && after.gens[k] == ring.gens[k]
        }),
{
}

/// A room starts with one generation, under the number 1 and in no phase of a rotation, and its
/// audit key is derived from the master key.
pub proof fn lemma_first_ring(master: Seq<u8>, seed: Seq<u8>, now: i64)
    ensures
        ({
            let ring = keys::first_ring(master, seed, now);
            let prk = crypto::hmac_of(encode_utf8("maskroom-audit-salt-v1"@), master);
            &&& ring.current == 1
            &&& ring.gens.contains_key(1)
            &&& ring.gens[1].id == 1
            &&& ring.gens[1].seed == seed
            &&& ring.gens[1].created_unix == now
            &&& ring.gens[1].pending is None
            &&& forall|k: u64| #[trigger] ring.gens.contains_key(k) ==> k == 1
            &&& ring.seed_texts[1] == crypto::hex_text(seed)
            &&& ring.master_hex == crypto::hex_text(master)
            &&& ring.audit_key_hex == crypto::hex_text(
                crypto::hmac_of(prk, encode_utf8("maskroom-audit-key-v1"@) + seq![1u8]),
            )
        }),
{
    let salt = encode_utf8("maskroom-audit-salt-v1"@);
    let info = encode_utf8("maskroom-audit-key-v1"@);
    crypto_laws::lemma_derived_bytes(salt, master, info, 32);
    let tag = crypto::hmac_of(crypto::hmac_of(salt, master), info + seq![1u8]);
    assert(tag.take(32) =~= tag);
}

/// A stored generation is in order exactly if it carries the number that it is stored under, and
/// its seed is a hexadecimal text of 32 bytes.
pub proof fn lemma_which_records_fit(id: u64, rec: GenerationRecord)
    ensures
        keys::record_fault(id, rec) is None <==> rec.id == id && (crypto::unhexed(rec.seed_hex@)
            matches Ok(seed) && seed.len() == 32),
        crypto::unhexed(rec.seed_hex@) is Err ==> keys::record_fault(id, rec) == Some(
            "代次种子编码损坏"@,
        ),
        crypto::unhexed(rec.seed_hex@) matches Ok(seed) && (rec.id != id || seed.len() != 32)
            ==> keys::record_fault(id, rec) == Some("代次记录不一致"@),
        keys::record_gen(rec).id == rec.id,
        crypto::unhexed(rec.seed_hex@) matches Ok(seed) ==> keys::record_gen(rec).seed == seed,
        keys::record_gen(rec).created_unix == rec.created_unix,
        keys::record_gen(rec).pending == rec.pending,
{
}

/// What a key is derived from beside the seed: the salt, and what is hashed under it.
pub open spec fn salt_of(g: Gen) -> Seq<u8> {
    encode_utf8("maskroom-derive-salt-v1"@) + crypto::be8(g.id)
}

/// What a key is derived from beside the seed: the label, the tenant, the purpose and the number
/// of the generation.
pub open spec fn info_of(g: Gen, tenant: Seq<char>, purpose: Seq<char>) -> Seq<u8> {
    encode_utf8("maskroom-tenant-key-v1"@) + encode_utf8(tenant) + encode_utf8(purpose)
        + crypto::be8(g.id)
}

/// The purpose is one of those that the ring derives keys for.
pub open spec fn is_purpose(p: Seq<char>) -> bool {
    p == "token-tag"@ || p == "stable-record-id"@ || p == "mapping-data"@
}

proof fn lemma_purpose_ends(a: Seq<char>, p: Seq<char>, b: Seq<char>, q: Seq<char>)
    requires
        is_purpose(p),
        is_purpose(q),
        a + p == b + q,
    ensures
        a == b,
        p == q,
{
    reveal_strlit("token-tag");
    reveal_strlit("stable-record-id");
    reveal_strlit("mapping-data");
    assert((a + p).last() == p.last());
    assert((b + q).last() == q.last());
    assert("token-tag"@.last() == 'g');
    assert("stable-record-id"@.last() == 'd');
    assert("mapping-data"@.last() == 'a');
    assert(p == q);
    assert((a + p).len() == a.len() + p.len());
    assert((b + q).len() == b.len() + q.len());
    assert((a + p).take(a.len() as int) =~= a);
    assert((b + q).take(b.len() as int) =~= b);
}

proof fn lemma_info_parts(
    l: Seq<u8>,
    a: Seq<u8>,
    n: Seq<u8>,
    b: Seq<u8>,
    m: Seq<u8>,
)
    requires
        n.len() == 8,
        m.len() == 8,
        l + a + n == l + b + m,
    ensures
        a == b,
        n == m,
{
    let x = l + a + n;
    let y = l + b + m;
    let k = l.len() as int;
    assert(x.len() == k + a.len() + 8);
    assert(y.len() == k + b.len() + 8);
    assert(x.subrange(k, k + a.len()) =~= a);
    assert(y.subrange(k, k + b.len()) =~= b);
    assert(x.skip(k + a.len()) =~= n);
    assert(y.skip(k + b.len()) =~= m);
}

/// What a key is derived from tells the tenant, the purpose and the generation.
pub proof fn lemma_info_tells_apart(
    g: Gen,
    tenant: Seq<char>,
    purpose: Seq<char>,
    g2: Gen,
    tenant2: Seq<char>,
    purpose2: Seq<char>,
)
    requires
        is_purpose(purpose),
        is_purpose(purpose2),
        info_of(g, tenant, purpose) == info_of(g2, tenant2, purpose2),
    ensures
        g.id == g2.id,
        tenant == tenant2,
        purpose == purpose2,
{
    let l = encode_utf8("maskroom-tenant-key-v1"@);
    let a = encode_utf8(tenant) + encode_utf8(purpose);
    let b = encode_utf8(tenant2) + encode_utf8(purpose2);
    assert(info_of(g, tenant, purpose) =~= l + a + crypto::be8(g.id));
    assert(info_of(g2, tenant2, purpose2) =~= l + b + crypto::be8(g2.id));
    lemma_info_parts(l, a, crypto::be8(g.id), b, crypto::be8(g2.id));
    crypto::lemma_be8_tells_apart(g.id, g2.id);
    text::lemma_encode_concat(tenant, purpose);
    text::lemma_encode_concat(tenant2, purpose2);
    text::lemma_encoding_is_injective(tenant + purpose, tenant2 + purpose2);
    lemma_purpose_ends(tenant, purpose, tenant2, purpose2);
}

/// A derived key is the tag of its tenant, purpose and generation under the tag of the seed, and
/// two keys are the same only if tenant, purpose and generation are, or else HMAC gives the same
/// tag for two different pairs of a key and an input.
pub proof fn lemma_derived_keys_tell_apart(
    g: Gen,
    tenant: Seq<char>,
    purpose: Seq<char>,
    g2: Gen,
    tenant2: Seq<char>,
    purpose2: Seq<char>,
)
    requires
        is_purpose(purpose),
        is_purpose(purpose2),
    ensures
        ({
            let prk = crypto::hmac_of(salt_of(g), g.seed);
            let prk2 = crypto::hmac_of(salt_of(g2), g2.seed);
            let x = info_of(g, tenant, purpose) + seq![1u8];
            let y = info_of(g2, tenant2, purpose2) + seq![1u8];
            &&& keys::derived_key(g, tenant, purpose) == crypto::hmac_of(prk, x)
            &&& keys::derived_key(g, tenant, purpose) == keys::derived_key(g2, tenant2, purpose2)
                ==> (g.id == g2.id && tenant == tenant2 && purpose == purpose2) || (!(prk == prk2
                && x == y) && crypto::hmac_of(prk, x) == crypto::hmac_of(prk2, y))
        }),
{
    let prk = crypto::hmac_of(salt_of(g), g.seed);
    let prk2 = crypto::hmac_of(salt_of(g2), g2.seed);
    let i = info_of(g, tenant, purpose);
    let k = info_of(g2, tenant2, purpose2);
    let x = i + seq![1u8];
    let y = k + seq![1u8];
    crypto_laws::lemma_derived_bytes(salt_of(g), g.seed, i, 32);
    crypto_laws::lemma_derived_bytes(salt_of(g2), g2.seed, k, 32);
    assert(crypto::hmac_of(prk, x).take(32) =~= crypto::hmac_of(prk, x));
    assert(crypto::hmac_of(prk2, y).take(32) =~= crypto::hmac_of(prk2, y));
    if x == y {
        assert(x.drop_last() =~= i);
        assert(y.drop_last() =~= k);
        lemma_info_tells_apart(g, tenant, purpose, g2, tenant2, purpose2);
    }
}

}
