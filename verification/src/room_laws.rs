//! Laws of the masking room: what each request changes, what it leaves as it was, and what the
//! log says of it.

use crate::b64;
use crate::canonical;
use crate::crypto;
use crate::crypto::GenKey;
use crate::json::Json;
use crate::json_text;
use crate::masking;
use crate::redaction;
use crate::redaction::Hit;
use crate::redaction_laws;
use crate::sealing;
use crate::sealing::Origin;
use crate::service;
use crate::service::Means;
use crate::sorting;
use crate::state;
use crate::state::{LogRecord, MaskRule, MatchKind, Record, Redaction, Room, Store};
use crate::text;
use vstd::prelude::*;
use vstd::utf8::*;

verus! {

broadcast use vstd::seq::group_seq_axioms;

/// The hash of a log record: the SHA-256 digest, in hexadecimal, of the canonical text of its
/// number, time, kind, detail and the hash before it.
pub open spec fn hash_of(r: LogRecord) -> Seq<char> {
    crypto::hex_text(
        crypto::sha256_of(
            encode_utf8(
                canonical::canonical(
                    Json::Obj(
                        seq![
                            ("seq"@, Json::Num(text::dec(r.seq as nat))),
                            ("ts"@, Json::Num(text::dec(r.ts as nat))),
                            ("kind"@, Json::Str(r.kind)),
                            ("detail"@, r.detail),
                            ("prev_hash"@, Json::Str(r.prev_hash)),
                        ],
                    ),
                ),
            ),
        ),
    )
}

/// The log is the one before with one record more: of this time, kind and detail, with its place
/// as its number, with the hash of the record before it, or 64 zeros, and with its own hash.
pub open spec fn one_more(
    before: Seq<LogRecord>,
    after: Seq<LogRecord>,
    ts: u64,
    kind: Seq<char>,
    detail: Json,
) -> bool {
    let r = after.last();
    &&& after.len() == before.len() + 1
    &&& after.drop_last() == before
    &&& r.seq == before.len() as u64
    &&& r.ts == ts
    &&& r.kind == kind
    &&& r.detail == detail
    &&& before.len() > 0 ==> r.prev_hash == before.last().hash
    &&& before.len() == 0 ==> r.prev_hash.len() == 64 && forall|i: int|
        0 <= i < 64 ==> #[trigger] r.prev_hash[i] == '0'
    &&& r.hash == hash_of(r)
}

proof fn lemma_logged(room: Room, ts: u64, kind: Seq<char>, detail: Json)
    ensures
        ({
            let after = service::logged(room, ts, kind, detail);
            &&& one_more(room.audit, after.audit, ts, kind, detail)
            &&& after.rules == room.rules
            &&& after.current_gen == room.current_gen
            &&& after.mappings == room.mappings
            &&& after.redactions == room.redactions
        }),
{
    let after = service::logged(room, ts, kind, detail);
    assert(after.audit.drop_last() =~= room.audit);
    let r = after.audit.last();
    assert(r.hash == hash_of(r));
}

/// The log is in order exactly if every record has its place as its number, names the hash of the
/// one before it, or 64 zeros, and carries its own hash.
pub proof fn lemma_what_the_check_of_the_log_says(log: Seq<LogRecord>)
    ensures
        service::chain_holds(log) <==> forall|i: int|
            0 <= i < log.len() ==> {
                &&& (#[trigger] log[i]).seq == i
                &&& log[i].hash == hash_of(log[i])
                &&& i > 0 ==> log[i].prev_hash == log[i - 1].hash
                &&& i == 0 ==> log[i].prev_hash == Seq::new(64, |k: int| '0')
            },
{
    if service::chain_holds(log) {
        assert forall|i: int| 0 <= i < log.len() implies {
            &&& (#[trigger] log[i]).seq == i
            &&& log[i].hash == hash_of(log[i])
            &&& i > 0 ==> log[i].prev_hash == log[i - 1].hash
            &&& i == 0 ==> log[i].prev_hash == Seq::new(64, |k: int| '0')
        } by {
            assert(service::record_holds(log, i));
            assert(service::no_hash() =~= Seq::new(64, |k: int| '0'));
        }
    }
    if forall|i: int|
        0 <= i < log.len() ==> {
            &&& (#[trigger] log[i]).seq == i
            &&& log[i].hash == hash_of(log[i])
            &&& i > 0 ==> log[i].prev_hash == log[i - 1].hash
            &&& i == 0 ==> log[i].prev_hash == Seq::new(64, |k: int| '0')
        } {
        assert forall|i: int| 0 <= i < log.len() implies #[trigger] service::record_holds(
            log,
            i,
        ) by {
            assert(log[i].seq == i);
            assert(service::no_hash() =~= Seq::new(64, |k: int| '0'));
        }
    }
}

proof fn lemma_without_id(list: Seq<MaskRule>, id: Seq<char>, x: MaskRule)
    ensures
        service::without_id(list, id).contains(x) <==> list.contains(x) && x.id != id,
    decreases list.len(),
{
    if list.len() > 0 {
        let front = list.drop_last();
        let kept = service::without_id(front, id);
        lemma_without_id(front, id, x);
        assert(list.contains(x) <==> front.contains(x) || x == list.last()) by {
            if list.contains(x) {
                let i = choose|i: int| 0 <= i < list.len() && list[i] == x;
                if i < front.len() {
                    assert(front[i] == x);
                }
            }
            if front.contains(x) {
                let i = choose|i: int| 0 <= i < front.len() && front[i] == x;
                assert(list[i] == x);
            }
            assert(list[list.len() - 1] == list.last());
        }
        let longer = kept.push(list.last());
        assert(longer.contains(x) <==> kept.contains(x) || x == list.last()) by {
            if longer.contains(x) {
                let i = choose|i: int| 0 <= i < longer.len() && longer[i] == x;
                if i < kept.len() {
                    assert(kept[i] == x);
                }
            }
            if kept.contains(x) {
                let i = choose|i: int| 0 <= i < kept.len() && kept[i] == x;
                assert(longer[i] == x);
            }
            assert(longer[kept.len() as int] == list.last());
        }
    }
}

proof fn lemma_without_id_distinct(list: Seq<MaskRule>, id: Seq<char>)
    requires
        distinct_ids(list),
    ensures
        distinct_ids(service::without_id(list, id)),
        forall|i: int|
            0 <= i < service::without_id(list, id).len() ==> (#[trigger] service::without_id(
                list,
                id,
            )[i]).id != id,
    decreases list.len(),
{
    if list.len() > 0 {
        let front = list.drop_last();
        let kept = service::without_id(front, id);
        assert(distinct_ids(front)) by {
            assert forall|i: int, j: int| 0 <= i < j < front.len() implies (#[trigger] front[i]).id
                != (#[trigger] front[j]).id by {
                assert(list[i].id != list[j].id);
            }
        }
        lemma_without_id_distinct(front, id);
        if list.last().id != id {
            let longer = kept.push(list.last());
            assert forall|i: int, j: int| 0 <= i < j < longer.len() implies (
            #[trigger] longer[i]).id != (#[trigger] longer[j]).id by {
                if j == kept.len() {
                    lemma_without_id(front, id, kept[i]);
                    assert(kept.contains(kept[i]));
                    let k = choose|k: int| 0 <= k < front.len() && front[k] == kept[i];
                    assert(list[k].id != list[list.len() - 1].id);
                }
            }
        }
    }
}

/// No two rules have the same id.
pub open spec fn distinct_ids(list: Seq<MaskRule>) -> bool {
    forall|i: int, j: int| 0 <= i < j < list.len() ==> (#[trigger] list[i]).id != (
    #[trigger] list[j]).id
}

proof fn lemma_id_order()
    ensures
        sorting::is_weak_order(|a: MaskRule, b: MaskRule| service::id_before(a, b)),
{
    let before = |a: MaskRule, b: MaskRule| service::id_before(a, b);
    assert forall|a: MaskRule, b: MaskRule| #[trigger] before(a, b) implies !before(b, a) by {
        text::lemma_text_before_is_total_order(a.id, b.id, a.id);
    }
    assert forall|a: MaskRule, b: MaskRule, c: MaskRule|
        !(#[trigger] before(b, a)) && !(#[trigger] before(c, b)) implies !before(c, a) by {
        text::lemma_text_before_is_total_order(a.id, b.id, c.id);
        text::lemma_text_before_is_total_order(c.id, a.id, b.id);
        text::lemma_text_before_is_total_order(b.id, c.id, a.id);
        text::lemma_text_before_is_total_order(c.id, b.id, a.id);
    }
}

/// Registering a rule puts it in the place of the one with its id, keeps all others, leaves the
/// rules in the order of their ids, changes nothing else but the log, and says in the log which
/// rule it was.
pub proof fn lemma_registering(room: Room, rule: MaskRule, ts: u64)
    ensures
        ({
            let after = service::registered(room, rule, ts);
            &&& forall|x: MaskRule| #[trigger]
                after.rules.contains(x) <==> x == rule || (room.rules.contains(x) && x.id != rule.id)
            &&& forall|i: int, j: int|
                0 <= i < j < after.rules.len() ==> !text::text_before(
                    (#[trigger] after.rules[j]).id,
                    (#[trigger] after.rules[i]).id,
                )
            &&& distinct_ids(room.rules) ==> distinct_ids(after.rules)
            &&& after.current_gen == room.current_gen
            &&& after.mappings == room.mappings
            &&& after.redactions == room.redactions
            &&& one_more(
                room.audit,
                after.audit,
                ts,
                "rule_register"@,
                Json::Obj(
                    seq![
                        ("rule_id"@, Json::Str(rule.id)),
                        ("version"@, Json::Num(text::dec(rule.version as nat))),
                        (
                            "kind"@,
                            Json::Str(
                                match rule.kind {
                                    MatchKind::Literal => "Literal"@,
                                    MatchKind::Regex => "Regex"@,
                                },
                            ),
                        ),
                        ("priority"@, Json::Num(text::dec_int(rule.priority as int))),
                        ("stable"@, Json::Bool(rule.stable)),
                    ],
                ),
            )
        }),
{
    let after = service::registered(room, rule, ts);
    let kept = service::without_id(room.rules, rule.id);
    let longer = kept.push(rule);
    let before = |a: MaskRule, b: MaskRule| service::id_before(a, b);
    lemma_logged(
        Room { rules: service::with_rule(room.rules, rule), ..room },
        ts,
        "rule_register"@,
        service::rule_detail(rule),
    );
    assert(after.rules == sorting::sorted(longer, before));
    assert forall|x: MaskRule| #[trigger] after.rules.contains(x) <==> x == rule || (
    room.rules.contains(x) && x.id != rule.id) by {
        sorting::lemma_sorted_contains(longer, before, x);
        lemma_without_id(room.rules, rule.id, x);
        if longer.contains(x) {
            let i = choose|i: int| 0 <= i < longer.len() && longer[i] == x;
            if i < kept.len() {
                assert(kept[i] == x);
            }
        }
        if kept.contains(x) {
            let i = choose|i: int| 0 <= i < kept.len() && kept[i] == x;
            assert(longer[i] == x);
        }
        assert(longer[kept.len() as int] == rule);
    }
    lemma_id_order();
    sorting::lemma_sorted_in_order(longer, before);
    assert forall|i: int, j: int| 0 <= i < j < after.rules.len() implies !text::text_before(
        (#[trigger] after.rules[j]).id,
        (#[trigger] after.rules[i]).id,
    ) by {
        assert(!before(after.rules[j], after.rules[i]));
    }
    if distinct_ids(room.rules) {
        lemma_without_id_distinct(room.rules, rule.id);
        assert forall|i: int, j: int| 0 <= i < j < after.rules.len() implies (
        #[trigger] after.rules[i]).id != (#[trigger] after.rules[j]).id by {
            let (a, b) = sorting::lemma_sorted_places(longer, before, i, j);
            if a < kept.len() && b < kept.len() {
                if a < b {
                    assert(kept[a].id != kept[b].id);
                } else {
                    assert(kept[b].id != kept[a].id);
                }
            } else if a < kept.len() {
                assert(kept[a].id != rule.id);
            } else {
                assert(kept[b].id != rule.id);
            }
        }
    }
}

/// A rule is accepted exactly if it has an id and a pattern, and the pattern of a rule with a
/// regular expression is one.
pub proof fn lemma_which_rules_are_accepted(rule: MaskRule)
    ensures
        service::rule_refusal(rule) is None <==> rule.id.len() > 0 && rule.pattern.len() > 0 && (
        rule.kind == MatchKind::Regex ==> redaction::regex_fault(rule.pattern) is None),
        rule.id.len() == 0 || rule.pattern.len() == 0 ==> service::rule_refusal(rule) == Some(
            "规则 id 与 pattern 不能为空"@,
        ),
        rule.id.len() > 0 && rule.pattern.len() > 0 && rule.kind == MatchKind::Regex ==> (
        redaction::regex_fault(rule.pattern) matches Some(fault) ==> service::rule_refusal(rule)
            == Some("正则无效: "@ + fault)),
{
}

/// A rotation changes the current generation and the log, which says from which generation to
/// which, and nothing else.
pub proof fn lemma_rotating(room: Room, to: u32, ts: u64)
    ensures
        ({
            let after = service::rotated(room, to, ts);
            &&& after.current_gen == to
            &&& after.rules == room.rules
            &&& after.mappings == room.mappings
            &&& after.redactions == room.redactions
            &&& one_more(
                room.audit,
                after.audit,
                ts,
                "rotate"@,
                Json::Obj(
                    seq![
                        ("from"@, Json::Num(text::dec(room.current_gen as nat))),
                        ("to"@, Json::Num(text::dec(to as nat))),
                    ],
                ),
            )
        }),
{
    lemma_logged(
        Room { current_gen: to, ..room },
        ts,
        "rotate"@,
        service::rotation_detail(room.current_gen, to),
    );
}

/// A text is a token exactly if it is the opening mark, 22 characters of the base64 alphabet and
/// the closing mark; its id is what stands between the marks.
pub proof fn lemma_what_is_a_token(token: Seq<char>, id: Seq<char>)
    ensures
        redaction::extracted(token) == Some(id) <==> {
            &&& token == "⟦TKN-"@ + id + "⟧"@
            &&& id.len() == 22
            &&& forall|i: int|
                0 <= i < 22 ==> {
                    ||| 'A' <= #[trigger] id[i] <= 'Z'
                    ||| 'a' <= id[i] <= 'z'
                    ||| '0' <= id[i] <= '9'
                    ||| id[i] == '*'
                    ||| id[i] == '~'
                }
        },
{
    redaction::lemma_marks();
    let open = "⟦TKN-"@;
    let close = "⟧"@;
    if redaction::extracted(token) == Some(id) {
        assert(token =~= token.take(5) + token.subrange(5, 27) + token.skip(27));
        assert forall|i: int| 0 <= i < 22 implies {
            ||| 'A' <= #[trigger] id[i] <= 'Z'
            ||| 'a' <= id[i] <= 'z'
            ||| '0' <= id[i] <= '9'
            ||| id[i] == '*'
            ||| id[i] == '~'
        } by {
            assert(b64::symbol_value(id[i]) is Some);
        }
    }
    if token == open + id + close && id.len() == 22 && (forall|i: int|
        0 <= i < 22 ==> {
            ||| 'A' <= #[trigger] id[i] <= 'Z'
            ||| 'a' <= id[i] <= 'z'
            ||| '0' <= id[i] <= '9'
            ||| id[i] == '*'
            ||| id[i] == '~'
        }) {
        assert(token.take(5) =~= open);
        assert(token.subrange(5, 27) =~= id);
        assert(token.skip(27) =~= close);
        assert(crypto::is_token_id(id));
    }
}

/// The room opens the token to the text: it has a record under the id of the token and a key for
/// the generation of the record, with which the ciphertext opens, bound to the id, to bytes that
/// hold the text under the key `plaintext`.
pub open spec fn opens_to(
    room: Room,
    gens: Seq<GenKey>,
    token: Seq<char>,
    id: Seq<char>,
    nonce: Seq<u8>,
    ct: Seq<u8>,
    bytes: Seq<u8>,
    t: Seq<char>,
) -> bool {
    &&& token == "⟦TKN-"@ + id + "⟧"@
    &&& crypto::is_token_id(id)
    &&& room.mappings.contains_key(id)
    &&& crypto::generation_key(gens, room.mappings[id].gen) is Some
    &&& b64::decoded(room.mappings[id].nonce_b64) == Some(nonce)
    &&& nonce.len() == 12
    &&& b64::decoded(room.mappings[id].ciphertext_b64) == Some(ct)
    &&& crypto::opened(
        crypto::generation_key(gens, room.mappings[id].gen)->0,
        nonce,
        encode_utf8(id),
        ct,
    ) == Some(bytes)
    &&& sealing::json_field(bytes, "plaintext"@) == Some(t)
}

/// A token is answered with a text exactly if the room opens it to that text; to any other it is
/// answered that it cannot be restored. Either way only the log changes: it says which it was,
/// and the token and the purpose.
pub proof fn lemma_restoring(
    room: Room,
    gens: Seq<GenKey>,
    purpose: Seq<char>,
    token: Seq<char>,
    ts: u64,
    t: Seq<char>,
)
    ensures
        ({
            let a = service::answer_to(room, gens, token);
            let after = service::asked(room, gens, purpose, token, ts);
            &&& a.token == token
            &&& a.ok && a.text == Some(t) && a.error is None <==> exists|
                id: Seq<char>,
                nonce: Seq<u8>,
                ct: Seq<u8>,
                bytes: Seq<u8>,
            | #[trigger]
                opens_to(room, gens, token, id, nonce, ct, bytes, t)
            &&& a.ok == (a.text is Some)
            &&& a.ok == (a.error is None)
            &&& !a.ok ==> a.error == Some("无法还原：token 无效或未被授权"@)
            &&& after.rules == room.rules
            &&& after.current_gen == room.current_gen
            &&& after.mappings == room.mappings
            &&& after.redactions == room.redactions
            &&& one_more(
                room.audit,
                after.audit,
                ts,
                if a.ok {
                    "restore_ok"@
                } else {
                    "restore_fail"@
                },
                Json::Obj(seq![("token"@, Json::Str(token)), ("purpose"@, Json::Str(purpose))]),
            )
        }),
{
    let a = service::answer_to(room, gens, token);
    if a.ok && a.text == Some(t) {
        let id = redaction::extracted(token)->0;
        lemma_what_is_a_token(token, id);
        let r = room.mappings[id];
        let key = crypto::generation_key(gens, r.gen)->0;
        let nonce = b64::decoded(r.nonce_b64)->0;
        let ct = b64::decoded(r.ciphertext_b64)->0;
        let bytes = crypto::opened(key, nonce, encode_utf8(id), ct)->0;
        assert(opens_to(room, gens, token, id, nonce, ct, bytes, t));
    }
    if exists|id: Seq<char>, nonce: Seq<u8>, ct: Seq<u8>, bytes: Seq<u8>| #[trigger]
        opens_to(room, gens, token, id, nonce, ct, bytes, t) {
        let (id, nonce, ct, bytes) = choose|
            id: Seq<char>,
            nonce: Seq<u8>,
            ct: Seq<u8>,
            bytes: Seq<u8>,
        | #[trigger]
            opens_to(room, gens, token, id, nonce, ct, bytes, t);
        assert(redaction::extracted(token) == Some(id)) by {
            redaction::lemma_marks();
            let open = "⟦TKN-"@;
            let close = "⟧"@;
            assert(token.take(5) =~= open);
            assert(token.subrange(5, 27) =~= id);
            assert(token.skip(27) =~= close);
        }
    }
    lemma_logged(
        room,
        ts,
        if service::restored_text(room, gens, token) is Some {
            "restore_ok"@
        } else {
            "restore_fail"@
        },
        service::restore_detail(token, purpose),
    );
}

/// A text is masked unless the tenant is empty or the current generation has no key.
pub proof fn lemma_when_texts_are_masked(store: Store, tenant: Seq<char>)
    ensures
        service::redact_refusal(store, tenant) is None <==> tenant.len() > 0
            && crypto::generation_key(store.keys.generations@, store.state@.current_gen) is Some,
        tenant.len() == 0 ==> service::redact_refusal(store, tenant) == Some("租户不能为空"@),
        tenant.len() > 0 && crypto::generation_key(
            store.keys.generations@,
            store.state@.current_gen,
        ) is None ==> service::redact_refusal(store, tenant) == Some("当前密钥代次不存在"@),
{
}

/// The token for a hit: between the marks, in base64, the first sixteen bytes of the HMAC of the
/// rule, its version, the whole text and, unless the rule is stable, the salt, under the HMAC of
/// the tenant under the master key.
pub proof fn lemma_what_a_token_is_made_of(m: Means, list: Seq<Hit>, i: int)
    requires
        0 <= i < list.len(),
    ensures
        ({
            let rule = m.rules[list[i].rule];
            let tenant_key = crypto::hmac_of(
                m.master,
                encode_utf8("masking-room/tenant/v1/"@ + m.tenant),
            );
            let name = encode_utf8(rule.id);
            let matched = encode_utf8(list[i].matched);
            let salt: Seq<u8> = if rule.stable {
                seq![]
            } else {
                m.draws[i].salt@
            };
            let input = crypto::be8(name.len() as u64) + name + crypto::be8(rule.version as u64)
                + crypto::be8(matched.len() as u64) + matched + salt;
            let id = b64::encoded(crypto::hmac_of(tenant_key, input).take(16));
            &&& service::ids_for(m, list)[i] == id
            &&& service::tokens_for(m, list)[i] == "⟦TKN-"@ + id + "⟧"@
        }),
{
}

/// Masking a text changes the mappings, the list of masked texts and the log, and nothing else.
/// The text is listed as it was masked, with its tenant, the ids of its tokens and the time, and
/// the log says for which tenant how many tokens were made, and under which rules.
pub proof fn lemma_masking_a_text(
    room: Room,
    m: Means,
    s: Seq<char>,
    list: Seq<Hit>,
    masked_at: u64,
    logged_at: u64,
)
    ensures
        ({
            let after = service::redacted_room(room, m, s, list, masked_at, logged_at);
            let tokens = service::tokens_for(m, list);
            let ids = service::ids_for(m, list);
            &&& after.rules == room.rules
            &&& after.current_gen == room.current_gen
            &&& after.redactions == room.redactions.push(
                Redaction {
                    tenant: m.tenant,
                    redacted_text: masking::masked_text(s, redaction_laws::cuts(list), tokens),
                    token_ids: ids,
                    ts: masked_at,
                },
            )
            &&& one_more(
                room.audit,
                after.audit,
                logged_at,
                "redact"@,
                Json::Obj(
                    seq![
                        ("tenant"@, Json::Str(m.tenant)),
                        ("count"@, Json::Num(text::dec(list.len() as u64 as nat))),
                        (
                            "tokens"@,
                            Json::Arr(
                                Seq::new(
                                    list.len(),
                                    |i: int|
                                        Json::Obj(
                                            seq![
                                                ("token_id"@, Json::Str(ids[i])),
                                                ("rule_id"@, Json::Str(m.rules[list[i].rule].id)),
                                                (
                                                    "version"@,
                                                    Json::Num(
                                                        text::dec(
                                                            m.rules[list[i].rule].version as nat,
                                                        ),
                                                    ),
                                                ),
                                            ],
                                        ),
                                ),
                            ),
                        ),
                    ],
                ),
            )
        }),
{
    let notes = service::notes_for(m, list);
    let ids = service::ids_for(m, list);
    let said = notes.map_values(|n: service::TokenNote| service::token_detail(n));
    let wanted = Seq::new(
        list.len(),
        |i: int|
            Json::Obj(
                seq![
                    ("token_id"@, Json::Str(ids[i])),
                    ("rule_id"@, Json::Str(m.rules[list[i].rule].id)),
                    ("version"@, Json::Num(text::dec(m.rules[list[i].rule].version as nat))),
                ],
            ),
    );
    assert(said =~= wanted);
    let after = service::redacted_room(room, m, s, list, masked_at, logged_at);
    lemma_logged(
        Room {
            mappings: service::mapped(room.mappings, m, list, 0),
            redactions: after.redactions,
            ..room
        },
        logged_at,
        "redact"@,
        service::redact_detail(m.tenant, notes),
    );
}

/// A new mapping is that of a fragment that was masked: it stands under the id of its token, is
/// encrypted under the current generation with the drawn nonce and bound to the id, and holds
/// where the fragment comes from.
pub proof fn lemma_new_mappings_hold_fragments(
    mappings: Map<Seq<char>, Record>,
    m: Means,
    list: Seq<Hit>,
    k: int,
    id: Seq<char>,
)
    requires
        0 <= k <= list.len(),
        !mappings.contains_key(id),
        service::mapped(mappings, m, list, k).contains_key(id),
    ensures
        exists|i: int|
            k <= i < list.len() && id == #[trigger] service::ids_for(m, list)[i] && ({
                let r = service::mapped(mappings, m, list, k)[id];
                let o = Origin {
                    tenant: m.tenant,
                    rule_id: m.rules[list[i].rule].id,
                    version: m.rules[list[i].rule].version,
                    matched: list[i].matched,
                };
                &&& r.token_id == id
                &&& r.gen == m.gen
                &&& r.created_ms == m.draws[i].now
                &&& r.nonce_b64 == b64::encoded(m.draws[i].nonce@)
                &&& r.ciphertext_b64 == b64::encoded(
                    crypto::sealed(
                        m.key,
                        m.draws[i].nonce@,
                        encode_utf8(id),
                        sealing::payload_bytes(o),
                    ),
                )
            }),
    decreases list.len() - k,
{
    if k < list.len() {
        let later = service::mapped(mappings, m, list, k + 1);
        let here = service::ids_for(m, list)[k];
        if later.contains_key(id) {
            lemma_new_mappings_hold_fragments(mappings, m, list, k + 1, id);
            assert(service::mapped(mappings, m, list, k)[id] == later[id]);
        } else {
            assert(id == here);
        }
    }
}

proof fn lemma_payload_is_proper(o: Origin)
    ensures
        json_text::is_proper(Json::Obj(sealing::payload_members(o))),
{
    let p = sealing::payload_members(o);
    reveal_strlit("plaintext");
    reveal_strlit("rule_id");
    reveal_strlit("tenant");
    reveal_strlit("version");
    assert("plaintext"@[0] == 'p' && "rule_id"@[0] == 'r' && "tenant"@[0] == 't' && "version"@[0]
        == 'v');
    json_text::lemma_decimal_is_notation(o.version as nat);
    let v = Json::Obj(p);
    assert(v->Obj_0 == p);
    assert forall|i: int| 0 <= i < p.len() implies json_text::is_proper((#[trigger] p[i]).1) by {}
    assert forall|i: int, j: int| 0 <= i < j < p.len() implies (#[trigger] p[i]).0 != (
    #[trigger] p[j]).0 by {}
}

/// What is encrypted for a fragment tells its tenant, its rule with the version, and its text.
pub proof fn lemma_payload_tells_the_origin(o: Origin, q: Origin)
    requires
        sealing::payload_bytes(o) == sealing::payload_bytes(q),
    ensures
        o.tenant == q.tenant,
        o.rule_id == q.rule_id,
        o.version == q.version,
        o.matched == q.matched,
{
    let a = sealing::payload_members(o);
    let b = sealing::payload_members(q);
    text::lemma_encoding_is_injective(
        canonical::canonical(Json::Obj(a)),
        canonical::canonical(Json::Obj(b)),
    );
    lemma_payload_is_proper(o);
    lemma_payload_is_proper(q);
    assert forall|i: int| 0 <= i < a.len() implies (#[trigger] a[i]).0 == b[i].0 by {}
    canonical::lemma_same_text_same_members(a, b);
    assert(canonical::normal(a[0].1) == canonical::normal(b[0].1));
    assert(canonical::normal(a[1].1) == canonical::normal(b[1].1));
    assert(canonical::normal(a[2].1) == canonical::normal(b[2].1));
    assert(canonical::normal(a[3].1) == canonical::normal(b[3].1));
    text::lemma_dec_reads_back(o.version as nat);
    text::lemma_dec_reads_back(q.version as nat);
}

/// Nothing that a rule proposes and that meets no token stays in the open untouched: it is masked
/// itself, or it overlaps a fragment that is masked.
pub proof fn lemma_proposals_are_masked_or_give_way(
    rules: Seq<MaskRule>,
    s: Seq<char>,
    h: Hit,
)
    requires
        redaction::are_hits(
            rules.len() as int,
            s,
            redaction::proposed(rules, s, rules.len() as int),
        ),
        redaction::proposed(rules, s, rules.len() as int).contains(h),
        forall|p: int|
            redaction_laws::looks_like_a_token(encode_utf8(s), p) ==> h.end <= p || #[trigger] (p
                + 32) <= h.start,
    ensures
        exists|i: int|
            0 <= i < service::verdict(rules, s).accepted.len() && (
            #[trigger] service::verdict(rules, s).accepted[i]).start < h.end && h.start
                < service::verdict(rules, s).accepted[i].end,
{
    let list = redaction::proposed(rules, s, rules.len() as int);
    let shield = redaction::token_spans(encode_utf8(s), 0);
    let r = service::verdict(rules, s);
    redaction_laws::lemma_ruling_is_fair(rules, s, list, shield);
    assert forall|k: int| 0 <= k < shield.len() implies h.end <= (#[trigger] shield[k]).0
        || shield[k].1 <= h.start by {
        let (p, q) = shield[k];
        assert(shield.contains((p, q)));
        redaction_laws::lemma_protected_is_what_looks_like_a_token(encode_utf8(s), p, q);
        assert(p + 32 == q);
    }
    assert(list.contains(h));
    if r.accepted.contains(h) {
        let i = choose|i: int| 0 <= i < r.accepted.len() && r.accepted[i] == h;
        let k = choose|k: int| 0 <= k < list.len() && list[k] == h;
        assert(redaction::is_hit(rules.len() as int, s, list[k]));
        assert(r.accepted[i].start < h.end);
    } else {
        let k = choose|k: int| 0 <= k < r.suppressed.len() && (#[trigger] r.suppressed[k]).0 == h;
        let x = r.suppressed[k].1;
        assert(r.accepted.contains(x));
        let i = choose|i: int| 0 <= i < r.accepted.len() && r.accepted[i] == x;
        assert(r.accepted[i].start < h.end);
    }
}

/// A preview shows every accepted hit and every hit that gives way, with the id and the version of
/// its rule, its place and its text, and of each that gives way also the rule and the place of the
/// hit that it gives way to.
pub proof fn lemma_what_a_preview_shows(
    rules: Seq<MaskRule>,
    accepted: Seq<Hit>,
    suppressed: Seq<(Hit, Hit)>,
    i: int,
)
    ensures
        service::fragments(rules, accepted).len() == accepted.len(),
        service::concessions(rules, suppressed).len() == suppressed.len(),
        0 <= i < accepted.len() ==> ({
            let f = service::fragments(rules, accepted)[i];
            let h = accepted[i];
            &&& f.mark.rule_id == rules[h.rule].id
            &&& f.mark.version == rules[h.rule].version
            &&& f.mark.start == h.start
            &&& f.mark.end == h.end
            &&& f.matched == h.matched
        }),
        0 <= i < suppressed.len() ==> ({
            let (f, by) = service::concessions(rules, suppressed)[i];
            let (h, x) = suppressed[i];
            &&& f.mark.rule_id == rules[h.rule].id
            &&& f.mark.version == rules[h.rule].version
            &&& f.mark.start == h.start
            &&& f.mark.end == h.end
            &&& f.matched == h.matched
            &&& by.rule_id == rules[x.rule].id
            &&& by.version == rules[x.rule].version
            &&& by.start == x.start
            &&& by.end == x.end
        }),
{
}

/// A new room has no rules, no mappings, no masked texts and an empty log, and starts with the
/// given generation.
pub proof fn lemma_new_rooms_are_empty(gen: u32)
    ensures
        ({
            let room = state::empty_room(gen);
            &&& room.current_gen == gen
            &&& room.rules.len() == 0
            &&& room.audit.len() == 0
            &&& room.redactions.len() == 0
            &&& forall|id: Seq<char>| !room.mappings.contains_key(id)
        }),
{
}

/// A record of the log tells that a token was asked for: whether it could be restored, and the
/// token and the purpose.
#[verifier::opaque]
pub open spec fn tells_of_asking(
    r: LogRecord,
    ok: bool,
    purpose: Seq<char>,
    token: Seq<char>,
    ts: u64,
) -> bool {
    &&& r.ts == ts
    &&& r.kind == if ok {
        "restore_ok"@
    } else {
        "restore_fail"@
    }
    &&& r.detail == Json::Obj(
        seq![("token"@, Json::Str(token)), ("purpose"@, Json::Str(purpose))],
    )
}

proof fn lemma_asked_once(
    room: Room,
    gens: Seq<GenKey>,
    purpose: Seq<char>,
    token: Seq<char>,
    ts: u64,
)
    ensures
        ({
            let log = service::asked(room, gens, purpose, token, ts).audit;
            &&& log.len() == room.audit.len() + 1
            &&& log.drop_last() == room.audit
            &&& tells_of_asking(
                log.last(),
                service::answer_to(room, gens, token).ok,
                purpose,
                token,
                ts,
            )
        }),
{
    reveal(tells_of_asking);
    let t: Seq<char> = seq![];
    lemma_restoring(room, gens, purpose, token, ts, t);
}

/// Asking for several tokens adds one record to the log for each, in their order and with the
/// given times, and each says whether its token could be restored, the token and the purpose.
#[verifier::spinoff_prover]
pub proof fn lemma_restoring_many(
    room: Room,
    gens: Seq<GenKey>,
    purpose: Seq<char>,
    tokens: Seq<Seq<char>>,
    times: Seq<u64>,
    n: int,
)
    requires
        0 <= n <= tokens.len(),
        tokens.len() == times.len(),
    ensures
        ({
            let log = service::asked_all(room, gens, purpose, tokens, times, n).audit;
            &&& log.len() == room.audit.len() + n
            &&& log.take(room.audit.len() as int) == room.audit
            &&& forall|i: int|
                0 <= i < n ==> tells_of_asking(
                    log[room.audit.len() + i],
                    service::answer_to(room, gens, #[trigger] tokens[i]).ok,
                    purpose,
                    tokens[i],
                    times[i],
                )
        }),
    decreases n,
{
    let len = room.audit.len() as int;
    let log = service::asked_all(room, gens, purpose, tokens, times, n).audit;
    if n > 0 {
        let before = service::asked_all(room, gens, purpose, tokens, times, n - 1);
        let token = tokens[n - 1];
        lemma_restoring_many(room, gens, purpose, tokens, times, n - 1);
        service::lemma_asking_changes_the_log(room, gens, purpose, tokens, times, n - 1);
        lemma_asked_once(before, gens, purpose, token, times[n - 1]);
        assert(service::answer_to(before, gens, token) == service::answer_to(room, gens, token));
        assert(log == service::asked(before, gens, purpose, token, times[n - 1]).audit);
        let front = log.drop_last();
        assert(front == before.audit);
        assert(log.take(len) =~= front.take(len));
        assert forall|i: int| 0 <= i < n implies tells_of_asking(
            log[len + i],
            service::answer_to(room, gens, #[trigger] tokens[i]).ok,
            purpose,
            tokens[i],
            times[i],
        ) by {
            if i < n - 1 {
                assert(log[len + i] == front[len + i]);
            }
        }
    } else {
        assert(log.take(len) =~= room.audit);
    }
}

}
