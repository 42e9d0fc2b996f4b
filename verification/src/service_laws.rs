//! Laws of the masking service.

use crate::b64;
use crate::canonical;
use crate::crypto;
use crate::crypto::GenKey;
use crate::json::Json;
use crate::json_text;
use crate::masking;
use crate::redaction;
use crate::redaction::Hit;
use crate::redaction_laws;
use crate::sealing;
use crate::sealing::Origin;
use crate::service;
use crate::service::{Draw, Means, RedactOutcome, TokenNote};
use crate::state;
use crate::state::{LogRecord, MaskRule, Record, Room, Store};
use crate::text;
use vstd::prelude::*;
use vstd::string::*;
use vstd::utf8::*;

verus! {

broadcast use vstd::seq::group_seq_axioms;

/// The details of all records are JSON values as they can be read from a text.
pub open spec fn details_proper(a: Seq<LogRecord>) -> bool {
    forall|i: int| 0 <= i < a.len() ==> json_text::is_proper((#[trigger] a[i]).detail)
}

/// A log in order stays in order when a record is appended.
pub proof fn lemma_logging_keeps_the_chain(room: Room, ts: u64, kind: Seq<char>, detail: Json)
    requires
        service::chain_holds(room.audit),
        room.audit.len() <= u64::MAX,
    ensures
        service::chain_holds(service::logged(room, ts, kind, detail).audit),
        service::logged(room, ts, kind, detail).audit.len() == room.audit.len() + 1,
        details_proper(room.audit) && json_text::is_proper(detail) ==> details_proper(
            service::logged(room, ts, kind, detail).audit,
        ),
{
    let before = room.audit;
    let after = service::logged(room, ts, kind, detail).audit;
    assert forall|i: int| 0 <= i < after.len() implies #[trigger] service::record_holds(
        after,
        i,
    ) by {
        if i < before.len() {
            assert(service::record_holds(before, i));
            assert(after[i] == before[i]);
            if i > 0 {
                assert(after[i - 1] == before[i - 1]);
            }
        } else if i > 0 {
            assert(after[i - 1] == before[i - 1]);
        }
    }
    if details_proper(before) && json_text::is_proper(detail) {
        assert forall|i: int| 0 <= i < after.len() implies json_text::is_proper(
            (#[trigger] after[i]).detail,
        ) by {
            if i < before.len() {
                assert(after[i] == before[i]);
            }
        }
    }
}

proof fn lemma_rule_detail_is_proper(rule: MaskRule)
    ensures
        json_text::is_proper(service::rule_detail(rule)),
{
    reveal_strlit("rule_id");
    reveal_strlit("version");
    reveal_strlit("kind");
    reveal_strlit("priority");
    reveal_strlit("stable");
    json_text::lemma_decimal_is_notation(rule.version as nat);
    json_text::lemma_integer_is_notation(rule.priority as int);
    assert("rule_id"@[0] == 'r' && "version"@[0] == 'v' && "kind"@[0] == 'k' && "priority"@[0]
        == 'p' && "stable"@[0] == 's');
    let pairs = service::rule_detail(rule)->Obj_0;
    assert forall|i: int| 0 <= i < pairs.len() implies json_text::is_proper(
        (#[trigger] pairs[i]).1,
    ) by {}
}

proof fn lemma_rotation_detail_is_proper(from: u32, to: u32)
    ensures
        json_text::is_proper(service::rotation_detail(from, to)),
{
    reveal_strlit("from");
    reveal_strlit("to");
    json_text::lemma_decimal_is_notation(from as nat);
    json_text::lemma_decimal_is_notation(to as nat);
    assert("from"@[0] == 'f' && "to"@[0] == 't');
    let pairs = service::rotation_detail(from, to)->Obj_0;
    assert forall|i: int| 0 <= i < pairs.len() implies json_text::is_proper(
        (#[trigger] pairs[i]).1,
    ) by {}
}

proof fn lemma_restore_detail_is_proper(token: Seq<char>, purpose: Seq<char>)
    ensures
        json_text::is_proper(service::restore_detail(token, purpose)),
{
    reveal_strlit("token");
    reveal_strlit("purpose");
    assert("token"@[0] == 't' && "purpose"@[0] == 'p');
    let pairs = service::restore_detail(token, purpose)->Obj_0;
    assert forall|i: int| 0 <= i < pairs.len() implies json_text::is_proper(
        (#[trigger] pairs[i]).1,
    ) by {}
}

proof fn lemma_token_detail_is_proper(n: TokenNote)
    ensures
        json_text::is_proper(service::token_detail(n)),
{
    reveal_strlit("token_id");
    reveal_strlit("rule_id");
    reveal_strlit("version");
    json_text::lemma_decimal_is_notation(n.version as nat);
    assert("token_id"@[0] == 't' && "rule_id"@[0] == 'r' && "version"@[0] == 'v');
    let pairs = service::token_detail(n)->Obj_0;
    assert forall|i: int| 0 <= i < pairs.len() implies json_text::is_proper(
        (#[trigger] pairs[i]).1,
    ) by {}
}

proof fn lemma_redact_detail_is_proper(tenant: Seq<char>, notes: Seq<TokenNote>)
    ensures
        json_text::is_proper(service::redact_detail(tenant, notes)),
{
    reveal_strlit("tenant");
    reveal_strlit("count");
    reveal_strlit("tokens");
    json_text::lemma_decimal_is_notation(notes.len() as u64 as nat);
    assert("tenant"@[1] == 'e' && "count"@[1] == 'o' && "tokens"@[1] == 'o' && "count"@[0] == 'c'
        && "tokens"@[0] == 't');
    let items = notes.map_values(|n: TokenNote| service::token_detail(n));
    assert forall|i: int| 0 <= i < items.len() implies json_text::is_proper(
        #[trigger] items[i],
    ) by {
        lemma_token_detail_is_proper(notes[i]);
    }
    let pairs = service::redact_detail(tenant, notes)->Obj_0;
    assert(json_text::is_proper(Json::Arr(items)));
    assert forall|i: int| 0 <= i < pairs.len() implies json_text::is_proper(
        (#[trigger] pairs[i]).1,
    ) by {}
}

/// Registering a rule keeps the log in order, and its details proper.
pub proof fn lemma_registering_keeps_the_chain(room: Room, rule: MaskRule, ts: u64)
    requires
        service::chain_holds(room.audit),
        room.audit.len() <= u64::MAX,
    ensures
        service::chain_holds(service::registered(room, rule, ts).audit),
        details_proper(room.audit) ==> details_proper(service::registered(room, rule, ts).audit),
{
    lemma_rule_detail_is_proper(rule);
    lemma_logging_keeps_the_chain(
        Room { rules: service::with_rule(room.rules, rule), ..room },
        ts,
        "rule_register"@,
        service::rule_detail(rule),
    );
}

/// A rotation keeps the log in order, and its details proper.
pub proof fn lemma_rotating_keeps_the_chain(room: Room, to: u32, ts: u64)
    requires
        service::chain_holds(room.audit),
        room.audit.len() <= u64::MAX,
    ensures
        service::chain_holds(service::rotated(room, to, ts).audit),
        details_proper(room.audit) ==> details_proper(service::rotated(room, to, ts).audit),
{
    lemma_rotation_detail_is_proper(room.current_gen, to);
    lemma_logging_keeps_the_chain(
        Room { current_gen: to, ..room },
        ts,
        "rotate"@,
        service::rotation_detail(room.current_gen, to),
    );
}

/// Masking a text keeps the log in order, and its details proper.
pub proof fn lemma_masking_keeps_the_chain(
    room: Room,
    m: Means,
    s: Seq<char>,
    list: Seq<Hit>,
    masked_at: u64,
    logged_at: u64,
)
    requires
        service::chain_holds(room.audit),
        room.audit.len() <= u64::MAX,
    ensures
        service::chain_holds(
            service::redacted_room(room, m, s, list, masked_at, logged_at).audit,
        ),
        details_proper(room.audit) ==> details_proper(
            service::redacted_room(room, m, s, list, masked_at, logged_at).audit,
        ),
{
    lemma_redact_detail_is_proper(m.tenant, service::notes_for(m, list));
    let after = service::redacted_room(room, m, s, list, masked_at, logged_at);
    lemma_logging_keeps_the_chain(
        Room { mappings: after.mappings, redactions: after.redactions, ..room },
        logged_at,
        "redact"@,
        service::redact_detail(m.tenant, service::notes_for(m, list)),
    );
}

/// Asking for tokens keeps the log in order, and its details proper, and leaves one record for
/// each of them.
pub proof fn lemma_asking_keeps_the_chain(
    room: Room,
    gens: Seq<GenKey>,
    purpose: Seq<char>,
    tokens: Seq<Seq<char>>,
    times: Seq<u64>,
    n: int,
)
    requires
        service::chain_holds(room.audit),
        0 <= n,
        room.audit.len() + n <= u64::MAX,
    ensures
        service::chain_holds(
            service::asked_all(room, gens, purpose, tokens, times, n).audit,
        ),
        service::asked_all(room, gens, purpose, tokens, times, n).audit.len() == room.audit.len()
            + n,
        details_proper(room.audit) ==> details_proper(
            service::asked_all(room, gens, purpose, tokens, times, n).audit,
        ),
    decreases n,
{
    if n > 0 {
        lemma_restore_detail_is_proper(tokens[n - 1], purpose);
        lemma_asking_keeps_the_chain(room, gens, purpose, tokens, times, n - 1);
        let earlier = service::asked_all(room, gens, purpose, tokens, times, n - 1);
        lemma_logging_keeps_the_chain(
            earlier,
            times[n - 1],
            if service::restored_text(earlier, gens, tokens[n - 1]) is Some {
                "restore_ok"@
            } else {
                "restore_fail"@
            },
            service::restore_detail(tokens[n - 1], purpose),
        );
    }
}

/// The object that the hash of a record is taken over.
pub open spec fn object_of(r: LogRecord) -> Json {
    service::audit_object(r.seq, r.ts, r.kind, r.detail, r.prev_hash)
}

/// The bytes that the hash of a record is taken over.
pub open spec fn hashed_bytes(r: LogRecord) -> Seq<u8> {
    encode_utf8(canonical::canonical(object_of(r)))
}

/// No two records of the logs have the same hash but different bytes.
pub open spec fn no_collision(a: Seq<LogRecord>, b: Seq<LogRecord>) -> bool {
    forall|i: int, j: int|
        0 <= i < a.len() && 0 <= j < b.len() && crypto::sha256_of(hashed_bytes(#[trigger] a[i]))
            == crypto::sha256_of(hashed_bytes(#[trigger] b[j])) ==> hashed_bytes(a[i])
            == hashed_bytes(b[j])
}

/// The records say the same: they differ at most in the order of keys in the detail.
pub open spec fn says_the_same(a: LogRecord, b: LogRecord) -> bool {
    &&& a.seq == b.seq
    &&& a.ts == b.ts
    &&& a.kind == b.kind
    &&& canonical::normal(a.detail) == canonical::normal(b.detail)
    &&& a.prev_hash == b.prev_hash
    &&& a.hash == b.hash
}

proof fn lemma_object_is_proper(r: LogRecord)
    requires
        json_text::is_proper(r.detail),
    ensures
        json_text::is_proper(object_of(r)),
{
    reveal_strlit("seq");
    reveal_strlit("ts");
    reveal_strlit("kind");
    reveal_strlit("detail");
    reveal_strlit("prev_hash");
    json_text::lemma_decimal_is_notation(r.seq as nat);
    json_text::lemma_decimal_is_notation(r.ts as nat);
    assert("seq"@.len() == 3 && "ts"@.len() == 2 && "kind"@.len() == 4 && "detail"@.len() == 6
        && "prev_hash"@.len() == 9);
    let pairs = object_of(r)->Obj_0;
    assert forall|i: int| 0 <= i < pairs.len() implies json_text::is_proper(
        (#[trigger] pairs[i]).1,
    ) by {}
}

/// Records with the same bytes say the same but for the hash itself.
proof fn lemma_bytes_fix_record(a: LogRecord, b: LogRecord)
    requires
        json_text::is_proper(a.detail),
        json_text::is_proper(b.detail),
        hashed_bytes(a) == hashed_bytes(b),
    ensures
        a.seq == b.seq,
        a.ts == b.ts,
        a.kind == b.kind,
        canonical::normal(a.detail) == canonical::normal(b.detail),
        a.prev_hash == b.prev_hash,
{
    text::lemma_encoding_is_injective(
        canonical::canonical(object_of(a)),
        canonical::canonical(object_of(b)),
    );
    lemma_object_is_proper(a);
    lemma_object_is_proper(b);
    let p = object_of(a)->Obj_0;
    let q = object_of(b)->Obj_0;
    canonical::lemma_same_text_same_members(p, q);
    assert(canonical::normal(p[0].1) == canonical::normal(q[0].1));
    assert(canonical::normal(p[1].1) == canonical::normal(q[1].1));
    assert(canonical::normal(p[2].1) == canonical::normal(q[2].1));
    assert(canonical::normal(p[3].1) == canonical::normal(q[3].1));
    assert(canonical::normal(p[4].1) == canonical::normal(q[4].1));
    text::lemma_dec_reads_back(a.seq as nat);
    text::lemma_dec_reads_back(b.seq as nat);
    text::lemma_dec_reads_back(a.ts as nat);
    text::lemma_dec_reads_back(b.ts as nat);
}

proof fn lemma_history_from(a: Seq<LogRecord>, b: Seq<LogRecord>, n: int, k: int)
    requires
        0 < n <= a.len(),
        0 < k <= b.len(),
        service::chain_holds(a),
        service::chain_holds(b),
        details_proper(a),
        details_proper(b),
        no_collision(a, b),
        a[n - 1].hash == b[k - 1].hash,
    ensures
        n == k,
        forall|i: int| 0 <= i < n ==> says_the_same(#[trigger] a[i], b[i]),
    decreases n,
{
    let x = a[n - 1];
    let y = b[k - 1];
    assert(service::record_holds(a, n - 1));
    assert(service::record_holds(b, k - 1));
    let dx = crypto::sha256_of(hashed_bytes(x));
    let dy = crypto::sha256_of(hashed_bytes(y));
    crypto::lemma_hex_reads_back(dx);
    crypto::lemma_hex_reads_back(dy);
    assert(dx == dy);
    assert(hashed_bytes(x) == hashed_bytes(y));
    lemma_bytes_fix_record(x, y);
    assert(n == k);
    if n > 1 {
        lemma_history_from(a, b, n - 1, n - 1);
    }
    assert forall|i: int| 0 <= i < n implies says_the_same(#[trigger] a[i], b[i]) by {
        if i == n - 1 {
            assert(a[i] == x && b[i] == y);
        }
    }
}

/// The hash of the last record fixes the whole log: two logs in order that end in the same
/// hash have the same length and say the same in every place, unless SHA-256 collides on
/// them. So no record can be changed, inserted or taken out under a last hash that is known.
pub proof fn lemma_last_hash_fixes_the_log(a: Seq<LogRecord>, b: Seq<LogRecord>)
    requires
        a.len() > 0,
        b.len() > 0,
        service::chain_holds(a),
        service::chain_holds(b),
        details_proper(a),
        details_proper(b),
        no_collision(a, b),
        a.last().hash == b.last().hash,
    ensures
        a.len() == b.len(),
        forall|i: int| 0 <= i < a.len() ==> says_the_same(#[trigger] a[i], b[i]),
{
    lemma_history_from(a, b, a.len() as int, b.len() as int);
}

/// A stable rule gives the same token to the same text of the same tenant, whatever is drawn.
pub proof fn lemma_stable_rules_give_stable_tokens(
    master: Seq<u8>,
    tenant: Seq<char>,
    rules: Seq<MaskRule>,
    h: Hit,
    g: Hit,
    d: Draw,
    e: Draw,
)
    requires
        rules[h.rule].stable,
        g.rule == h.rule,
        g.matched == h.matched,
    ensures
        service::id_for(master, tenant, rules, h, d) == service::id_for(
            master,
            tenant,
            rules,
            g,
            e,
        ),
{
}

/// Whether two maskings give the same token to the same text under the same version of a rule.
/// A stable rule gives the same tenant the same token, whatever is drawn. Different tenants get
/// different tokens, and under a rule that is not stable different salts give different tokens,
/// unless tags clash.
pub proof fn lemma_tokens_of_two_maskings(
    m: Means,
    list: Seq<Hit>,
    i: int,
    m2: Means,
    list2: Seq<Hit>,
    j: int,
)
    requires
        0 <= i < list.len(),
        0 <= j < list2.len(),
        m.master == m2.master,
        m.rules[list[i].rule].id == m2.rules[list2[j].rule].id,
        m.rules[list[i].rule].version == m2.rules[list2[j].rule].version,
        m.rules[list[i].rule].stable == m2.rules[list2[j].rule].stable,
        list[i].matched == list2[j].matched,
    ensures
        m.rules[list[i].rule].stable && m.tenant == m2.tenant ==> service::ids_for(m, list)[i]
            == service::ids_for(m2, list2)[j],
        m.tenant != m2.tenant && !crypto::tags_clash(
            m.master,
            crypto::tenant_label(m.tenant),
            m.master,
            crypto::tenant_label(m2.tenant),
        ) && !inputs_clash(m, list[i], m.draws[i], m2, list2[j], m2.draws[j])
            ==> service::ids_for(m, list)[i] != service::ids_for(m2, list2)[j],
        m.tenant == m2.tenant && !m.rules[list[i].rule].stable && m.draws[i].salt@
            != m2.draws[j].salt@ && !inputs_clash(
            m,
            list[i],
            m.draws[i],
            m2,
            list2[j],
            m2.draws[j],
        ) ==> service::ids_for(m, list)[i] != service::ids_for(m2, list2)[j],
{
    let rule = m.rules[list[i].rule];
    let rule2 = m2.rules[list2[j].rule];
    let input = input_for(m, list[i], m.draws[i]);
    let input2 = input_for(m2, list2[j], m2.draws[j]);
    assert(service::ids_for(m, list)[i] == crypto::id_from(m.master, m.tenant, input));
    assert(service::ids_for(m2, list2)[j] == crypto::id_from(m.master, m2.tenant, input2));
    if m.tenant != m2.tenant {
        if !crypto::tags_clash(
            m.master,
            crypto::tenant_label(m.tenant),
            m.master,
            crypto::tenant_label(m2.tenant),
        ) && !inputs_clash(m, list[i], m.draws[i], m2, list2[j], m2.draws[j]) {
            crypto::lemma_tenants_get_different_ids(
                m.master,
                m.tenant,
                m2.tenant,
                input,
                input2,
            );
        }
    } else if !rule.stable && m.draws[i].salt@ != m2.draws[j].salt@ && !inputs_clash(
        m,
        list[i],
        m.draws[i],
        m2,
        list2[j],
        m2.draws[j],
    ) {
        crypto::lemma_salts_give_different_ids(
            m.master,
            m.tenant,
            rule.id,
            rule.version,
            list[i].matched,
            m.draws[i].salt@,
            m2.draws[j].salt@,
        );
    }
}

/// What the id of the token for a hit is derived from, beside the tenant.
pub open spec fn input_for(m: Means, h: Hit, d: Draw) -> Seq<u8> {
    let rule = m.rules[h.rule];
    crypto::token_input(rule.id, rule.version, h.matched, service::salt_for(rule, d))
}

/// The tags that the ids of two tokens are made of clash.
pub open spec fn inputs_clash(m: Means, h: Hit, d: Draw, m2: Means, h2: Hit, d2: Draw) -> bool {
    crypto::tags_clash(
        crypto::tenant_key_of(m.master, m.tenant),
        input_for(m, h, d),
        crypto::tenant_key_of(m2.master, m2.tenant),
        input_for(m2, h2, d2),
    )
}

/// Each token that is new when its turn comes adds one mapping, and each that is known adds
/// none.
pub proof fn lemma_new_tokens_add_one_mapping_each(
    mappings: Map<Seq<char>, Record>,
    m: Means,
    list: Seq<Hit>,
    k: int,
)
    requires
        mappings.dom().finite(),
        0 <= k < list.len(),
    ensures
        service::mapped(mappings, m, list, k).dom().finite(),
        service::mapped(mappings, m, list, k).dom().len() == service::mapped(
            mappings,
            m,
            list,
            k + 1,
        ).dom().len() + if service::is_new(mappings, m, list, k) {
            1int
        } else {
            0
        },
    decreases list.len() - k,
{
    if k + 1 < list.len() {
        lemma_new_tokens_add_one_mapping_each(mappings, m, list, k + 1);
    }
    let later = service::mapped(mappings, m, list, k + 1);
    let id = service::ids_for(m, list)[k];
    if service::is_new(mappings, m, list, k) {
        let now = later.insert(id, service::record_for(m, list, k));
        assert(service::mapped(mappings, m, list, k) == now);
        assert(now.dom() =~= later.dom().insert(id));
    }
}

/// Where nothing is accepted, the text and the mappings stay as they are.
pub proof fn lemma_nothing_accepted_changes_nothing(
    mappings: Map<Seq<char>, Record>,
    m: Means,
    s: Seq<char>,
)
    ensures
        service::masked_by(m, s, seq![]) == s,
        service::mapped(mappings, m, seq![], 0) == mappings,
{
    let none: Seq<Hit> = seq![];
    masking::lemma_nothing_masked(
        s,
        redaction_laws::cuts(none),
        service::tokens_for(m, none),
    );
    assert(redaction_laws::cuts(none).len() == 0);
}

/// Where every token is known already, no mapping is added.
pub proof fn lemma_known_tokens_add_nothing(
    mappings: Map<Seq<char>, Record>,
    m: Means,
    list: Seq<Hit>,
    k: int,
)
    requires
        0 <= k <= list.len(),
        forall|i: int|
            0 <= i < list.len() ==> mappings.contains_key(#[trigger] service::ids_for(m, list)[i]),
    ensures
        service::mapped(mappings, m, list, k) == mappings,
    decreases list.len() - k,
{
    if k < list.len() {
        lemma_known_tokens_add_nothing(mappings, m, list, k + 1);
        assert(mappings.contains_key(service::ids_for(m, list)[k]));
    }
}

/// Masking keeps every mapping that there was, has one for every token, and makes new ones
/// only for its tokens and only under the current generation.
pub proof fn lemma_mapping_adds_what_is_new(
    mappings: Map<Seq<char>, Record>,
    m: Means,
    list: Seq<Hit>,
    k: int,
)
    requires
        0 <= k <= list.len(),
    ensures
        forall|id: Seq<char>| #[trigger]
            mappings.contains_key(id) ==> service::mapped(mappings, m, list, k).contains_key(id)
                && service::mapped(mappings, m, list, k)[id] == mappings[id],
        forall|i: int|
            k <= i < list.len() ==> service::mapped(mappings, m, list, k).contains_key(
                #[trigger] service::ids_for(m, list)[i],
            ),
        forall|id: Seq<char>| #[trigger]
            service::mapped(mappings, m, list, k).contains_key(id) && !mappings.contains_key(id)
                ==> exists|i: int|
                {
                    &&& k <= i < list.len()
                    &&& #[trigger] service::is_new(mappings, m, list, i)
                    &&& id == service::ids_for(m, list)[i]
                    &&& service::mapped(mappings, m, list, k)[id] == service::record_for(
                        m,
                        list,
                        i,
                    )
                    &&& service::mapped(mappings, m, list, k)[id].gen == m.gen
                },
    decreases list.len() - k,
{
    if k < list.len() {
        lemma_mapping_adds_what_is_new(mappings, m, list, k + 1);
        let later = service::mapped(mappings, m, list, k + 1);
        let now = service::mapped(mappings, m, list, k);
        let new_id = service::ids_for(m, list)[k];
        assert forall|i: int| k <= i < list.len() implies now.contains_key(
            #[trigger] service::ids_for(m, list)[i],
        ) by {
            if i > k {
                assert(later.contains_key(service::ids_for(m, list)[i]));
            }
        }
        assert forall|id: Seq<char>| #[trigger]
            now.contains_key(id) && !mappings.contains_key(id) implies exists|i: int|
            {
                &&& k <= i < list.len()
                &&& #[trigger] service::is_new(mappings, m, list, i)
                &&& id == service::ids_for(m, list)[i]
                &&& now[id] == service::record_for(m, list, i)
                &&& now[id].gen == m.gen
            } by {
            if later.contains_key(id) {
                let i = choose|i: int|
                    {
                        &&& k + 1 <= i < list.len()
                        &&& #[trigger] service::is_new(mappings, m, list, i)
                        &&& id == service::ids_for(m, list)[i]
                        &&& later[id] == service::record_for(m, list, i)
                        &&& later[id].gen == m.gen
                    };
                assert(service::is_new(mappings, m, list, i));
                assert(now[id] == later[id]);
            } else {
                assert(id == new_id);
                assert(service::is_new(mappings, m, list, k));
            }
        }
    }
}

/// The id of a token is that of a fragment, under some salt.
pub open spec fn is_id_of(master: Seq<u8>, id: Seq<char>, o: Origin) -> bool {
    exists|salt: Seq<u8>|
        id == #[trigger] crypto::token_id_of(
            master,
            o.tenant,
            o.rule_id,
            o.version,
            o.matched,
            salt,
        )
}

/// Every mapping of the room stands under its own id, and holds a fragment of which this is
/// a token.
pub open spec fn well_kept(store: Store) -> bool {
    forall|id: Seq<char>| #[trigger]
        store.state@.mappings.contains_key(id) ==> {
            &&& store.state@.mappings[id].token_id == id
            &&& exists|o: Origin|
                is_id_of(store.keys.master@, id, o) && #[trigger] sealing::holds(
                    store.keys.generations@,
                    store.state@.mappings[id],
                    o,
                )
        }
}

/// A new room is well kept, and its log is in order.
pub proof fn lemma_new_rooms_are_well_kept(store: Store, gen: u32)
    requires
        store.state@ == state::empty_room(gen),
    ensures
        well_kept(store),
        service::chain_holds(store.state@.audit),
        details_proper(store.state@.audit),
{
}

/// What leaves the mappings and the keys alone keeps the room well kept, and every token
/// stands for what it stood for.
proof fn lemma_same_mappings(before: Store, after: Store)
    requires
        well_kept(before),
        after.keys == before.keys,
        after.state@.mappings == before.state@.mappings,
    ensures
        well_kept(after),
        forall|token: Seq<char>, o: Origin| #[trigger]
            service::stands_for(before, token, o) ==> service::stands_for(after, token, o),
{
}

/// Registering a rule keeps the room well kept, and every token stands for what it stood for.
pub proof fn lemma_registering_keeps_mappings_readable(
    before: Store,
    after: Store,
    rule: MaskRule,
    ts: u64,
)
    requires
        well_kept(before),
        after.keys == before.keys,
        after.state@ == service::registered(before.state@, rule, ts),
    ensures
        well_kept(after),
        forall|token: Seq<char>, o: Origin| #[trigger]
            service::stands_for(before, token, o) ==> service::stands_for(after, token, o),
{
    lemma_same_mappings(before, after);
}

/// Asking for tokens keeps the room well kept, and every token stands for what it stood for:
/// what was restored once can be restored again.
pub proof fn lemma_asking_keeps_mappings_readable(
    before: Store,
    after: Store,
    purpose: Seq<char>,
    tokens: Seq<Seq<char>>,
    times: Seq<u64>,
    n: int,
)
    requires
        well_kept(before),
        after.keys == before.keys,
        after.state@ == service::asked_all(
            before.state@,
            before.keys.generations@,
            purpose,
            tokens,
            times,
            n,
        ),
    ensures
        well_kept(after),
        forall|token: Seq<char>, o: Origin| #[trigger]
            service::stands_for(before, token, o) ==> service::stands_for(after, token, o),
{
    service::lemma_asking_changes_the_log(
        before.state@,
        before.keys.generations@,
        purpose,
        tokens,
        times,
        n,
    );
    lemma_same_mappings(before, after);
}

/// Masking a text keeps the room well kept, and every token stands for what it stood for.
pub proof fn lemma_masking_keeps_rooms_well_kept(
    before: Store,
    after: Store,
    tenant: Seq<char>,
    s: Seq<char>,
    outcome: RedactOutcome,
    draws: Seq<Draw>,
    masked_at: u64,
    logged_at: u64,
)
    requires
        well_kept(before),
        after.keys == before.keys,
        service::redact_refusal(before, tenant) is None,
        service::was_masked(before, after, tenant, s, outcome, draws, masked_at, logged_at),
    ensures
        well_kept(after),
        forall|token: Seq<char>, o: Origin| #[trigger]
            service::stands_for(before, token, o) ==> service::stands_for(after, token, o),
{
    lemma_masking_leaves(before, after, tenant, s, outcome, draws, masked_at, logged_at);
    let m = own_means(before, tenant, draws);
    let list = service::verdict(before.state@.rules, s).accepted;
    let old = before.state@.mappings;
    let new = after.state@.mappings;
    lemma_mapping_adds_what_is_new(old, m, list, 0);
    assert forall|id: Seq<char>| #[trigger] new.contains_key(id) implies {
        &&& new[id].token_id == id
        &&& exists|o: Origin|
            is_id_of(after.keys.master@, id, o) && #[trigger] sealing::holds(
                after.keys.generations@,
                new[id],
                o,
            )
    } by {
        if old.contains_key(id) {
            assert(new[id] == old[id]);
        } else {
            let i = choose|i: int|
                {
                    &&& 0 <= i < list.len()
                    &&& #[trigger] service::is_new(old, m, list, i)
                    &&& id == service::ids_for(m, list)[i]
                    &&& new[id] == service::record_for(m, list, i)
                    &&& new[id].gen == m.gen
                };
            lemma_new_record_holds(before, m, list, i);
            let o = service::origin_of(tenant, m.rules, list[i]);
            assert(sealing::holds(after.keys.generations@, new[id], o));
            assert(is_id_of(after.keys.master@, id, o));
        }
    }
    assert forall|token: Seq<char>, o: Origin| #[trigger]
        service::stands_for(before, token, o) implies service::stands_for(after, token, o) by {
        assert(old.contains_key(redaction::extracted(token)->0));
    }
}

/// A new record holds its fragment under the id of a token of it.
proof fn lemma_new_record_holds(before: Store, m: Means, list: Seq<Hit>, i: int)
    requires
        0 <= i < list.len(),
        m.gen == before.state@.current_gen,
        m.master == before.keys.master@,
        crypto::generation_key(before.keys.generations@, m.gen) == Some(m.key),
        service::is_new(before.state@.mappings, m, list, i),
        service::new_records_open(before.state@.mappings, m, list, 0),
    ensures
        sealing::holds(
            before.keys.generations@,
            service::record_for(m, list, i),
            service::origin_of(m.tenant, m.rules, list[i]),
        ),
        is_id_of(
            before.keys.master@,
            service::ids_for(m, list)[i],
            service::origin_of(m.tenant, m.rules, list[i]),
        ),
        service::record_for(m, list, i).token_id == service::ids_for(m, list)[i],
{
    let o = service::origin_of(m.tenant, m.rules, list[i]);
    let rule = m.rules[list[i].rule];
    let salt = service::salt_for(rule, m.draws[i]);
    assert(service::ids_for(m, list)[i] == crypto::token_id_of(
        m.master,
        o.tenant,
        o.rule_id,
        o.version,
        o.matched,
        salt,
    ));
}

/// The record of a token: the one that there was, or else the new one of a place `j` with the
/// same token.
proof fn lemma_record_comes_from(
    mappings: Map<Seq<char>, Record>,
    m: Means,
    list: Seq<Hit>,
    i: int,
) -> (j: int)
    requires
        0 <= i < list.len(),
    ensures
        ({
            let id = service::ids_for(m, list)[i];
            let now = service::mapped(mappings, m, list, 0);
            &&& now.contains_key(id)
            &&& mappings.contains_key(id) ==> now[id] == mappings[id]
            &&& !mappings.contains_key(id) ==> {
                &&& 0 <= j < list.len()
                &&& service::is_new(mappings, m, list, j)
                &&& service::ids_for(m, list)[j] == id
                &&& now[id] == service::record_for(m, list, j)
            }
        }),
{
    let id = service::ids_for(m, list)[i];
    let now = service::mapped(mappings, m, list, 0);
    lemma_mapping_adds_what_is_new(mappings, m, list, 0);
    assert(now.contains_key(id));
    choose|j: int|
        {
            &&& 0 <= j < list.len()
            &&& #[trigger] service::is_new(mappings, m, list, j)
            &&& id == service::ids_for(m, list)[j]
            &&& now[id] == service::record_for(m, list, j)
            &&& now[id].gen == m.gen
        }
}

/// What a text is masked with in a room, with the draws of its choice.
pub open spec fn own_means(before: Store, tenant: Seq<char>, draws: Seq<Draw>) -> Means {
    let key = crypto::generation_key(before.keys.generations@, before.state@.current_gen)->0;
    service::means_of(before, key, tenant, draws)
}

/// What masking noted of its tokens, and the mappings that it left.
proof fn lemma_masking_leaves(
    before: Store,
    after: Store,
    tenant: Seq<char>,
    s: Seq<char>,
    outcome: RedactOutcome,
    draws: Seq<Draw>,
    masked_at: u64,
    logged_at: u64,
)
    requires
        service::was_masked(before, after, tenant, s, outcome, draws, masked_at, logged_at),
    ensures
        ({
            let m = own_means(before, tenant, draws);
            let list = service::verdict(before.state@.rules, s).accepted;
            &&& outcome.tokens@.len() == list.len()
            &&& forall|i: int|
                0 <= i < list.len() ==> (#[trigger] outcome.tokens@[i])@ == service::notes_for(
                    m,
                    list,
                )[i]
            &&& after.state@.mappings == service::mapped(before.state@.mappings, m, list, 0)
            &&& service::new_records_open(before.state@.mappings, m, list, 0)
        }),
{
    reveal(service::masked_with);
    let m = own_means(before, tenant, draws);
    let list = service::verdict(before.state@.rules, s).accepted;
    assert(service::notes_of(outcome.tokens@) == service::notes_for(m, list));
    assert forall|i: int| 0 <= i < list.len() implies (#[trigger] outcome.tokens@[i])@
        == service::notes_for(m, list)[i] by {
        assert(service::notes_of(outcome.tokens@)[i] == outcome.tokens@[i]@);
    }
}

/// If the room has a record under the id, it holds this text.
pub open spec fn holds_at_most(store: Store, id: Seq<char>, matched: Seq<char>) -> bool {
    forall|o: Origin|
        store.state@.mappings.contains_key(id) && #[trigger] sealing::holds(
            store.keys.generations@,
            store.state@.mappings[id],
            o,
        ) ==> o.matched == matched
}

/// The id of the token at place `i` clashes with no other: a token of the outcome with the
/// same id is for the same text, and so is the record that the room had under the id.
pub open spec fn ids_stay_apart(before: Store, outcome: RedactOutcome, i: int) -> bool {
    let t = outcome.tokens@[i]@;
    &&& forall|j: int|
        0 <= j < outcome.tokens@.len() && (#[trigger] outcome.tokens@[j])@.token_id == t.token_id
            ==> outcome.tokens@[j]@.matched == t.matched
    &&& holds_at_most(before, t.token_id, t.matched)
}

/// The id can be read off a token.
proof fn lemma_token_names_its_id(m: Means, list: Seq<Hit>, i: int)
    requires
        0 <= i < list.len(),
    ensures
        redaction::extracted(service::tokens_for(m, list)[i]) == Some(
            service::ids_for(m, list)[i],
        ),
{
    let rule = m.rules[list[i].rule];
    let salt = service::salt_for(rule, m.draws[i]);
    let bytes = crypto::hmac_of(
        crypto::tenant_key_of(m.master, m.tenant),
        crypto::token_input(rule.id, rule.version, list[i].matched, salt),
    ).take(16);
    b64::lemma_decode_inverts_encode(bytes);
    redaction::lemma_extraction_inverts_making(service::ids_for(m, list)[i]);
}

/// A token whose record was kept stands for what the record holds.
proof fn lemma_kept_record_stands(
    before: Store,
    after: Store,
    id: Seq<char>,
    token: Seq<char>,
) -> (o: Origin)
    requires
        well_kept(before),
        after.keys == before.keys,
        before.state@.mappings.contains_key(id),
        after.state@.mappings.contains_key(id),
        after.state@.mappings[id] == before.state@.mappings[id],
        redaction::extracted(token) == Some(id),
    ensures
        sealing::holds(before.keys.generations@, before.state@.mappings[id], o),
        service::stands_for(after, token, o),
{
    choose|o: Origin|
        is_id_of(before.keys.master@, id, o) && #[trigger] sealing::holds(
            before.keys.generations@,
            before.state@.mappings[id],
            o,
        )
}

/// A token whose record is new stands for the fragment that the record was made for.
proof fn lemma_new_record_stands(
    before: Store,
    after: Store,
    m: Means,
    list: Seq<Hit>,
    j: int,
    token: Seq<char>,
) -> (o: Origin)
    requires
        0 <= j < list.len(),
        after.keys == before.keys,
        m.gen == before.state@.current_gen,
        m.master == before.keys.master@,
        crypto::generation_key(before.keys.generations@, m.gen) == Some(m.key),
        service::is_new(before.state@.mappings, m, list, j),
        service::new_records_open(before.state@.mappings, m, list, 0),
        after.state@.mappings.contains_key(service::ids_for(m, list)[j]),
        after.state@.mappings[service::ids_for(m, list)[j]] == service::record_for(m, list, j),
        redaction::extracted(token) == Some(service::ids_for(m, list)[j]),
    ensures
        o.matched == list[j].matched,
        service::stands_for(after, token, o),
{
    lemma_new_record_holds(before, m, list, j);
    service::origin_of(m.tenant, m.rules, list[j])
}

/// The token at place `i` stands for its fragment.
proof fn lemma_token_stands(before: Store, after: Store, m: Means, list: Seq<Hit>, i: int) -> (o:
    Origin)
    requires
        0 <= i < list.len(),
        well_kept(before),
        after.keys == before.keys,
        m.gen == before.state@.current_gen,
        m.master == before.keys.master@,
        crypto::generation_key(before.keys.generations@, m.gen) == Some(m.key),
        service::new_records_open(before.state@.mappings, m, list, 0),
        after.state@.mappings == service::mapped(before.state@.mappings, m, list, 0),
        forall|j: int|
            0 <= j < list.len() && #[trigger] service::ids_for(m, list)[j] == service::ids_for(
                m,
                list,
            )[i] ==> list[j].matched == list[i].matched,
        holds_at_most(before, service::ids_for(m, list)[i], list[i].matched),
    ensures
        o.matched == list[i].matched,
        service::stands_for(after, service::tokens_for(m, list)[i], o),
{
    let known = before.state@.mappings;
    let id = service::ids_for(m, list)[i];
    let token = service::tokens_for(m, list)[i];
    let j = lemma_record_comes_from(known, m, list, i);
    lemma_token_names_its_id(m, list, i);
    if known.contains_key(id) {
        lemma_kept_record_stands(before, after, id, token)
    } else {
        lemma_new_record_stands(before, after, m, list, j, token)
    }
}

/// The same, of the tokens that an outcome lists.
proof fn lemma_listed_token_stands(
    before: Store,
    after: Store,
    m: Means,
    list: Seq<Hit>,
    outcome: RedactOutcome,
    i: int,
) -> (o: Origin)
    requires
        0 <= i < list.len(),
        well_kept(before),
        after.keys == before.keys,
        m.gen == before.state@.current_gen,
        m.master == before.keys.master@,
        crypto::generation_key(before.keys.generations@, m.gen) == Some(m.key),
        service::new_records_open(before.state@.mappings, m, list, 0),
        after.state@.mappings == service::mapped(before.state@.mappings, m, list, 0),
        outcome.tokens@.len() == list.len(),
        forall|k: int|
            0 <= k < list.len() ==> (#[trigger] outcome.tokens@[k])@ == service::notes_for(
                m,
                list,
            )[k],
        ids_stay_apart(before, outcome, i),
    ensures
        o.matched == outcome.tokens@[i].matched@,
        service::stands_for(after, outcome.tokens@[i].token@, o),
{
    assert(outcome.tokens@[i]@ == service::notes_for(m, list)[i]);
    assert forall|j: int|
        0 <= j < list.len() && #[trigger] service::ids_for(m, list)[j] == service::ids_for(
            m,
            list,
        )[i] implies list[j].matched == list[i].matched by {
        assert(outcome.tokens@[j]@ == service::notes_for(m, list)[j]);
    }
    lemma_token_stands(before, after, m, list, i)
}

/// After a text was masked, each of its tokens stands for the fragment that it replaced, so
/// that restoring it gives the fragment back, unless its id clashes with that of another text.
pub proof fn lemma_tokens_stand_for_their_fragments(
    before: Store,
    after: Store,
    tenant: Seq<char>,
    s: Seq<char>,
    outcome: RedactOutcome,
    draws: Seq<Draw>,
    masked_at: u64,
    logged_at: u64,
    i: int,
)
    requires
        well_kept(before),
        after.keys == before.keys,
        service::redact_refusal(before, tenant) is None,
        service::was_masked(before, after, tenant, s, outcome, draws, masked_at, logged_at),
        0 <= i < outcome.tokens@.len(),
        ids_stay_apart(before, outcome, i),
    ensures
        exists|o: Origin| #[trigger]
            service::stands_for(after, outcome.tokens@[i].token@, o) && o.matched
                == outcome.tokens@[i].matched@,
{
    lemma_masking_leaves(before, after, tenant, s, outcome, draws, masked_at, logged_at);
    let m = own_means(before, tenant, draws);
    let list = service::verdict(before.state@.rules, s).accepted;
    let o = lemma_listed_token_stands(before, after, m, list, outcome, i);
}

/// A rotation keeps the room well kept, and every token stands for what it stood for.
pub proof fn lemma_rotation_keeps_mappings_readable(before: Store, after: Store, to: u32, ts: u64)
    requires
        well_kept(before),
        after.state@ == service::rotated(before.state@, to, ts),
        after.keys.master@ == before.keys.master@,
        to == crypto::top_id(before.keys.generations@) + 1,
        forall|id: u32|
            id != to ==> #[trigger] crypto::generation_key(after.keys.generations@, id)
                == crypto::generation_key(before.keys.generations@, id),
    ensures
        well_kept(after),
        forall|token: Seq<char>, o: Origin| #[trigger]
            service::stands_for(before, token, o) ==> service::stands_for(after, token, o),
{
    crypto::lemma_next_generation_is_free(before.keys.generations@, to);
    assert forall|r: Record, o: Origin|
        sealing::holds(before.keys.generations@, r, o) implies #[trigger] sealing::holds(
        after.keys.generations@,
        r,
        o,
    ) by {
        assert(r.gen != to);
        assert(crypto::generation_key(after.keys.generations@, r.gen) == crypto::generation_key(
            before.keys.generations@,
            r.gen,
        ));
    }
    let old = before.state@.mappings;
    assert(after.state@.mappings == old);
    assert forall|id: Seq<char>| #[trigger] old.contains_key(id) implies {
        &&& old[id].token_id == id
        &&& exists|o: Origin|
            is_id_of(after.keys.master@, id, o) && #[trigger] sealing::holds(
                after.keys.generations@,
                old[id],
                o,
            )
    } by {
        let o = choose|o: Origin|
            is_id_of(before.keys.master@, id, o) && #[trigger] sealing::holds(
                before.keys.generations@,
                old[id],
                o,
            );
        assert(sealing::holds(after.keys.generations@, old[id], o));
    }
    assert forall|token: Seq<char>, o: Origin| #[trigger]
        service::stands_for(before, token, o) implies service::stands_for(after, token, o) by {
        let id = redaction::extracted(token)->0;
        assert(sealing::holds(after.keys.generations@, old[id], o));
    }
}

/// Tokens that cannot be restored are all answered alike: nothing tells a malformed one from
/// an unknown one or from someone else's.
pub proof fn lemma_refusals_are_alike(
    room: Room,
    gens: Seq<GenKey>,
    token: Seq<char>,
    other: Seq<char>,
)
    requires
        service::restored_text(room, gens, token) is None,
        service::restored_text(room, gens, other) is None,
    ensures
        service::answer_to(room, gens, token).ok == service::answer_to(room, gens, other).ok,
        service::answer_to(room, gens, token).text == service::answer_to(room, gens, other).text,
        service::answer_to(room, gens, token).error == service::answer_to(
            room,
            gens,
            other,
        ).error,
        service::answer_to(room, gens, token).error == Some(service::RESTORE_ERROR@),
{
}

}
