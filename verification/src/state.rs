//! What a room holds: rules, encrypted mappings, the audit log and the masked texts.

use crate::crypto::KeyFile;
use crate::json::{Json, Value};
use crate::text;
use vstd::prelude::*;
use vstd::string::*;

verus! {

broadcast use vstd::seq::group_seq_axioms;

/// How the pattern of a rule is read.
#[derive(Clone, Copy, Debug, PartialEq, Eq, Structural)]
pub enum MatchKind {
    Literal,
    Regex,
}

impl Default for MatchKind {
    fn default() -> (r: Self)
        ensures
            r == MatchKind::Literal,
    {
        MatchKind::Literal
    }
}

/// The version of a rule that names none.
pub fn default_version() -> (r: u32)
    ensures
        r == 1,
{
    1
}

/// Rules are stable unless they say otherwise.
pub fn default_stable() -> (r: bool)
    ensures
        r,
{
    true
}

/// A masking rule.
#[derive(Debug)]
pub struct Rule {
    pub id: String,
    pub version: u32,
    pub kind: MatchKind,
    pub pattern: String,
    pub priority: i32,
    pub description: String,
    /// Whether the same tenant, rule version and text give the same token, or a new one each
    /// time.
    pub stable: bool,
}

/// The mathematical form of a `Rule`.
pub struct MaskRule {
    pub id: Seq<char>,
    pub version: u32,
    pub kind: MatchKind,
    pub pattern: Seq<char>,
    pub priority: i32,
    pub description: Seq<char>,
    pub stable: bool,
}

impl View for Rule {
    type V = MaskRule;

    open spec fn view(&self) -> MaskRule {
        MaskRule {
            id: self.id@,
            version: self.version,
            kind: self.kind,
            pattern: self.pattern@,
            priority: self.priority,
            description: self.description@,
            stable: self.stable,
        }
    }
}

impl Clone for Rule {
    fn clone(&self) -> (r: Self)
        ensures
            r@ == self@,
    {
        Rule {
            id: self.id.clone(),
            version: self.version,
            kind: self.kind,
            pattern: self.pattern.clone(),
            priority: self.priority,
            description: self.description.clone(),
            stable: self.stable,
        }
    }
}

/// The rules of a list.
pub open spec fn rules_of(list: Seq<Rule>) -> Seq<MaskRule> {
    list.map_values(|r: Rule| r@)
}

/// What a token stands for, encrypted under the key of a generation.
#[derive(Debug)]
pub struct MappingRecord {
    pub token_id: String,
    pub gen: u32,
    pub nonce_b64: String,
    pub ciphertext_b64: String,
    pub created_ms: u64,
}

/// The mathematical form of a `MappingRecord`.
pub struct Record {
    pub token_id: Seq<char>,
    pub gen: u32,
    pub nonce_b64: Seq<char>,
    pub ciphertext_b64: Seq<char>,
    pub created_ms: u64,
}

impl View for MappingRecord {
    type V = Record;

    open spec fn view(&self) -> Record {
        Record {
            token_id: self.token_id@,
            gen: self.gen,
            nonce_b64: self.nonce_b64@,
            ciphertext_b64: self.ciphertext_b64@,
            created_ms: self.created_ms,
        }
    }
}

impl Clone for MappingRecord {
    fn clone(&self) -> (r: Self)
        ensures
            r@ == self@,
    {
        MappingRecord {
            token_id: self.token_id.clone(),
            gen: self.gen,
            nonce_b64: self.nonce_b64.clone(),
            ciphertext_b64: self.ciphertext_b64.clone(),
            created_ms: self.created_ms,
        }
    }
}

/// A record of the audit log.
#[derive(Debug)]
pub struct AuditRecord {
    pub seq: u64,
    pub ts: u64,
    pub kind: String,
    pub detail: Value,
    pub prev_hash: String,
    pub hash: String,
}

/// The mathematical form of an `AuditRecord`.
pub struct LogRecord {
    pub seq: u64,
    pub ts: u64,
    pub kind: Seq<char>,
    pub detail: Json,
    pub prev_hash: Seq<char>,
    pub hash: Seq<char>,
}

impl View for AuditRecord {
    type V = LogRecord;

    open spec fn view(&self) -> LogRecord {
        LogRecord {
            seq: self.seq,
            ts: self.ts,
            kind: self.kind@,
            detail: self.detail.json(),
            prev_hash: self.prev_hash@,
            hash: self.hash@,
        }
    }
}

impl Clone for AuditRecord {
    fn clone(&self) -> (r: Self)
        ensures
            r@ == self@,
    {
        AuditRecord {
            seq: self.seq,
            ts: self.ts,
            kind: self.kind.clone(),
            detail: self.detail.clone(),
            prev_hash: self.prev_hash.clone(),
            hash: self.hash.clone(),
        }
    }
}

/// The records of a log.
pub open spec fn log_of(list: Seq<AuditRecord>) -> Seq<LogRecord> {
    list.map_values(|r: AuditRecord| r@)
}

/// A text that was masked. The text before masking is not kept.
#[derive(Debug)]
pub struct RedactionEntry {
    pub tenant: String,
    pub redacted_text: String,
    pub token_ids: Vec<String>,
    pub ts: u64,
}

/// The mathematical form of a `RedactionEntry`.
pub struct Redaction {
    pub tenant: Seq<char>,
    pub redacted_text: Seq<char>,
    pub token_ids: Seq<Seq<char>>,
    pub ts: u64,
}

/// The texts of a list of strings.
pub open spec fn texts_of(list: Seq<String>) -> Seq<Seq<char>> {
    list.map_values(|s: String| s@)
}

impl View for RedactionEntry {
    type V = Redaction;

    open spec fn view(&self) -> Redaction {
        Redaction {
            tenant: self.tenant@,
            redacted_text: self.redacted_text@,
            token_ids: texts_of(self.token_ids@),
            ts: self.ts,
        }
    }
}

/// A copy of a list of strings.
pub fn copy_texts(list: &Vec<String>) -> (r: Vec<String>)
    ensures
        texts_of(r@) == texts_of(list@),
{
    let mut out: Vec<String> = Vec::new();
    let mut i: usize = 0;
    assert(texts_of(out@) =~= texts_of(list@).take(0));
    while i < list.len()
        invariant
            i <= list@.len(),
            texts_of(out@) == texts_of(list@).take(i as int),
        decreases list@.len() - i,
    {
        let ghost done = out@;
        out.push(list[i].clone());
        i = i + 1;
        assert(texts_of(out@) =~= texts_of(done).push(list@[i - 1]@));
        assert(texts_of(out@) =~= texts_of(list@).take(i as int));
    }
    assert(texts_of(list@).take(i as int) =~= texts_of(list@));
    out
}

impl Clone for RedactionEntry {
    fn clone(&self) -> (r: Self)
        ensures
            r@ == self@,
    {
        RedactionEntry {
            tenant: self.tenant.clone(),
            redacted_text: self.redacted_text.clone(),
            token_ids: copy_texts(&self.token_ids),
            ts: self.ts,
        }
    }
}

/// The masked texts of a list.
pub open spec fn redactions_of(list: Seq<RedactionEntry>) -> Seq<Redaction> {
    list.map_values(|r: RedactionEntry| r@)
}

/// The ids come in the order of texts, and none comes twice.
pub open spec fn ascending(ids: Seq<String>) -> bool {
    forall|i: int, j: int|
        0 <= i < j < ids.len() ==> text::text_before((#[trigger] ids[i])@, (#[trigger] ids[j])@)
}

/// The records under their ids.
pub open spec fn under_ids(ids: Seq<String>, records: Seq<MappingRecord>) -> Map<Seq<char>, Record>
    decreases ids.len(),
{
    if ids.len() == 0 {
        Map::empty()
    } else {
        under_ids(ids.drop_last(), records.drop_last()).insert(ids.last()@, records.last()@)
    }
}

proof fn lemma_ascending_differ(ids: Seq<String>, i: int, j: int)
    requires
        ascending(ids),
        0 <= i < ids.len(),
        0 <= j < ids.len(),
        i != j,
    ensures
        ids[i]@ != ids[j]@,
{
    text::lemma_text_before_is_total_order(ids[i]@, ids[j]@, ids[i]@);
    if i < j {
        assert(text::text_before(ids[i]@, ids[j]@));
    } else {
        assert(text::text_before(ids[j]@, ids[i]@));
    }
}

proof fn lemma_under_ids(ids: Seq<String>, records: Seq<MappingRecord>)
    requires
        ascending(ids),
        ids.len() == records.len(),
    ensures
        under_ids(ids, records).dom().finite(),
        under_ids(ids, records).len() == ids.len(),
        forall|i: int|
            0 <= i < ids.len() ==> under_ids(ids, records).contains_key((#[trigger] ids[i])@)
                && under_ids(ids, records)[ids[i]@] == records[i]@,
        forall|k: Seq<char>| #[trigger]
            under_ids(ids, records).contains_key(k) ==> exists|i: int|
                0 <= i < ids.len() && (#[trigger] ids[i])@ == k,
    decreases ids.len(),
{
    if ids.len() > 0 {
        let front = ids.drop_last();
        let before = under_ids(front, records.drop_last());
        let all = under_ids(ids, records);
        let last = ids.last()@;
        assert forall|i: int, j: int| 0 <= i < j < front.len() implies text::text_before(
            (#[trigger] front[i])@,
            (#[trigger] front[j])@,
        ) by {
            assert(front[i] == ids[i] && front[j] == ids[j]);
        }
        lemma_under_ids(front, records.drop_last());
        assert(!before.contains_key(last)) by {
            if before.contains_key(last) {
                let i = choose|i: int| 0 <= i < front.len() && (#[trigger] front[i])@ == last;
                lemma_ascending_differ(ids, i, ids.len() - 1);
            }
        }
        assert forall|i: int| 0 <= i < ids.len() implies all.contains_key((#[trigger] ids[i])@)
            && all[ids[i]@] == records[i]@ by {
            if i < front.len() {
                assert(front[i] == ids[i]);
                lemma_ascending_differ(ids, i, ids.len() - 1);
                assert(records.drop_last()[i] == records[i]);
            }
        }
        assert forall|k: Seq<char>| #[trigger] all.contains_key(k) implies exists|i: int|
            0 <= i < ids.len() && (#[trigger] ids[i])@ == k by {
            if k == last {
                assert(ids[ids.len() - 1]@ == k);
            } else {
                let i = choose|i: int| 0 <= i < front.len() && (#[trigger] front[i])@ == k;
                assert(ids[i]@ == k);
            }
        }
    }
}

/// A record in place of the one that stood under the id.
proof fn lemma_record_replaced(
    ids: Seq<String>,
    records: Seq<MappingRecord>,
    i: int,
    record: MappingRecord,
)
    requires
        ascending(ids),
        ids.len() == records.len(),
        0 <= i < ids.len(),
    ensures
        under_ids(ids, records.update(i, record)) == under_ids(ids, records).insert(
            ids[i]@,
            record@,
        ),
{
    let more = records.update(i, record);
    let now = under_ids(ids, more);
    let wanted = under_ids(ids, records).insert(ids[i]@, record@);
    lemma_under_ids(ids, records);
    lemma_under_ids(ids, more);
    assert forall|k: Seq<char>| now.contains_key(k) == wanted.contains_key(k) && (now.contains_key(
        k,
    ) ==> now[k] == wanted[k]) by {
        if now.contains_key(k) {
            let a = choose|a: int| 0 <= a < ids.len() && (#[trigger] ids[a])@ == k;
            assert(under_ids(ids, records).contains_key(ids[a]@));
            if a != i {
                lemma_ascending_differ(ids, a, i);
            }
        }
        if wanted.contains_key(k) && k != ids[i]@ {
            let a = choose|a: int| 0 <= a < ids.len() && (#[trigger] ids[a])@ == k;
            assert(now.contains_key(ids[a]@));
        }
    }
    assert(now =~= wanted);
}

/// A new id between those before it and those behind it keeps the order.
proof fn lemma_insertion_keeps_order(ids: Seq<String>, i: int, id: String)
    requires
        ascending(ids),
        0 <= i <= ids.len(),
        forall|k: int| 0 <= k < i ==> text::text_before((#[trigger] ids[k])@, id@),
        i < ids.len() ==> text::text_before(id@, ids[i]@),
    ensures
        ascending(ids.insert(i, id)),
{
    let more = ids.insert(i, id);
    assert forall|a: int, b: int| 0 <= a < b < more.len() implies text::text_before(
        (#[trigger] more[a])@,
        (#[trigger] more[b])@,
    ) by {
        let x = if a < i {
            a
        } else {
            a - 1
        };
        let y = if b < i {
            b
        } else {
            b - 1
        };
        if a == i {
            assert(more[b] == ids[y]);
            if y > i {
                assert(text::text_before(ids[i]@, ids[y]@));
                text::lemma_text_before_is_total_order(id@, ids[i]@, ids[y]@);
            }
        } else if b == i {
            assert(more[a] == ids[a]);
        } else {
            assert(more[a] == ids[x] && more[b] == ids[y]);
        }
    }
}

/// A new id with its record.
proof fn lemma_record_added(
    ids: Seq<String>,
    records: Seq<MappingRecord>,
    i: int,
    id: String,
    record: MappingRecord,
)
    requires
        ascending(ids),
        ascending(ids.insert(i, id)),
        ids.len() == records.len(),
        0 <= i <= ids.len(),
    ensures
        under_ids(ids.insert(i, id), records.insert(i, record)) == under_ids(
            ids,
            records,
        ).insert(id@, record@),
{
    let more = ids.insert(i, id);
    let list = records.insert(i, record);
    let now = under_ids(more, list);
    let wanted = under_ids(ids, records).insert(id@, record@);
    lemma_under_ids(ids, records);
    lemma_under_ids(more, list);
    assert(more[i] == id && list[i] == record);
    assert forall|k: Seq<char>| #[trigger] now.contains_key(k) implies wanted.contains_key(k)
        && now[k] == wanted[k] by {
        let a = choose|a: int| 0 <= a < more.len() && (#[trigger] more[a])@ == k;
        assert(now[more[a]@] == list[a]@);
        if a != i {
            let x = if a < i {
                a
            } else {
                a - 1
            };
            lemma_ascending_differ(more, a, i);
            assert(more[a] == ids[x] && list[a] == records[x]);
            assert(under_ids(ids, records).contains_key(ids[x]@));
        }
    }
    assert forall|k: Seq<char>| #[trigger] wanted.contains_key(k) implies now.contains_key(k) by {
        if k == id@ {
            assert(now.contains_key(more[i]@));
        } else {
            assert(under_ids(ids, records).contains_key(k));
            let x = choose|x: int| 0 <= x < ids.len() && (#[trigger] ids[x])@ == k;
            let a = if x < i {
                x
            } else {
                x + 1
            };
            assert(more[a] == ids[x]);
            assert(now.contains_key(more[a]@));
        }
    }
    assert(now.dom() =~= wanted.dom());
    assert(now =~= wanted);
}

/// The encrypted mappings under their ids, in the order of the ids.
#[derive(Debug)]
pub struct Mappings {
    ids: Vec<String>,
    records: Vec<MappingRecord>,
}

impl View for Mappings {
    type V = Map<Seq<char>, Record>;

    closed spec fn view(&self) -> Map<Seq<char>, Record> {
        under_ids(self.ids@, self.records@)
    }
}

impl Mappings {
    #[verifier::type_invariant]
    spec fn inv(&self) -> bool {
        ascending(self.ids@) && self.ids@.len() == self.records@.len()
    }

    /// No mappings.
    pub fn new() -> (r: Self)
        ensures
            r@ == Map::<Seq<char>, Record>::empty(),
    {
        Mappings { ids: Vec::new(), records: Vec::new() }
    }

    /// How many mappings there are.
    pub fn len(&self) -> (r: usize)
        ensures
            self@.dom().finite(),
            r == self@.len(),
    {
        proof {
            use_type_invariant(self);
            lemma_under_ids(self.ids@, self.records@);
        }
        self.ids.len()
    }

    /// The first place whose id does not come before the given one.
    fn place_of(&self, id: &str) -> (r: usize)
        ensures
            r <= self.ids@.len(),
            forall|k: int| 0 <= k < r ==> text::text_before((#[trigger] self.ids@[k])@, id@),
            r < self.ids@.len() ==> !text::text_before(self.ids@[r as int]@, id@),
    {
        let mut i: usize = 0;
        while i < self.ids.len() && text::precedes(self.ids[i].as_str(), id)
            invariant
                i <= self.ids@.len(),
                forall|k: int| 0 <= k < i ==> text::text_before((#[trigger] self.ids@[k])@, id@),
            decreases self.ids@.len() - i,
        {
            i = i + 1;
        }
        i
    }

    fn position(&self, id: &str) -> (r: Option<usize>)
        ensures
            match r {
                Some(i) => i < self.records@.len() && self@.contains_key(id@) && self@[id@]
                    == self.records@[i as int]@,
                None => !self@.contains_key(id@),
            },
    {
        proof {
            use_type_invariant(self);
            lemma_under_ids(self.ids@, self.records@);
        }
        let i: usize = self.place_of(id);
        if i < self.ids.len() && text::same_text(self.ids[i].as_str(), id) {
            assert(self@.contains_key(self.ids@[i as int]@));
            return Some(i);
        }
        proof {
            if self@.contains_key(id@) {
                let k = choose|k: int| 0 <= k < self.ids@.len() && (#[trigger] self.ids@[k])@ == id@;
                text::lemma_text_before_is_total_order(id@, id@, id@);
                if k > i {
                    assert(text::text_before(self.ids@[i as int]@, self.ids@[k]@));
                }
            }
        }
        None
    }

    /// Whether there is a mapping under an id.
    pub fn contains_key(&self, token_id: &str) -> (r: bool)
        ensures
            r == self@.contains_key(token_id@),
    {
        self.position(token_id).is_some()
    }

    /// The mapping under an id.
    pub fn get(&self, token_id: &str) -> (r: Option<&MappingRecord>)
        ensures
            match r {
                Some(m) => self@.contains_key(token_id@) && self@[token_id@] == m@,
                None => !self@.contains_key(token_id@),
            },
    {
        match self.position(token_id) {
            Some(i) => Some(&self.records[i]),
            None => None,
        }
    }

    /// Puts a mapping in under an id, in place of the one that was there.
    pub fn put(&mut self, id: String, record: MappingRecord)
        ensures
            final(self)@ == old(self)@.insert(id@, record@),
    {
        proof {
            use_type_invariant(&*self);
        }
        let i: usize = self.place_of(id.as_str());
        let mut whole: Mappings = Mappings::new();
        std::mem::swap(self, &mut whole);
        let Mappings { mut ids, mut records } = whole;
        let ghost names = ids@;
        let ghost list = records@;
        if i < ids.len() && text::same_text(ids[i].as_str(), id.as_str()) {
            proof {
                lemma_record_replaced(names, list, i as int, record);
            }
            records.set(i, record);
        } else {
            proof {
                if i < names.len() {
                    text::lemma_text_before_is_total_order(names[i as int]@, id@, id@);
                }
                lemma_insertion_keeps_order(names, i as int, id);
                lemma_record_added(names, list, i as int, id, record);
            }
            ids.insert(i, id);
            records.insert(i, record);
        }
        *self = Mappings { ids, records };
    }

    /// Puts a mapping in under the id of its token, in place of the one that was there.
    pub fn insert(&mut self, record: MappingRecord)
        ensures
            final(self)@ == old(self)@.insert(record.token_id@, record@),
    {
        self.put(record.token_id.clone(), record);
    }

    /// The ids of the mappings.
    pub closed spec fn id_list(&self) -> Seq<String> {
        self.ids@
    }

    /// The ids, in order.
    pub fn ids(&self) -> (r: &Vec<String>)
        ensures
            r@ == self.id_list(),
            ascending(r@),
    {
        proof {
            use_type_invariant(self);
        }
        &self.ids
    }

    /// The mappings, in the order of their ids.
    pub fn records(&self) -> (r: &Vec<MappingRecord>)
        ensures
            r@.len() == self.id_list().len(),
            under_ids(self.id_list(), r@) == self@,
    {
        proof {
            use_type_invariant(self);
        }
        &self.records
    }
}

impl Clone for Mappings {
    fn clone(&self) -> (r: Self)
        ensures
            r@ == self@,
    {
        proof {
            use_type_invariant(self);
        }
        let mut ids: Vec<String> = Vec::new();
        let mut records: Vec<MappingRecord> = Vec::new();
        let mut i: usize = 0;
        while i < self.ids.len()
            invariant
                i <= self.ids@.len(),
                self.ids@.len() == self.records@.len(),
                ids@.len() == i,
                records@.len() == i,
                forall|k: int| 0 <= k < i ==> (#[trigger] ids@[k])@ == self.ids@[k]@,
                forall|k: int| 0 <= k < i ==> (#[trigger] records@[k])@ == self.records@[k]@,
            decreases self.ids@.len() - i,
        {
            ids.push(self.ids[i].clone());
            records.push(self.records[i].clone());
            i = i + 1;
        }
        proof {
            assert forall|a: int, b: int| 0 <= a < b < ids@.len() implies text::text_before(
                (#[trigger] ids@[a])@,
                (#[trigger] ids@[b])@,
            ) by {
                assert(text::text_before(self.ids@[a]@, self.ids@[b]@));
            }
            lemma_copies_under_ids(ids@, records@, self.ids@, self.records@);
        }
        Mappings { ids, records }
    }
}

proof fn lemma_copies_under_ids(
    ids: Seq<String>,
    records: Seq<MappingRecord>,
    ids2: Seq<String>,
    records2: Seq<MappingRecord>,
)
    requires
        ids.len() == ids2.len() == records.len() == records2.len(),
        forall|k: int| 0 <= k < ids.len() ==> (#[trigger] ids[k])@ == ids2[k]@,
        forall|k: int| 0 <= k < records.len() ==> (#[trigger] records[k])@ == records2[k]@,
    ensures
        under_ids(ids, records) == under_ids(ids2, records2),
    decreases ids.len(),
{
    if ids.len() > 0 {
        assert forall|k: int| 0 <= k < ids.drop_last().len() implies (#[trigger] ids.drop_last()[k])@
            == ids2.drop_last()[k]@ by {
            assert(ids.drop_last()[k] == ids[k]);
        }
        assert forall|k: int| 0 <= k < records.drop_last().len() implies (
        #[trigger] records.drop_last()[k])@ == records2.drop_last()[k]@ by {
            assert(records.drop_last()[k] == records[k]);
        }
        lemma_copies_under_ids(
            ids.drop_last(),
            records.drop_last(),
            ids2.drop_last(),
            records2.drop_last(),
        );
        assert(ids[ids.len() - 1]@ == ids2[ids2.len() - 1]@);
        assert(records[records.len() - 1]@ == records2[records2.len() - 1]@);
    }
}

/// The state of a room.
#[derive(Debug)]
pub struct State {
    pub rules: Vec<Rule>,
    pub current_gen: u32,
    pub mappings: Mappings,
    pub audit: Vec<AuditRecord>,
    pub redactions: Vec<RedactionEntry>,
}

/// The mathematical form of a `State`.
pub struct Room {
    pub rules: Seq<MaskRule>,
    pub current_gen: u32,
    pub mappings: Map<Seq<char>, Record>,
    pub audit: Seq<LogRecord>,
    pub redactions: Seq<Redaction>,
}

impl View for State {
    type V = Room;

    open spec fn view(&self) -> Room {
        Room {
            rules: rules_of(self.rules@),
            current_gen: self.current_gen,
            mappings: self.mappings@,
            audit: log_of(self.audit@),
            redactions: redactions_of(self.redactions@),
        }
    }
}

/// An empty room whose current generation is `gen`.
pub open spec fn empty_room(gen: u32) -> Room {
    Room {
        rules: seq![],
        current_gen: gen,
        mappings: Map::empty(),
        audit: seq![],
        redactions: seq![],
    }
}

impl Default for State {
    fn default() -> (r: Self)
        ensures
            r@ == empty_room(0),
    {
        let r: State = State {
            rules: Vec::new(),
            current_gen: 0,
            mappings: Mappings::new(),
            audit: Vec::new(),
            redactions: Vec::new(),
        };
        proof {
            assert(r@.rules =~= seq![]);
            assert(r@.audit =~= seq![]);
            assert(r@.redactions =~= seq![]);
        }
        r
    }
}

/// A copy of a list of rules.
pub fn copy_rules(list: &Vec<Rule>) -> (r: Vec<Rule>)
    ensures
        rules_of(r@) == rules_of(list@),
{
    let mut out: Vec<Rule> = Vec::new();
    let mut i: usize = 0;
    assert(rules_of(out@) =~= rules_of(list@).take(0));
    while i < list.len()
        invariant
            i <= list@.len(),
            rules_of(out@) == rules_of(list@).take(i as int),
        decreases list@.len() - i,
    {
        let ghost done = out@;
        out.push(list[i].clone());
        i = i + 1;
        assert(rules_of(out@) =~= rules_of(done).push(list@[i - 1]@));
        assert(rules_of(out@) =~= rules_of(list@).take(i as int));
    }
    assert(rules_of(list@).take(i as int) =~= rules_of(list@));
    out
}

/// A copy of a list of masked texts.
pub fn copy_redactions(list: &Vec<RedactionEntry>) -> (r: Vec<RedactionEntry>)
    ensures
        redactions_of(r@) == redactions_of(list@),
{
    let mut out: Vec<RedactionEntry> = Vec::new();
    let mut i: usize = 0;
    assert(redactions_of(out@) =~= redactions_of(list@).take(0));
    while i < list.len()
        invariant
            i <= list@.len(),
            redactions_of(out@) == redactions_of(list@).take(i as int),
        decreases list@.len() - i,
    {
        let ghost done = out@;
        out.push(list[i].clone());
        i = i + 1;
        assert(redactions_of(out@) =~= redactions_of(done).push(list@[i - 1]@));
        assert(redactions_of(out@) =~= redactions_of(list@).take(i as int));
    }
    assert(redactions_of(list@).take(i as int) =~= redactions_of(list@));
    out
}

fn copy_log(list: &Vec<AuditRecord>) -> (r: Vec<AuditRecord>)
    ensures
        log_of(r@) == log_of(list@),
{
    let mut out: Vec<AuditRecord> = Vec::new();
    let mut i: usize = 0;
    assert(log_of(out@) =~= log_of(list@).take(0));
    while i < list.len()
        invariant
            i <= list@.len(),
            log_of(out@) == log_of(list@).take(i as int),
        decreases list@.len() - i,
    {
        let ghost done = out@;
        out.push(list[i].clone());
        i = i + 1;
        assert(log_of(out@) =~= log_of(done).push(list@[i - 1]@));
        assert(log_of(out@) =~= log_of(list@).take(i as int));
    }
    assert(log_of(list@).take(i as int) =~= log_of(list@));
    out
}

impl Clone for State {
    fn clone(&self) -> (r: Self)
        ensures
            r@ == self@,
    {
        State {
            rules: copy_rules(&self.rules),
            current_gen: self.current_gen,
            mappings: self.mappings.clone(),
            audit: copy_log(&self.audit),
            redactions: copy_redactions(&self.redactions),
        }
    }
}

/// A room with its keys.
pub struct Store {
    pub state: State,
    pub keys: KeyFile,
}

impl Store {
    /// A new room with the given keys; its current generation is the first one.
    pub fn init(keys: KeyFile) -> (r: Self)
        ensures
            r.state@ == empty_room(1),
            r.keys == keys,
    {
        let mut state: State = State::default();
        state.current_gen = 1;
        Store { state, keys }
    }
}

}
