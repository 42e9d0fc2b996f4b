//! The audit log: every entry holds the digest of the one before it and a keyed tag, so that
//! the digest of the last entry fixes the whole log.

use crate::canonical;
use crate::clock;
use crate::crypto;
use crate::json::{Json, Value};
use crate::json_text;
use crate::text;
use vstd::prelude::*;
use vstd::string::*;
use vstd::utf8::*;

verus! {

broadcast use vstd::seq::group_seq_axioms;

/// The end of a chain: how many entries it has, and the digest of the last one.
#[derive(Debug, Clone, Copy)]
pub struct ChainHead {
    pub seq: u64,
    pub hash: [u8; 32],
}

/// The digest that an empty chain starts from.
pub open spec fn genesis_hash() -> Seq<u8> {
    crypto::sha256_of(encode_utf8("maskroom-audit-genesis-v1"@))
}

impl ChainHead {
    /// The end of an empty chain.
    pub fn genesis() -> (r: Self)
        ensures
            r.seq == 0,
            r.hash@ == genesis_hash(),
    {
        let hash: [u8; 32] = crypto::sha256("maskroom-audit-genesis-v1".as_bytes());
        ChainHead { seq: 0, hash }
    }

    /// The digest in hexadecimal.
    pub fn hex(&self) -> (r: String)
        ensures
            r@ == crypto::hex_text(self.hash@),
    {
        crypto::hex_encode(&self.hash)
    }
}

/// One entry of the log. Events that concern no tenant, such as a rotation, have none.
#[derive(Debug)]
pub struct AuditEntry {
    pub seq: u64,
    pub ts_unix: i64,
    pub tenant: Option<String>,
    pub kind: String,
    pub details: Value,
    pub prev_hash: String,
    pub entry_hash: String,
    pub tag: String,
}

/// The mathematical form of an `AuditEntry`.
pub struct Entry {
    pub seq: u64,
    pub ts_unix: i64,
    pub tenant: Option<Seq<char>>,
    pub kind: Seq<char>,
    pub details: Json,
    pub prev_hash: Seq<char>,
    pub entry_hash: Seq<char>,
    pub tag: Seq<char>,
}

/// The text of an optional string.
pub open spec fn text_of(s: Option<String>) -> Option<Seq<char>> {
    match s {
        Some(t) => Some(t@),
        None => None,
    }
}

impl View for AuditEntry {
    type V = Entry;

    open spec fn view(&self) -> Entry {
        Entry {
            seq: self.seq,
            ts_unix: self.ts_unix,
            tenant: text_of(self.tenant),
            kind: self.kind@,
            details: self.details.json(),
            prev_hash: self.prev_hash@,
            entry_hash: self.entry_hash@,
            tag: self.tag@,
        }
    }
}

impl Clone for AuditEntry {
    fn clone(&self) -> (r: Self)
        ensures
            r@ == self@,
    {
        let tenant: Option<String> = match &self.tenant {
            Some(t) => Some(t.clone()),
            None => None,
        };
        AuditEntry {
            seq: self.seq,
            ts_unix: self.ts_unix,
            tenant,
            kind: self.kind.clone(),
            details: self.details.clone(),
            prev_hash: self.prev_hash.clone(),
            entry_hash: self.entry_hash.clone(),
            tag: self.tag.clone(),
        }
    }
}

/// A source of the time.
pub trait Clock {
    /// The clock may show `t`.
    spec fn shows(&self, t: i64) -> bool;

    /// The seconds since 1970.
    fn now_unix(&self) -> (r: i64)
        ensures
            self.shows(r),
    ;
}

/// The clock of the system.
pub struct SystemClock;

impl Clock for SystemClock {
    open spec fn shows(&self, t: i64) -> bool {
        exists|secs: Option<u64>| #[trigger]
            clock::may_show_seconds(secs) && t == clock::signed_seconds(secs)
    }

    fn now_unix(&self) -> (r: i64) {
        clock::now_seconds()
    }
}

/// A clock for tests that stands still until it is moved.
pub struct FixedClock {
    pub value: i64,
}

impl FixedClock {
    /// A clock that shows `start`.
    pub fn new(start: i64) -> (r: Self)
        ensures
            r.value == start,
    {
        FixedClock { value: start }
    }

    /// Moves the clock.
    pub fn tick(&mut self, by: i64)
        requires
            i64::MIN <= old(self).value + by <= i64::MAX,
        ensures
            final(self).value == old(self).value + by,
    {
        self.value = self.value + by;
    }
}

impl Clock for FixedClock {
    open spec fn shows(&self, t: i64) -> bool {
        t == self.value
    }

    fn now_unix(&self) -> (r: i64) {
        self.value
    }
}

/// The canonical text of a value: keys in order, arrays as they are, numbers as they were
/// written.
pub fn canonical_json(v: &Value) -> (r: String)
    ensures
        r@ == canonical::canonical(v.json()),
{
    canonical::to_text(v)
}

/// A signed number in two's complement.
pub open spec fn twos_complement(t: i64) -> u64 {
    if t >= 0 {
        t as u64
    } else {
        (t + 0x1_0000_0000_0000_0000) as u64
    }
}

/// What the digest of an entry is taken over, up to the digest of the entry before it.
pub open spec fn entry_front(
    seq: u64,
    ts: i64,
    tenant: Option<Seq<char>>,
    kind: Seq<char>,
    details: Json,
) -> Seq<u8> {
    let owner = match tenant {
        Some(t) => t,
        None => ""@,
    };
    encode_utf8("maskroom-audit-v1"@) + crypto::be8(seq) + crypto::be8(twos_complement(ts))
        + encode_utf8(owner) + encode_utf8(kind) + encode_utf8(canonical::canonical(details))
}

/// What the digest of an entry is taken over.
pub open spec fn entry_bytes(
    seq: u64,
    ts: i64,
    tenant: Option<Seq<char>>,
    kind: Seq<char>,
    details: Json,
    prev_hex: Seq<char>,
) -> Seq<u8> {
    entry_front(seq, ts, tenant, kind, details) + encode_utf8(prev_hex)
}

fn entry_input(
    seq: u64,
    ts: i64,
    tenant: &Option<String>,
    kind: &str,
    details: &Value,
    prev_hex: &str,
) -> (r: Vec<u8>)
    ensures
        r@ == entry_bytes(seq, ts, text_of(*tenant), kind@, details.json(), prev_hex@),
{
    let mut out: Vec<u8> = Vec::new();
    crypto::push_text(&mut out, "maskroom-audit-v1");
    crypto::push_be8(&mut out, seq);
    proof {
        assert(ts >= 0 ==> (ts as u64) == ts) by (bit_vector);
        assert(ts < 0 ==> (ts as u64) == ts + 0x1_0000_0000_0000_0000) by (bit_vector);
    }
    crypto::push_be8(&mut out, ts as u64);
    match tenant {
        Some(t) => {
            crypto::push_text(&mut out, t.as_str());
        },
        None => {
            crypto::push_text(&mut out, "");
        },
    }
    crypto::push_text(&mut out, kind);
    crypto::push_text(&mut out, canonical_json(details).as_str());
    assert(out@ =~= entry_front(seq, ts, text_of(*tenant), kind@, details.json()));
    crypto::push_text(&mut out, prev_hex);
    out
}

/// The digest of an entry.
pub fn hash_entry(
    seq: u64,
    ts: i64,
    tenant: &Option<String>,
    kind: &str,
    details: &Value,
    prev_hex: &str,
) -> (r: [u8; 32])
    ensures
        r@ == crypto::sha256_of(
            entry_bytes(seq, ts, text_of(*tenant), kind@, details.json(), prev_hex@),
        ),
{
    let input: Vec<u8> = entry_input(seq, ts, tenant, kind, details, prev_hex);
    crypto::sha256(input.as_slice())
}

/// The tag of an entry with the given digest.
pub open spec fn tag_text(audit_key: Seq<u8>, entry_hash: Seq<u8>) -> Seq<char> {
    crypto::hex_text(
        crypto::hmac_of(audit_key, encode_utf8("maskroom-audit-tag-v1"@) + entry_hash),
    )
}

/// The tag of an entry with the given digest.
pub fn tag_entry(audit_key: &[u8], entry_hash: &[u8]) -> (r: String)
    ensures
        r@ == tag_text(audit_key@, entry_hash@),
{
    let mut input: Vec<u8> = Vec::new();
    crypto::push_text(&mut input, "maskroom-audit-tag-v1");
    crypto::push_bytes(&mut input, entry_hash);
    assert(input@ =~= encode_utf8("maskroom-audit-tag-v1"@) + entry_hash@);
    crypto::hex_encode(&crypto::hmac_sha256(audit_key, input.as_slice()))
}

/// The bytes that the digest of an entry is taken over.
pub open spec fn bytes_of(e: Entry) -> Seq<u8> {
    entry_bytes(e.seq, e.ts_unix, e.tenant, e.kind, e.details, e.prev_hash)
}

/// The digest that an entry should carry.
pub open spec fn digest_of(e: Entry) -> Seq<u8> {
    crypto::sha256_of(bytes_of(e))
}

/// The entry that follows the end of a chain.
pub open spec fn next_entry(
    audit_key: Seq<u8>,
    seq: u64,
    hash: Seq<u8>,
    ts: i64,
    tenant: Option<Seq<char>>,
    kind: Seq<char>,
    details: Json,
) -> Entry {
    let next = (seq + 1) as u64;
    let prev_hash = crypto::hex_text(hash);
    let digest = crypto::sha256_of(entry_bytes(next, ts, tenant, kind, details, prev_hash));
    Entry {
        seq: next,
        ts_unix: ts,
        tenant,
        kind,
        details,
        prev_hash,
        entry_hash: crypto::hex_text(digest),
        tag: tag_text(audit_key, digest),
    }
}

/// Makes the entry that follows the end of a chain, and the new end.
pub fn append_entry<C: Clock>(
    audit_key: &[u8],
    head: ChainHead,
    tenant: Option<&str>,
    kind: &str,
    details: Value,
    clock: &C,
) -> (r: (AuditEntry, ChainHead))
    requires
        head.seq < u64::MAX,
    ensures
        clock.shows(r.0.ts_unix),
        r.0@ == next_entry(
            audit_key@,
            head.seq,
            head.hash@,
            r.0.ts_unix,
            match tenant {
                Some(t) => Some(t@),
                None => None,
            },
            kind@,
            details.json(),
        ),
        r.1.seq == head.seq + 1,
        r.1.hash@ == digest_of(r.0@),
{
    let seq: u64 = head.seq + 1;
    let ts: i64 = clock.now_unix();
    let tenant: Option<String> = match tenant {
        Some(t) => Some(t.to_string()),
        None => None,
    };
    let prev_hash: String = head.hex();
    let hash: [u8; 32] = hash_entry(seq, ts, &tenant, kind, &details, prev_hash.as_str());
    let entry: AuditEntry = AuditEntry {
        seq,
        ts_unix: ts,
        tenant,
        kind: kind.to_string(),
        details,
        prev_hash,
        entry_hash: crypto::hex_encode(&hash),
        tag: tag_entry(audit_key, &hash),
    };
    (entry, ChainHead { seq, hash })
}

/// What a check of a log found.
#[derive(Debug)]
pub struct VerifyReport {
    pub entries: u64,
    pub ok: bool,
    pub error: Option<String>,
}

impl Clone for VerifyReport {
    fn clone(&self) -> (r: Self)
        ensures
            r.entries == self.entries,
            r.ok == self.ok,
            text_of(r.error) == text_of(self.error),
    {
        let error: Option<String> = match &self.error {
            Some(e) => Some(e.clone()),
            None => None,
        };
        VerifyReport { entries: self.entries, ok: self.ok, error }
    }
}

/// The digest that the entry at place `i` has to name as the one before it.
pub open spec fn head_hash(entries: Seq<Entry>, i: int) -> Seq<u8> {
    if i <= 0 {
        genesis_hash()
    } else {
        digest_of(entries[i - 1])
    }
}

/// A remark on the entry with the given number.
pub open spec fn remark(n: nat, what: Seq<char>) -> Seq<char> {
    "第 "@ + text::dec(n) + what
}

/// What is wrong with the entry at place `i`, if those before it are in order.
pub open spec fn fault_at(audit_key: Seq<u8>, entries: Seq<Entry>, i: int) -> Option<Seq<char>> {
    let e = entries[i];
    if e.seq != i + 1 {
        Some(remark((i + 1) as nat, " 条序号断链"@))
    } else if e.prev_hash != crypto::hex_text(head_hash(entries, i)) {
        Some(remark((i + 1) as nat, " 条 prev_hash 不匹配（可能被删除或插入）"@))
    } else if crypto::hex_text(digest_of(e)) != e.entry_hash {
        Some(remark((i + 1) as nat, " 条内容摘要不匹配（正文被改写）"@))
    } else if tag_text(audit_key, digest_of(e)) != e.tag {
        Some(remark((i + 1) as nat, " 条标签无效（密钥不匹配或标签被伪造）"@))
    } else {
        None
    }
}

/// What is wrong with the first entry that is not in order, among the first `n`.
pub open spec fn first_fault(audit_key: Seq<u8>, entries: Seq<Entry>, n: int) -> Option<Seq<char>>
    decreases n,
{
    if n <= 0 {
        None
    } else {
        match first_fault(audit_key, entries, n - 1) {
            Some(m) => Some(m),
            None => fault_at(audit_key, entries, n - 1),
        }
    }
}

/// The entries of a list.
pub open spec fn entries_of(list: Seq<AuditEntry>) -> Seq<Entry> {
    list.map_values(|e: AuditEntry| e@)
}

/// What is wrong with a log: a line that could not be read, or else an entry.
pub open spec fn log_fault(
    audit_key: Seq<u8>,
    entries: Seq<Entry>,
    bad_lines: Seq<Seq<char>>,
) -> Option<Seq<char>> {
    if bad_lines.len() > 0 {
        Some(bad_lines[0])
    } else {
        first_fault(audit_key, entries, entries.len() as int)
    }
}

fn remark_on(n: u64, what: &str) -> (r: String)
    ensures
        r@ == remark(n as nat, what@),
{
    let mut out: String = "第 ".to_string();
    text::push_decimal(&mut out, n);
    out.append(what);
    out
}

fn failed(entries: u64, message: String) -> (r: VerifyReport)
    ensures
        r.entries == entries,
        !r.ok,
        text_of(r.error) == Some(message@),
{
    VerifyReport { entries, ok: false, error: Some(message) }
}

proof fn lemma_fault_stays(audit_key: Seq<u8>, entries: Seq<Entry>, n: int, end: int)
    requires
        0 <= n <= end,
        first_fault(audit_key, entries, n) is Some,
    ensures
        first_fault(audit_key, entries, end) == first_fault(audit_key, entries, n),
    decreases end - n,
{
    if n < end {
        lemma_fault_stays(audit_key, entries, n, end - 1);
    }
}

/// Checks a log, entry by entry: numbers, links, digests and tags have to fit. That entries are
/// missing at the end does not show here.
pub fn verify_chain(
    entries: &Vec<AuditEntry>,
    bad_lines: &Vec<String>,
    audit_key: &[u8],
) -> (r: VerifyReport)
    ensures
        r.entries == entries@.len(),
        r.ok == (text_of(r.error) is None),
        text_of(r.error) == log_fault(
            audit_key@,
            entries_of(entries@),
            bad_lines@.map_values(|l: String| l@),
        ),
{
    let count: u64 = entries.len() as u64;
    if bad_lines.len() > 0 {
        return failed(count, bad_lines[0].clone());
    }
    let ghost all = entries_of(entries@);
    let ghost key = audit_key@;
    let mut head: ChainHead = ChainHead::genesis();
    let mut i: usize = 0;
    while i < entries.len()
        invariant
            0 <= i <= entries@.len(),
            count == entries@.len(),
            all == entries_of(entries@),
            key == audit_key@,
            bad_lines@.len() == 0,
            head.seq == i,
            head.hash@ == head_hash(all, i as int),
            first_fault(key, all, i as int) is None,
        decreases entries@.len() - i,
    {
        let e: &AuditEntry = &entries[i];
        let next: u64 = head.seq + 1;
        proof {
            assert(all[i as int] == e@);
            if fault_at(key, all, i as int) is Some {
                lemma_fault_stays(key, all, i + 1, all.len() as int);
            }
        }
        if e.seq != next {
            return failed(count, remark_on(next, " 条序号断链"));
        }
        if !text::same_text(e.prev_hash.as_str(), head.hex().as_str()) {
            return failed(
                count,
                remark_on(e.seq, " 条 prev_hash 不匹配（可能被删除或插入）"),
            );
        }
        let hash: [u8; 32] = hash_entry(
            e.seq,
            e.ts_unix,
            &e.tenant,
            e.kind.as_str(),
            &e.details,
            e.prev_hash.as_str(),
        );
        if !text::same_text(crypto::hex_encode(&hash).as_str(), e.entry_hash.as_str()) {
            return failed(count, remark_on(e.seq, " 条内容摘要不匹配（正文被改写）"));
        }
        if !text::same_text(tag_entry(audit_key, &hash).as_str(), e.tag.as_str()) {
            return failed(
                count,
                remark_on(e.seq, " 条标签无效（密钥不匹配或标签被伪造）"),
            );
        }
        head = ChainHead { seq: e.seq, hash };
        i = i + 1;
    }
    VerifyReport { entries: count, ok: true, error: None }
}

/// The first line feed from `p` on, or the end.
pub open spec fn line_end(s: Seq<char>, p: int) -> int
    decreases s.len() - p,
{
    if 0 <= p < s.len() && s[p] != '\n' {
        line_end(s, p + 1)
    } else {
        p
    }
}

/// The line from `p` to its end: a carriage return before the line feed is no part of it.
pub open spec fn line_at(s: Seq<char>, p: int) -> Seq<char> {
    let e = line_end(s, p);
    if p < e < s.len() && s[e - 1] == '\r' {
        s.subrange(p, e - 1)
    } else {
        s.subrange(p, e)
    }
}

/// The lines from `p` on that are not blank, with their numbers; the first is number `n`.
pub open spec fn lines_from(s: Seq<char>, p: int, n: int) -> Seq<(int, Seq<char>)>
    decreases s.len() - p,
{
    if !(0 <= p < s.len()) {
        seq![]
    } else {
        let e = line_end(s, p);
        let line = line_at(s, p);
        let rest = if p <= e < s.len() {
            lines_from(s, e + 1, n + 1)
        } else {
            seq![]
        };
        if text::is_blank(line) {
            rest
        } else {
            seq![(n, line)] + rest
        }
    }
}

/// The numbered lines of a list.
pub open spec fn numbered(list: Seq<(usize, String)>) -> Seq<(int, Seq<char>)> {
    list.map_values(|x: (usize, String)| (x.0 as int, x.1@))
}

/// The lines of a log file that are not blank, with their numbers.
pub fn log_lines(content: &str) -> (r: Vec<(usize, String)>)
    ensures
        numbered(r@) == lines_from(content@, 0, 1),
{
    let chars: Vec<char> = text::chars_of(content);
    let ghost s = content@;
    let len: usize = chars.len();
    let mut out: Vec<(usize, String)> = Vec::new();
    let mut p: usize = 0;
    let mut count: usize = 0;
    assert(numbered(out@) + lines_from(s, 0, 1) =~= lines_from(s, 0, 1));
    while p < len
        invariant
            chars@ == s,
            s == content@,
            len == s.len(),
            count <= p <= len,
            numbered(out@) + lines_from(s, p as int, count + 1) == lines_from(s, 0, 1),
        decreases len - p,
    {
        let ghost done = numbered(out@);
        let mut e: usize = p;
        while e < len && chars[e] != '\n'
            invariant
                chars@ == s,
                len == s.len(),
                p <= e <= len,
                line_end(s, p as int) == line_end(s, e as int),
            decreases len - e,
        {
            e = e + 1;
        }
        let stop: usize = if p < e && e < len && chars[e - 1] == '\r' {
            e - 1
        } else {
            e
        };
        let line: String = text::string_of(
            vstd::slice::slice_subrange(chars.as_slice(), p, stop),
        );
        assert(line@ =~= line_at(s, p as int));
        count = count + 1;
        let ghost rest = if e < len {
            lines_from(s, e + 1, count + 1)
        } else {
            seq![]
        };
        if !text::blank(line.as_str()) {
            let ghost before = out@;
            let ghost model = (count as int, line@);
            out.push((count, line));
            proof {
                assert(numbered(out@) =~= done.push(model));
                assert(numbered(out@) + rest =~= done + (seq![model] + rest));
            }
        }
        if e < len {
            p = e + 1;
        } else {
            p = len;
        }
    }
    assert(numbered(out@) =~= lines_from(s, 0, 1));
    out
}

/// The entries that were read.
pub open spec fn readable(list: Seq<(usize, Option<AuditEntry>)>) -> Seq<Entry>
    decreases list.len(),
{
    if list.len() == 0 {
        seq![]
    } else {
        match list.last().1 {
            Some(e) => readable(list.drop_last()).push(e@),
            None => readable(list.drop_last()),
        }
    }
}

/// A remark on each line that could not be read.
pub open spec fn unreadable(list: Seq<(usize, Option<AuditEntry>)>) -> Seq<Seq<char>>
    decreases list.len(),
{
    if list.len() == 0 {
        seq![]
    } else {
        match list.last().1 {
            Some(_) => unreadable(list.drop_last()),
            None => unreadable(list.drop_last()).push(
                remark(list.last().0 as nat, " 行无法解析"@),
            ),
        }
    }
}

/// Sorts the lines of a log into entries and remarks on what could not be read.
pub fn gather_entries(list: Vec<(usize, Option<AuditEntry>)>) -> (r: (
    Vec<AuditEntry>,
    Vec<String>,
))
    ensures
        entries_of(r.0@) == readable(list@),
        r.1@.map_values(|l: String| l@) == unreadable(list@),
{
    let ghost all = list@;
    let mut rest: Vec<(usize, Option<AuditEntry>)> = list;
    let mut entries: Vec<AuditEntry> = Vec::new();
    let mut bad: Vec<String> = Vec::new();
    let ghost mut done: int = 0;
    assert(all.take(0) =~= Seq::empty());
    assert(entries_of(entries@) =~= readable(all.take(0)));
    assert(bad@.map_values(|l: String| l@) =~= unreadable(all.take(0)));
    while rest.len() > 0
        invariant
            0 <= done <= all.len(),
            rest@ == all.skip(done),
            entries_of(entries@) == readable(all.take(done)),
            bad@.map_values(|l: String| l@) == unreadable(all.take(done)),
        decreases rest@.len(),
    {
        let ghost entries_before = entries@;
        let ghost bad_before = bad@;
        let (n, line) = rest.remove(0);
        proof {
            assert(all[done] == (n, line));
            assert(all.take(done + 1).drop_last() =~= all.take(done));
            assert(all.take(done + 1).last() == (n, line));
            assert(rest@ =~= all.skip(done + 1));
            done = done + 1;
        }
        match line {
            Some(e) => {
                entries.push(e);
                assert(entries_of(entries@) =~= entries_of(entries_before).push(e@));
            },
            None => {
                let message: String = remark_on(n as u64, " 行无法解析");
                bad.push(message);
                assert(bad@.map_values(|l: String| l@) =~= bad_before.map_values(
                    |l: String| l@,
                ).push(message@));
            },
        }
    }
    assert(all.take(done) =~= all);
    (entries, bad)
}

proof fn lemma_fault_prefix(audit_key: Seq<u8>, entries: Seq<Entry>, e: Entry, n: int)
    requires
        0 <= n <= entries.len(),
    ensures
        first_fault(audit_key, entries.push(e), n) == first_fault(audit_key, entries, n),
    decreases n,
{
    if n > 0 {
        lemma_fault_prefix(audit_key, entries, e, n - 1);
        assert(entries.push(e)[n - 1] == entries[n - 1]);
        if n > 1 {
            assert(entries.push(e)[n - 2] == entries[n - 2]);
        }
    }
}

/// A log in which nothing is wrong stays so when the entry that follows is appended.
pub proof fn lemma_appending_keeps_the_chain(
    audit_key: Seq<u8>,
    entries: Seq<Entry>,
    ts: i64,
    tenant: Option<Seq<char>>,
    kind: Seq<char>,
    details: Json,
)
    requires
        entries.len() < u64::MAX,
        first_fault(audit_key, entries, entries.len() as int) is None,
    ensures
        ({
            let n = entries.len() as int;
            let e = next_entry(
                audit_key,
                n as u64,
                head_hash(entries, n),
                ts,
                tenant,
                kind,
                details,
            );
            first_fault(audit_key, entries.push(e), n + 1) is None
        }),
{
    let n = entries.len() as int;
    let e = next_entry(audit_key, n as u64, head_hash(entries, n), ts, tenant, kind, details);
    lemma_fault_prefix(audit_key, entries, e, n);
    assert(entries.push(e)[n] == e);
    if n > 0 {
        assert(entries.push(e)[n - 1] == entries[n - 1]);
    }
}

/// Nothing is wrong with any single entry of a log in which nothing is wrong.
proof fn lemma_no_fault(audit_key: Seq<u8>, entries: Seq<Entry>, n: int, i: int)
    requires
        0 <= i < n,
        first_fault(audit_key, entries, n) is None,
    ensures
        fault_at(audit_key, entries, i) is None,
        first_fault(audit_key, entries, i) is None,
    decreases n,
{
    if i < n - 1 {
        lemma_no_fault(audit_key, entries, n - 1, i);
    }
}

/// If an entry of a log in order is taken out, and it is not the last one, the log is not in
/// order any more.
pub proof fn lemma_gaps_show(audit_key: Seq<u8>, log: Seq<Entry>, k: int)
    requires
        first_fault(audit_key, log, log.len() as int) is None,
        0 <= k < log.len() - 1,
    ensures
        first_fault(audit_key, log.remove(k), log.len() - 1) is Some,
{
    let rest = log.remove(k);
    if first_fault(audit_key, rest, log.len() - 1) is None {
        lemma_no_fault(audit_key, log, log.len() as int, k + 1);
        lemma_no_fault(audit_key, rest, log.len() - 1, k);
        assert(rest[k] == log[k + 1]);
    }
}

/// If an entry is put in anywhere before the last one of a log in order, the log is not in
/// order any more.
pub proof fn lemma_insertions_show(audit_key: Seq<u8>, log: Seq<Entry>, k: int, e: Entry)
    requires
        first_fault(audit_key, log, log.len() as int) is None,
        0 <= k < log.len(),
    ensures
        first_fault(audit_key, log.insert(k, e), log.len() as int + 1) is Some,
{
    let more = log.insert(k, e);
    if first_fault(audit_key, more, log.len() as int + 1) is None {
        lemma_no_fault(audit_key, log, log.len() as int, k);
        lemma_no_fault(audit_key, more, log.len() as int + 1, k + 1);
        assert(more[k + 1] == log[k]);
    }
}

/// No two entries of the logs have the same digest but different bytes.
pub open spec fn no_collision(a: Seq<Entry>, b: Seq<Entry>) -> bool {
    forall|i: int, j: int|
        0 <= i < a.len() && 0 <= j < b.len() && digest_of(#[trigger] a[i]) == digest_of(
            #[trigger] b[j],
        ) ==> bytes_of(a[i]) == bytes_of(b[j])
}

proof fn lemma_hex_tells_apart(x: Seq<u8>, y: Seq<u8>)
    requires
        crypto::hex_text(x) == crypto::hex_text(y),
    ensures
        x == y,
{
    crypto::lemma_hex_reads_back(x);
    crypto::lemma_hex_reads_back(y);
}

/// The bytes of an entry fix its number.
proof fn lemma_bytes_fix_seq(x: Entry, y: Entry)
    requires
        bytes_of(x) == bytes_of(y),
    ensures
        x.seq == y.seq,
{
    let l = encode_utf8("maskroom-audit-v1"@).len() as int;
    assert(bytes_of(x).subrange(l, l + 8) =~= crypto::be8(x.seq));
    assert(bytes_of(y).subrange(l, l + 8) =~= crypto::be8(y.seq));
    crypto::lemma_be8_tells_apart(x.seq, y.seq);
}

/// The bytes of an entry fix the digest that it names.
proof fn lemma_bytes_fix_prev(x: Entry, y: Entry, p: Seq<u8>, q: Seq<u8>)
    requires
        bytes_of(x) == bytes_of(y),
        x.prev_hash == crypto::hex_text(p),
        y.prev_hash == crypto::hex_text(q),
        p.len() == q.len(),
    ensures
        p == q,
{
    crypto::lemma_hex_reads_back(p);
    crypto::lemma_hex_reads_back(q);
    let ep = encode_utf8(x.prev_hash);
    let eq = encode_utf8(y.prev_hash);
    let fx = entry_front(x.seq, x.ts_unix, x.tenant, x.kind, x.details);
    let fy = entry_front(y.seq, y.ts_unix, y.tenant, y.kind, y.details);
    lemma_suffix(fx, ep);
    lemma_suffix(fy, eq);
    text::lemma_encoding_is_injective(x.prev_hash, y.prev_hash);
    lemma_hex_tells_apart(p, q);
}

proof fn lemma_suffix(front: Seq<u8>, back: Seq<u8>)
    ensures
        (front + back).subrange((front + back).len() - back.len(), (front + back).len() as int)
            == back,
{
    assert((front + back).subrange(
        (front + back).len() - back.len(),
        (front + back).len() as int,
    ) =~= back);
}

/// The words of an entry: whom it concerns, what it is, and the canonical text of its details.
pub open spec fn words(e: Entry) -> Seq<char> {
    (match e.tenant {
        Some(t) => t,
        None => seq![],
    }) + e.kind + canonical::canonical(e.details)
}

proof fn lemma_three_texts(a: Seq<char>, b: Seq<char>, c: Seq<char>, d: Seq<char>)
    ensures
        encode_utf8(a) + encode_utf8(b) + encode_utf8(c) + encode_utf8(d) == encode_utf8(
            a + b + c + d,
        ),
{
    text::lemma_encode_concat(a, b);
    text::lemma_encode_concat(a + b, c);
    text::lemma_encode_concat(a + b + c, d);
}

proof fn lemma_six_parts(
    l: Seq<u8>,
    n: Seq<u8>,
    t: Seq<u8>,
    a: Seq<u8>,
    b: Seq<u8>,
    c: Seq<u8>,
    d: Seq<u8>,
)
    ensures
        l + n + t + a + b + c + d == l + n + t + (a + b + c + d),
{
    assert(l + n + t + a + b + c + d =~= l + n + t + (a + b + c + d));
}

proof fn lemma_cut(l: Seq<u8>, n: Seq<u8>, t: Seq<u8>, rest: Seq<u8>)
    requires
        n.len() == 8,
        t.len() == 8,
    ensures
        ({
            let b = l + n + t + rest;
            let k = l.len() as int;
            &&& b.take(k) == l
            &&& b.subrange(k, k + 8) == n
            &&& b.subrange(k + 8, k + 16) == t
            &&& b.skip(k + 16) == rest
        }),
{
    let b = l + n + t + rest;
    let k = l.len() as int;
    assert(b.take(k) =~= l);
    assert(b.subrange(k, k + 8) =~= n);
    assert(b.subrange(k + 8, k + 16) =~= t);
    assert(b.skip(k + 16) =~= rest);
}

/// What the digest of an entry is taken over: a label of 17 bytes; the number of the entry and
/// its time modulo 2^64, in eight bytes each; and then its words and the digest that it names.
pub proof fn lemma_bytes_hold_every_field(e: Entry)
    ensures
        bytes_of(e).take(17) == encode_utf8("maskroom-audit-v1"@),
        bytes_of(e).subrange(17, 25) == crypto::be8(e.seq),
        exists|t: u64|
            t as int == (e.ts_unix as int) % 0x1_0000_0000_0000_0000 && bytes_of(e).subrange(25, 33)
                == #[trigger] crypto::be8(t),
        bytes_of(e).skip(33) == encode_utf8(words(e) + e.prev_hash),
{
    let owner = match e.tenant {
        Some(t) => t,
        None => ""@,
    };
    reveal_strlit("");
    assert(""@ =~= seq![]);
    let label = encode_utf8("maskroom-audit-v1"@);
    assert(label.len() == 17) by {
        let l = "maskroom-audit-v1"@;
        reveal_strlit("maskroom-audit-v1");
        text::lemma_encode_ascii(l, Seq::new(l.len(), |i: int| l[i] as u8));
    }
    let t = twos_complement(e.ts_unix);
    assert(t as int == (e.ts_unix as int) % 0x1_0000_0000_0000_0000);
    let text = canonical::canonical(e.details);
    lemma_six_parts(
        label,
        crypto::be8(e.seq),
        crypto::be8(t),
        encode_utf8(owner),
        encode_utf8(e.kind),
        encode_utf8(text),
        encode_utf8(e.prev_hash),
    );
    lemma_three_texts(owner, e.kind, text, e.prev_hash);
    lemma_cut(label, crypto::be8(e.seq), crypto::be8(t), encode_utf8(words(e) + e.prev_hash));
}

proof fn lemma_same_time(t: i64, u: i64)
    requires
        (t as int) % 0x1_0000_0000_0000_0000 == (u as int) % 0x1_0000_0000_0000_0000,
    ensures
        t == u,
{
}

proof fn lemma_same_backs(a: Seq<char>, b: Seq<char>, c: Seq<char>, d: Seq<char>)
    requires
        a + b == c + d,
        b.len() == d.len(),
    ensures
        a == c,
        b == d,
{
    let n = a.len() as int;
    assert((a + b).len() == a.len() + b.len());
    assert((c + d).len() == c.len() + d.len());
    assert((a + b).take(n) =~= a);
    assert((c + d).take(n) =~= c);
    assert((a + b).skip(n) =~= b);
    assert((c + d).skip(n) =~= d);
}

proof fn lemma_same_fronts(a: Seq<char>, b: Seq<char>, c: Seq<char>)
    requires
        a + b == a + c,
    ensures
        b == c,
{
    let n = a.len() as int;
    assert((a + b).skip(n) =~= b);
    assert((a + c).skip(n) =~= c);
}

#[verifier::opaque]
spec fn time_bytes(b: Seq<u8>, t: i64) -> bool {
    exists|u: u64|
        u as int == (t as int) % 0x1_0000_0000_0000_0000 && b == #[trigger] crypto::be8(u)
}

proof fn lemma_time_bytes(b: Seq<u8>, t: i64, u: i64)
    requires
        time_bytes(b, t),
        time_bytes(b, u),
    ensures
        t == u,
{
    reveal(time_bytes);
    let x = choose|x: u64|
        x as int == (t as int) % 0x1_0000_0000_0000_0000 && b == #[trigger] crypto::be8(x);
    let y = choose|y: u64|
        y as int == (u as int) % 0x1_0000_0000_0000_0000 && b == #[trigger] crypto::be8(y);
    crypto::lemma_be8_tells_apart(x, y);
    lemma_same_time(t, u);
}

/// The bytes that the digest of an entry is taken over fix its number and its time, and its words
/// together with the digest that it names; where both entries name digests of the same length,
/// they fix each of these. Where whom the entry concerns and what it is are the same, they fix
/// the details, up to the order of keys.
pub proof fn lemma_bytes_fix_the_entry(x: Entry, y: Entry)
    requires
        bytes_of(x) == bytes_of(y),
    ensures
        x.seq == y.seq,
        x.ts_unix == y.ts_unix,
        words(x) + x.prev_hash == words(y) + y.prev_hash,
        x.prev_hash.len() == y.prev_hash.len() ==> x.prev_hash == y.prev_hash && words(x) == words(
            y,
        ),
        x.prev_hash.len() == y.prev_hash.len() && x.tenant == y.tenant && x.kind == y.kind
            ==> canonical::canonical(x.details) == canonical::canonical(y.details),
        x.prev_hash.len() == y.prev_hash.len() && x.tenant == y.tenant && x.kind == y.kind
            && json_text::is_proper(x.details) && json_text::is_proper(y.details)
            ==> canonical::normal(x.details) == canonical::normal(y.details),
{
    assert(time_bytes(bytes_of(x).subrange(25, 33), x.ts_unix)) by {
        lemma_bytes_hold_every_field(x);
        reveal(time_bytes);
    }
    assert(time_bytes(bytes_of(y).subrange(25, 33), y.ts_unix)) by {
        lemma_bytes_hold_every_field(y);
        reveal(time_bytes);
    }
    lemma_time_bytes(bytes_of(x).subrange(25, 33), x.ts_unix, y.ts_unix);
    assert(x.seq == y.seq) by {
        lemma_bytes_fix_seq(x, y);
    }
    assert(encode_utf8(words(x) + x.prev_hash) == encode_utf8(words(y) + y.prev_hash)) by {
        lemma_bytes_hold_every_field(x);
        lemma_bytes_hold_every_field(y);
    }
    text::lemma_encoding_is_injective(words(x) + x.prev_hash, words(y) + y.prev_hash);
    if x.prev_hash.len() == y.prev_hash.len() {
        lemma_same_backs(words(x), x.prev_hash, words(y), y.prev_hash);
        if x.tenant == y.tenant && x.kind == y.kind {
            let front = (match x.tenant {
                Some(t) => t,
                None => seq![],
            }) + x.kind;
            lemma_same_fronts(
                front,
                canonical::canonical(x.details),
                canonical::canonical(y.details),
            );
            if json_text::is_proper(x.details) && json_text::is_proper(y.details) {
                canonical::lemma_canonical_text_tells_apart(x.details, y.details);
            }
        }
    }
}

#[verifier::spinoff_prover]
proof fn lemma_history_from(
    key_a: Seq<u8>,
    key_b: Seq<u8>,
    a: Seq<Entry>,
    b: Seq<Entry>,
    n: int,
    m: int,
)
    requires
        0 < n <= a.len(),
        0 < m <= b.len(),
        first_fault(key_a, a, n) is None,
        first_fault(key_b, b, m) is None,
        no_collision(a, b),
        digest_of(a[n - 1]) == digest_of(b[m - 1]),
    ensures
        n == m,
        forall|i: int| 0 <= i < n ==> bytes_of(#[trigger] a[i]) == bytes_of(b[i]),
    decreases n,
{
    let x = a[n - 1];
    let y = b[m - 1];
    assert(bytes_of(x) == bytes_of(y));
    lemma_no_fault(key_a, a, n, n - 1);
    lemma_no_fault(key_b, b, m, m - 1);
    assert(x.seq == n && y.seq == m);
    assert(x.prev_hash == crypto::hex_text(head_hash(a, n - 1)));
    assert(y.prev_hash == crypto::hex_text(head_hash(b, m - 1)));
    lemma_bytes_fix_seq(x, y);
    assert(n == m);
    if n > 1 {
        lemma_bytes_fix_prev(x, y, head_hash(a, n - 1), head_hash(b, n - 1));
        lemma_history_from(key_a, key_b, a, b, n - 1, n - 1);
        assert forall|i: int| 0 <= i < n implies bytes_of(#[trigger] a[i]) == bytes_of(b[i]) by {
            if i == n - 1 {
                assert(a[i] == x && b[i] == y);
            }
        }
    }
}

/// The digest of the last entry fixes the whole log: two logs in which nothing is wrong and
/// that end in the same digest have the same length and the same bytes under every digest,
/// unless SHA-256 collides on them. Each entry of the one then has the number, the time, the
/// words and the digests of that of the other, and where the two also agree in whom they concern
/// and what they are, the same details up to the order of keys. So nothing can be inserted,
/// deleted or rewritten under the last entry without trace.
pub proof fn lemma_last_digest_fixes_the_log(
    key_a: Seq<u8>,
    key_b: Seq<u8>,
    a: Seq<Entry>,
    b: Seq<Entry>,
)
    requires
        a.len() > 0,
        b.len() > 0,
        first_fault(key_a, a, a.len() as int) is None,
        first_fault(key_b, b, b.len() as int) is None,
        a.last().entry_hash == b.last().entry_hash,
        no_collision(a, b),
    ensures
        a.len() == b.len(),
        forall|i: int| 0 <= i < a.len() ==> bytes_of(#[trigger] a[i]) == bytes_of(b[i]),
        forall|i: int|
            0 <= i < a.len() ==> {
                &&& (#[trigger] a[i]).seq == b[i].seq
                &&& a[i].ts_unix == b[i].ts_unix
                &&& words(a[i]) == words(b[i])
                &&& a[i].prev_hash == b[i].prev_hash
                &&& a[i].entry_hash == b[i].entry_hash
                &&& a[i].tenant == b[i].tenant && a[i].kind == b[i].kind ==> canonical::canonical(
                    a[i].details,
                ) == canonical::canonical(b[i].details)
            },
{
    lemma_no_fault(key_a, a, a.len() as int, a.len() - 1);
    lemma_no_fault(key_b, b, b.len() as int, b.len() - 1);
    lemma_hex_tells_apart(digest_of(a.last()), digest_of(b.last()));
    lemma_history_from(key_a, key_b, a, b, a.len() as int, b.len() as int);
    assert forall|i: int| 0 <= i < a.len() implies {
        &&& (#[trigger] a[i]).seq == b[i].seq
        &&& a[i].ts_unix == b[i].ts_unix
        &&& words(a[i]) == words(b[i])
        &&& a[i].prev_hash == b[i].prev_hash
        &&& a[i].entry_hash == b[i].entry_hash
        &&& a[i].tenant == b[i].tenant && a[i].kind == b[i].kind ==> canonical::canonical(
            a[i].details,
        ) == canonical::canonical(b[i].details)
    } by {
        lemma_no_fault(key_a, a, a.len() as int, i);
        lemma_no_fault(key_b, b, b.len() as int, i);
        if i > 0 {
            assert(bytes_of(a[i - 1]) == bytes_of(b[i - 1]));
        }
        lemma_bytes_fix_the_entry(a[i], b[i]);
    }
}

}
