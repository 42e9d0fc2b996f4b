//! Laws of the audit log: what it means that nothing is wrong with a log, and what shows.

use crate::audit;
use crate::audit::{AuditEntry, Entry};
use crate::crypto;
use crate::json::Json;
use crate::text;
use vstd::prelude::*;
use vstd::utf8::*;

verus! {

broadcast use vstd::seq::group_seq_axioms;

/// The entry has its place in the log: its number is one more than its index, and it names the
/// SHA-256 digest of the entry before it, or that of the start label where there is none.
pub open spec fn is_linked(log: Seq<Entry>, i: int) -> bool {
    &&& log[i].seq == i + 1
    &&& log[i].prev_hash == crypto::hex_text(
        crypto::sha256_of(
            if i == 0 {
                encode_utf8("maskroom-audit-genesis-v1"@)
            } else {
                audit::bytes_of(log[i - 1])
            },
        ),
    )
}

/// The entry carries the SHA-256 digest of its own bytes.
pub open spec fn is_digested(e: Entry) -> bool {
    e.entry_hash == crypto::hex_text(crypto::sha256_of(audit::bytes_of(e)))
}

/// The entry carries the HMAC of its digest under the key.
pub open spec fn is_tagged(key: Seq<u8>, e: Entry) -> bool {
    e.tag == crypto::hex_text(
        crypto::hmac_of(
            key,
            encode_utf8("maskroom-audit-tag-v1"@) + crypto::sha256_of(audit::bytes_of(e)),
        ),
    )
}

proof fn lemma_in_order_until(key: Seq<u8>, log: Seq<Entry>, n: int)
    requires
        0 <= n <= log.len(),
    ensures
        audit::first_fault(key, log, n) is None <==> forall|i: int|
            0 <= i < n ==> #[trigger] is_linked(log, i) && is_digested(log[i]) && is_tagged(
                key,
                log[i],
            ),
    decreases n,
{
    if n > 0 {
        lemma_in_order_until(key, log, n - 1);
        if audit::first_fault(key, log, n) is None {
            assert forall|i: int| 0 <= i < n implies #[trigger] is_linked(log, i) && is_digested(
                log[i],
            ) && is_tagged(key, log[i]) by {
                if i < n - 1 {
                    assert(is_linked(log, i));
                }
            }
        } else if audit::first_fault(key, log, n - 1) is None {
            assert(!(is_linked(log, n - 1) && is_digested(log[n - 1]) && is_tagged(
                key,
                log[n - 1],
            )));
        } else {
            let i = choose|i: int|
                0 <= i < n - 1 && !(#[trigger] is_linked(log, i) && is_digested(log[i]) && is_tagged(
                    key,
                    log[i],
                ));
            assert(!(is_linked(log, i) && is_digested(log[i]) && is_tagged(key, log[i])));
        }
    }
}

/// Nothing is wrong with a log exactly if every entry of it has its place and carries the right
/// digest and the right tag.
pub proof fn lemma_in_order_means(key: Seq<u8>, log: Seq<Entry>)
    ensures
        audit::log_fault(key, log, seq![]) is None <==> forall|i: int|
            0 <= i < log.len() ==> #[trigger] is_linked(log, i) && is_digested(log[i])
                && is_tagged(key, log[i]),
{
    let n = log.len() as int;
    lemma_in_order_until(key, log, n);
    let bad: Seq<Seq<char>> = seq![];
    assert(audit::log_fault(key, log, bad) == audit::first_fault(key, log, n));
}

/// A line that could not be read is reported before anything else.
pub proof fn lemma_bad_lines_come_first(key: Seq<u8>, log: Seq<Entry>, bad: Seq<Seq<char>>)
    requires
        bad.len() > 0,
    ensures
        audit::log_fault(key, log, bad) == Some(bad[0]),
{
}

/// What the report says of the entry with the given number.
pub open spec fn said_of(n: nat, what: Seq<char>) -> Seq<char> {
    "第 "@ + text::dec(n) + what
}

proof fn lemma_first_until(key: Seq<u8>, log: Seq<Entry>, n: int)
    requires
        0 <= n <= log.len(),
        audit::first_fault(key, log, n) is Some,
    ensures
        exists|k: int|
            0 <= k < n && #[trigger] is_first_fault(
                key,
                log,
                k,
                audit::first_fault(key, log, n)->0,
            ),
    decreases n,
{
    if n > 0 {
        if audit::first_fault(key, log, n - 1) is Some {
            lemma_first_until(key, log, n - 1);
        } else {
            lemma_in_order_until(key, log, n - 1);
            assert(is_first_fault(key, log, n - 1, audit::first_fault(key, log, n)->0));
        }
    }
}

/// The entries before place `k` are in order, that at `k` is not, and the report says what is
/// wrong with it: its number, else its link, else its digest, else its tag.
pub open spec fn is_first_fault(key: Seq<u8>, log: Seq<Entry>, k: int, report: Seq<char>) -> bool {
    let e = log[k];
    &&& forall|i: int|
        0 <= i < k ==> #[trigger] is_linked(log, i) && is_digested(log[i]) && is_tagged(key, log[i])
    &&& !(is_linked(log, k) && is_digested(e) && is_tagged(key, e))
    &&& e.seq != k + 1 ==> report == said_of((k + 1) as nat, " 条序号断链"@)
    &&& e.seq == k + 1 && !is_linked(log, k) ==> report == said_of(
        (k + 1) as nat,
        " 条 prev_hash 不匹配（可能被删除或插入）"@,
    )
    &&& is_linked(log, k) && !is_digested(e) ==> report == said_of(
        (k + 1) as nat,
        " 条内容摘要不匹配（正文被改写）"@,
    )
    &&& is_linked(log, k) && is_digested(e) ==> report == said_of(
        (k + 1) as nat,
        " 条标签无效（密钥不匹配或标签被伪造）"@,
    )
}

/// What is reported of a log is what is wrong with the first entry that is not in order.
pub proof fn lemma_first_fault_is_reported(key: Seq<u8>, log: Seq<Entry>)
    requires
        audit::log_fault(key, log, seq![]) is Some,
    ensures
        exists|k: int|
            0 <= k < log.len() && #[trigger] is_first_fault(
                key,
                log,
                k,
                audit::log_fault(key, log, seq![])->0,
            ),
{
    lemma_first_until(key, log, log.len() as int);
}

/// A rewritten entry shows: if in a log in order one entry, not the last, is replaced by one with
/// other bytes under its digest, the log is not in order any more, unless SHA-256 collides.
pub proof fn lemma_rewriting_shows(key: Seq<u8>, log: Seq<Entry>, k: int, e: Entry)
    requires
        audit::log_fault(key, log, seq![]) is None,
        0 <= k < log.len() - 1,
        audit::bytes_of(e) != audit::bytes_of(log[k]),
        crypto::sha256_of(audit::bytes_of(e)) != crypto::sha256_of(audit::bytes_of(log[k])),
    ensures
        audit::log_fault(key, log.update(k, e), seq![]) is Some,
{
    let other = log.update(k, e);
    lemma_in_order_means(key, log);
    lemma_in_order_means(key, other);
    if audit::log_fault(key, other, seq![]) is None {
        assert(is_linked(log, k + 1) && is_linked(other, k + 1));
        assert(other[k + 1] == log[k + 1] && other[k] == e);
        crypto::lemma_hex_reads_back(crypto::sha256_of(audit::bytes_of(e)));
        crypto::lemma_hex_reads_back(crypto::sha256_of(audit::bytes_of(log[k])));
    }
}

/// Each field of an entry is guarded: another time, tenant, kind or other details in an entry
/// whose digest is left as it was shows, unless SHA-256 collides or the words are the same.
pub proof fn lemma_changed_fields_show(key: Seq<u8>, log: Seq<Entry>, k: int, e: Entry)
    requires
        audit::log_fault(key, log, seq![]) is None,
        0 <= k < log.len(),
        e.entry_hash == log[k].entry_hash,
        e.seq != log[k].seq || e.ts_unix != log[k].ts_unix || e.prev_hash != log[k].prev_hash
            || audit::words(e) != audit::words(log[k]),
        audit::bytes_of(e) != audit::bytes_of(log[k]) ==> crypto::sha256_of(audit::bytes_of(e))
            != crypto::sha256_of(audit::bytes_of(log[k])),
    ensures
        audit::log_fault(key, log.update(k, e), seq![]) is Some,
{
    let other = log.update(k, e);
    lemma_in_order_means(key, log);
    lemma_in_order_means(key, other);
    if audit::log_fault(key, other, seq![]) is None {
        assert(is_linked(log, k) && is_linked(other, k));
        assert(other[k] == e);
        if k > 0 {
            assert(other[k - 1] == log[k - 1]);
        }
        assert(e.prev_hash == log[k].prev_hash);
        if audit::bytes_of(e) == audit::bytes_of(log[k]) {
            audit::lemma_bytes_fix_the_entry(e, log[k]);
        } else {
            crypto::lemma_hex_reads_back(crypto::sha256_of(audit::bytes_of(e)));
            crypto::lemma_hex_reads_back(crypto::sha256_of(audit::bytes_of(log[k])));
        }
    }
}

/// A forged tag shows.
pub proof fn lemma_forged_tags_show(key: Seq<u8>, log: Seq<Entry>, k: int, tag: Seq<char>)
    requires
        audit::log_fault(key, log, seq![]) is None,
        0 <= k < log.len(),
        tag != log[k].tag,
    ensures
        audit::log_fault(key, log.update(k, Entry { tag, ..log[k] }), seq![]) is Some,
{
    let e = Entry { tag, ..log[k] };
    let other = log.update(k, e);
    lemma_in_order_means(key, log);
    lemma_in_order_means(key, other);
    if audit::log_fault(key, other, seq![]) is None {
        assert(is_linked(log, k) && is_linked(other, k));
        assert(other[k] == e);
        assert(audit::bytes_of(e) == audit::bytes_of(log[k]));
    }
}

/// A log in order under two keys has the same HMACs under both.
pub proof fn lemma_logs_hold_under_one_key(key: Seq<u8>, key2: Seq<u8>, log: Seq<Entry>, i: int)
    requires
        audit::log_fault(key, log, seq![]) is None,
        audit::log_fault(key2, log, seq![]) is None,
        0 <= i < log.len(),
    ensures
        ({
            let input = encode_utf8("maskroom-audit-tag-v1"@) + crypto::sha256_of(
                audit::bytes_of(log[i]),
            );
            crypto::hmac_of(key, input) == crypto::hmac_of(key2, input)
        }),
{
    let input = encode_utf8("maskroom-audit-tag-v1"@) + crypto::sha256_of(audit::bytes_of(log[i]));
    lemma_in_order_means(key, log);
    lemma_in_order_means(key2, log);
    assert(is_linked(log, i));
    crypto::lemma_hex_reads_back(crypto::hmac_of(key, input));
    crypto::lemma_hex_reads_back(crypto::hmac_of(key2, input));
}

/// An appended entry says what it was given: it has the next number, the time, the tenant, the
/// kind and the details as they came, names the digest of the end of the chain, and carries its
/// own digest and tag.
pub proof fn lemma_entries_say_what_was_given(
    key: Seq<u8>,
    seq: u64,
    hash: Seq<u8>,
    ts: i64,
    tenant: Option<Seq<char>>,
    kind: Seq<char>,
    details: Json,
)
    requires
        seq < u64::MAX,
    ensures
        ({
            let e = audit::next_entry(key, seq, hash, ts, tenant, kind, details);
            &&& e.seq == seq + 1
            &&& e.ts_unix == ts
            &&& e.tenant == tenant
            &&& e.kind == kind
            &&& e.details == details
            &&& e.prev_hash == crypto::hex_text(hash)
            &&& is_digested(e)
            &&& is_tagged(key, e)
        }),
{
}

/// How many line feeds there are among the first `p` characters.
pub open spec fn feeds(s: Seq<char>, p: int) -> int
    decreases p,
{
    if p <= 0 {
        0
    } else {
        feeds(s, p - 1) + if s[p - 1] == '\n' {
            1int
        } else {
            0
        }
    }
}

/// A line of the text reaches from `p` to `e`: it starts at the start of the text or behind a line
/// feed, ends at the end of the text or at a line feed, and holds none.
pub open spec fn is_line(s: Seq<char>, p: int, e: int) -> bool {
    &&& 0 <= p <= e <= s.len()
    &&& p < s.len()
    &&& p == 0 || s[p - 1] == '\n'
    &&& e == s.len() || s[e] == '\n'
    &&& forall|i: int| p <= i < e ==> s[i] != '\n'
}

/// The text of a line: a carriage return before the line feed is no part of it.
pub open spec fn line_text(s: Seq<char>, p: int, e: int) -> Seq<char> {
    if p < e < s.len() && s[e - 1] == '\r' {
        s.subrange(p, e - 1)
    } else {
        s.subrange(p, e)
    }
}

proof fn lemma_line_end(s: Seq<char>, p: int)
    requires
        0 <= p <= s.len(),
    ensures
        p <= audit::line_end(s, p) <= s.len(),
        audit::line_end(s, p) == s.len() || s[audit::line_end(s, p)] == '\n',
        forall|i: int| p <= i < audit::line_end(s, p) ==> s[i] != '\n',
        feeds(s, audit::line_end(s, p)) == feeds(s, p),
    decreases s.len() - p,
{
    if p < s.len() && s[p] != '\n' {
        lemma_line_end(s, p + 1);
    }
}

proof fn lemma_listed_lines(s: Seq<char>, p: int, n: int, line: Seq<char>, at: int)
    requires
        0 <= p <= s.len(),
        p == 0 || s[p - 1] == '\n',
        n == feeds(s, p) + 1,
        audit::lines_from(s, p, n).contains((at, line)),
    ensures
        exists|a: int, e: int|
            p <= a && #[trigger] is_line(s, a, e) && at == feeds(s, a) + 1 && line == line_text(
                s,
                a,
                e,
            ) && !text::is_blank(line),
    decreases s.len() - p,
{
    let all = audit::lines_from(s, p, n);
    if p < s.len() {
        let e = audit::line_end(s, p);
        lemma_line_end(s, p);
        let here = audit::line_at(s, p);
        let rest = if e < s.len() {
            audit::lines_from(s, e + 1, n + 1)
        } else {
            seq![]
        };
        let k = choose|k: int| 0 <= k < all.len() && all[k] == (at, line);
        if text::is_blank(here) {
            assert(all == rest);
            assert(rest.contains((at, line)));
            lemma_listed_lines(s, e + 1, n + 1, line, at);
        } else if k == 0 {
            assert(all[0] == (n, here));
            assert(is_line(s, p, e));
        } else {
            assert(all == seq![(n, here)] + rest);
            assert(rest[k - 1] == (at, line));
            lemma_listed_lines(s, e + 1, n + 1, line, at);
        }
    }
}

proof fn lemma_lines_are_listed(s: Seq<char>, p: int, n: int, a: int, z: int)
    requires
        0 <= p <= a,
        p <= s.len(),
        p == 0 || s[p - 1] == '\n',
        n == feeds(s, p) + 1,
        is_line(s, a, z),
        !text::is_blank(line_text(s, a, z)),
    ensures
        audit::lines_from(s, p, n).contains((feeds(s, a) + 1, line_text(s, a, z))),
    decreases s.len() - p,
{
    let all = audit::lines_from(s, p, n);
    let e = audit::line_end(s, p);
    lemma_line_end(s, p);
    let here = audit::line_at(s, p);
    let rest = if e < s.len() {
        audit::lines_from(s, e + 1, n + 1)
    } else {
        seq![]
    };
    let wanted = (feeds(s, a) + 1, line_text(s, a, z));
    if a == p {
        if z < e {
            assert(s[z] == '\n');
        } else if e < z {
            assert(s[e] != '\n');
        }
        assert(here == line_text(s, a, z));
        assert(all[0] == wanted);
    } else {
        if a <= e {
            assert(s[a - 1] == '\n');
        }
        lemma_lines_are_listed(s, e + 1, n + 1, a, z);
        let k = choose|k: int| 0 <= k < rest.len() && rest[k] == wanted;
        if text::is_blank(here) {
            assert(all[k] == wanted);
        } else {
            assert(all[k + 1] == wanted);
        }
    }
}

/// The lines of a log file are listed exactly if they are not blank, each with the number that it
/// has in the file.
pub proof fn lemma_which_lines_are_read(s: Seq<char>, at: int, line: Seq<char>)
    ensures
        audit::lines_from(s, 0, 1).contains((at, line)) <==> exists|a: int, e: int|
            #[trigger] is_line(s, a, e) && at == feeds(s, a) + 1 && line == line_text(s, a, e)
                && !text::is_blank(line),
{
    if audit::lines_from(s, 0, 1).contains((at, line)) {
        lemma_listed_lines(s, 0, 1, line, at);
    }
    if exists|a: int, e: int|
        #[trigger] is_line(s, a, e) && at == feeds(s, a) + 1 && line == line_text(s, a, e)
            && !text::is_blank(line) {
        let (a, e) = choose|a: int, e: int|
            #[trigger] is_line(s, a, e) && at == feeds(s, a) + 1 && line == line_text(s, a, e)
                && !text::is_blank(line);
        lemma_lines_are_listed(s, 0, 1, a, e);
    }
}

/// Every line of a log is either read or reported: the entries that were read come in their order,
/// and of each line that was not the report says its number.
pub proof fn lemma_lines_are_read_or_reported(list: Seq<(usize, Option<AuditEntry>)>)
    ensures
        audit::readable(list).len() + audit::unreadable(list).len() == list.len(),
        forall|i: int|
            0 <= i < list.len() ==> match (#[trigger] list[i]).1 {
                Some(e) => audit::readable(list).contains(e@),
                None => audit::unreadable(list).contains(
                    said_of(list[i].0 as nat, " 行无法解析"@),
                ),
            },
    decreases list.len(),
{
    if list.len() > 0 {
        let front = list.drop_last();
        lemma_lines_are_read_or_reported(front);
        let last = list.last();
        let read = audit::readable(front);
        let bad = audit::unreadable(front);
        assert forall|i: int| 0 <= i < list.len() implies match (#[trigger] list[i]).1 {
            Some(e) => audit::readable(list).contains(e@),
            None => audit::unreadable(list).contains(said_of(list[i].0 as nat, " 行无法解析"@)),
        } by {
            if i < front.len() {
                assert(front[i] == list[i]);
                match list[i].1 {
                    Some(e) => {
                        let k = choose|k: int| 0 <= k < read.len() && read[k] == e@;
                        assert(audit::readable(list)[k] == e@);
                    },
                    None => {
                        let m = said_of(list[i].0 as nat, " 行无法解析"@);
                        let k = choose|k: int| 0 <= k < bad.len() && bad[k] == m;
                        assert(audit::unreadable(list)[k] == m);
                    },
                }
            } else {
                match last.1 {
                    Some(e) => {
                        assert(audit::readable(list)[read.len() as int] == e@);
                    },
                    None => {
                        let m = said_of(last.0 as nat, " 行无法解析"@);
                        assert(audit::unreadable(list)[bad.len() as int] == m);
                    },
                }
            }
        }
    }
}

}
