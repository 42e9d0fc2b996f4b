//! Which fragments of a text are masked: tokens that stand in it already are left alone, the
//! rules propose candidates, and where candidates overlap one of them wins.

use crate::b64;
use crate::crypto;
use crate::sorting;
use crate::state::{MaskRule, MatchKind, Rule};
use crate::state;
use crate::text;
use regex::Regex;
use vstd::prelude::*;
use vstd::string::*;
use vstd::utf8::*;

verus! {

broadcast use vstd::seq::group_seq_axioms;

/// What a token starts with.
pub const OPENING: &'static str = "⟦TKN-";

/// What a token ends with.
pub const CLOSING: &'static str = "⟧";

/// The bytes of a token.
pub const TOKEN_BYTES: usize = 32;

/// The token with an id.
pub open spec fn token_text(token_id: Seq<char>) -> Seq<char> {
    OPENING@ + token_id + CLOSING@
}

/// Writes the token with an id.
pub fn make_token(token_id: &str) -> (r: String)
    ensures
        r@ == token_text(token_id@),
{
    let mut out: String = OPENING.to_string();
    out.append(token_id);
    out.append(CLOSING);
    out
}

/// The id of the token that a text is.
pub open spec fn extracted(s: Seq<char>) -> Option<Seq<char>> {
    if s.len() == 28 && s.take(5) == OPENING@ && s.skip(27) == CLOSING@ && crypto::is_token_id(
        s.subrange(5, 27),
    ) {
        Some(s.subrange(5, 27))
    } else {
        None
    }
}

proof fn lemma_bracket_bytes()
    by (bit_vector)
    ensures
        leading_byte_width_3(0x27e6u32) == 0xe2,
        second_last_continuation_byte(0x27e6u32) == 0x9f,
        last_continuation_byte(0x27e6u32) == 0xa6,
        leading_byte_width_3(0x27e7u32) == 0xe2,
        second_last_continuation_byte(0x27e7u32) == 0x9f,
        last_continuation_byte(0x27e7u32) == 0xa7,
{
}

/// The characters and bytes of what a token starts and ends with.
pub proof fn lemma_marks()
    ensures
        OPENING@ == seq!['⟦', 'T', 'K', 'N', '-'],
        CLOSING@ == seq!['⟧'],
        encode_utf8(OPENING@) == seq![0xe2u8, 0x9f, 0xa6, 0x54, 0x4b, 0x4e, 0x2d],
        encode_utf8(CLOSING@) == seq![0xe2u8, 0x9f, 0xa7],
{
    reveal_strlit("⟦TKN-");
    reveal_strlit("⟧");
    assert(OPENING@ =~= seq!['⟦', 'T', 'K', 'N', '-']);
    assert(CLOSING@ =~= seq!['⟧']);
    let tail = seq!['T', 'K', 'N', '-'];
    text::lemma_encode_ascii(tail, seq![0x54u8, 0x4b, 0x4e, 0x2d]);
    text::lemma_encode_one('⟦');
    text::lemma_encode_one('⟧');
    text::lemma_encode_concat(seq!['⟦'], tail);
    assert(OPENING@ =~= seq!['⟦'] + tail);
    lemma_bracket_bytes();
    assert(encode_scalar('⟦' as u32) =~= seq![0xe2u8, 0x9f, 0xa6]);
    assert(encode_scalar('⟧' as u32) =~= seq![0xe2u8, 0x9f, 0xa7]);
    assert(encode_utf8(OPENING@) =~= seq![0xe2u8, 0x9f, 0xa6, 0x54, 0x4b, 0x4e, 0x2d]);
}

fn is_id(chars: &[char]) -> (r: bool)
    ensures
        r == crypto::is_token_id(chars@),
{
    if chars.len() != crypto::TOKEN_ID_LEN {
        return false;
    }
    let mut i: usize = 0;
    while i < chars.len()
        invariant
            i <= chars@.len(),
            forall|k: int| 0 <= k < i ==> b64::symbol_value(#[trigger] chars@[k]) is Some,
        decreases chars@.len() - i,
    {
        if !b64::is_symbol(chars[i]) {
            return false;
        }
        i = i + 1;
    }
    true
}

/// The id of the token that a text is.
pub fn extract_token_id(input: &str) -> (r: Option<String>)
    ensures
        match extracted(input@) {
            Some(id) => r is Some && r->0@ == id,
            None => r is None,
        },
{
    let chars: Vec<char> = text::chars_of(input);
    if chars.len() != 28 {
        return None;
    }
    let head: String = text::string_of(vstd::slice::slice_subrange(chars.as_slice(), 0, 5));
    let tail: String = text::string_of(vstd::slice::slice_subrange(chars.as_slice(), 27, 28));
    let id: &[char] = vstd::slice::slice_subrange(chars.as_slice(), 5, 27);
    proof {
        assert(input@.take(5) =~= head@);
        assert(input@.skip(27) =~= tail@);
    }
    if text::same_text(head.as_str(), OPENING) && text::same_text(tail.as_str(), CLOSING) && is_id(
        id,
    ) {
        Some(text::string_of(id))
    } else {
        None
    }
}

/// The id of a token can be taken out of it again.
pub proof fn lemma_extraction_inverts_making(token_id: Seq<char>)
    requires
        crypto::is_token_id(token_id),
    ensures
        extracted(token_text(token_id)) == Some(token_id),
{
    lemma_marks();
    let s = token_text(token_id);
    assert(s.take(5) =~= OPENING@);
    assert(s.skip(27) =~= CLOSING@);
    assert(s.subrange(5, 27) =~= token_id);
}

/// A token starts at byte `p`.
pub open spec fn token_at(b: Seq<u8>, p: int) -> bool {
    &&& 0 <= p
    &&& p + TOKEN_BYTES <= b.len()
    &&& b.subrange(p, p + 7) == encode_utf8(OPENING@)
    &&& forall|i: int| p + 7 <= i < p + 29 ==> b64::symbol_value(#[trigger] b[i] as char) is Some
    &&& b.subrange(p + 29, p + 32) == encode_utf8(CLOSING@)
}

/// Where the tokens from byte `p` on start and end.
pub open spec fn token_spans(b: Seq<u8>, p: int) -> Seq<(int, int)>
    decreases b.len() - p,
{
    if !(0 <= p && p + TOKEN_BYTES <= b.len()) {
        seq![]
    } else if token_at(b, p) {
        seq![(p, p + TOKEN_BYTES)] + token_spans(b, p + TOKEN_BYTES)
    } else {
        token_spans(b, p + 1)
    }
}

/// The mathematical form of a list of ranges.
pub open spec fn ranges(list: Seq<(usize, usize)>) -> Seq<(int, int)> {
    list.map_values(|r: (usize, usize)| (r.0 as int, r.1 as int))
}

fn token_starts(b: &[u8], p: usize) -> (r: bool)
    requires
        p + TOKEN_BYTES <= b@.len(),
    ensures
        r == token_at(b@, p as int),
{
    let len: usize = b.len();
    if !text::same_bytes(vstd::slice::slice_subrange(b, p, p + 7), OPENING.as_bytes())
        || !text::same_bytes(
        vstd::slice::slice_subrange(b, p + 29, p + 32),
        CLOSING.as_bytes(),
    ) {
        return false;
    }
    let mut i: usize = p + 7;
    while i < p + 29
        invariant
            p + 7 <= i <= p + 29,
            p + TOKEN_BYTES <= len,
            len == b@.len(),
            forall|k: int| p + 7 <= k < i ==> b64::symbol_value(#[trigger] b@[k] as char) is Some,
        decreases p + 29 - i,
    {
        if !b64::is_symbol(b[i] as char) {
            return false;
        }
        i = i + 1;
    }
    true
}

/// Where the tokens of a text start and end.
pub fn protected_spans(text: &str) -> (r: Vec<(usize, usize)>)
    ensures
        ranges(r@) == token_spans(encode_utf8(text@), 0),
{
    let b: &[u8] = text.as_bytes();
    let len: usize = b.len();
    let mut out: Vec<(usize, usize)> = Vec::new();
    let mut p: usize = 0;
    assert(ranges(out@) + token_spans(b@, 0) =~= token_spans(b@, 0));
    while len - p >= TOKEN_BYTES
        invariant
            b@ == encode_utf8(text@),
            len == b@.len(),
            p <= len,
            ranges(out@) + token_spans(b@, p as int) == token_spans(b@, 0),
        decreases len - p,
    {
        if token_starts(b, p) {
            let ghost done = out@;
            out.push((p, p + TOKEN_BYTES));
            proof {
                assert(ranges(out@) =~= ranges(done).push((p as int, p + TOKEN_BYTES)));
                let rest = token_spans(b@, p + TOKEN_BYTES);
                assert(ranges(out@) + rest =~= ranges(done) + (seq![(p as int, p + TOKEN_BYTES)]
                    + rest));
            }
            p = p + TOKEN_BYTES;
        } else {
            p = p + 1;
        }
    }
    assert(ranges(out@) + token_spans(b@, p as int) =~= ranges(out@));
    out
}

/// What `regex::Regex::new` says of a pattern that it does not accept.
pub uninterp spec fn regex_fault(pattern: Seq<char>) -> Option<Seq<char>>;

/// The matches that `regex::Regex::find_iter` finds, as ranges of bytes; `None` for a pattern
/// that is not accepted.
pub uninterp spec fn regex_ranges(pattern: Seq<char>, text: Seq<char>) -> Option<Seq<(int, int)>>;

/// Why a pattern is not accepted, by `regex::Regex::new`, if it is not.
#[verifier::external_body]
pub(crate) fn regex_error(pattern: &str) -> (r: Option<String>)
    ensures
        match regex_fault(pattern@) {
            Some(message) => r is Some && r->0@ == message,
            None => r is None,
        },
{
    Regex::new(pattern).err().map(|e| e.to_string())
}

/// The matches of a pattern, by `regex::Regex::find_iter`: each is a range of the text that
/// cuts no character, and each starts no sooner than the one before it ends. There is no
/// answer for the patterns that `regex::Regex::new` refuses, and for no others.
#[verifier::external_body]
fn regex_matches(pattern: &str, text: &str) -> (r: Option<Vec<(usize, usize)>>)
    ensures
        match regex_ranges(pattern@, text@) {
            Some(found) => {
                &&& r is Some
                &&& ranges(r->0@) == found
                &&& forall|i: int|
                    0 <= i < found.len() ==> text::is_text_range(
                        text@,
                        (#[trigger] found[i]).0,
                        found[i].1,
                    )
                &&& forall|i: int, j: int|
                    0 <= i < j < found.len() ==> (#[trigger] found[i]).1 <= (
                    #[trigger] found[j]).0
            },
            None => r is None,
        },
        r is None <==> regex_fault(pattern@) is Some,
{
    let re = Regex::new(pattern).ok()?;
    Some(re.find_iter(text).map(|m| (m.start(), m.end())).collect())
}

/// Where a byte string occurs from byte `p` on, from left to right and without overlaps.
pub open spec fn occurrences(b: Seq<u8>, pattern: Seq<u8>, p: int) -> Seq<(int, int)>
    decreases b.len() - p,
{
    if !(0 <= p && p + pattern.len() <= b.len() && pattern.len() > 0) {
        seq![]
    } else if b.subrange(p, p + pattern.len()) == pattern {
        seq![(p, (p + pattern.len()) as int)] + occurrences(b, pattern, (p + pattern.len()) as int)
    } else {
        occurrences(b, pattern, p + 1)
    }
}

/// The ranges that are not empty.
pub open spec fn not_empty(list: Seq<(int, int)>) -> Seq<(int, int)>
    decreases list.len(),
{
    if list.len() == 0 {
        seq![]
    } else if list.last().0 < list.last().1 {
        not_empty(list.drop_last()).push(list.last())
    } else {
        not_empty(list.drop_last())
    }
}

/// The ranges of a text that a rule matches.
pub open spec fn rule_ranges(rule: MaskRule, text: Seq<char>) -> Seq<(int, int)> {
    match rule.kind {
        MatchKind::Literal => occurrences(encode_utf8(text), encode_utf8(rule.pattern), 0),
        MatchKind::Regex => match regex_ranges(rule.pattern, text) {
            Some(found) => not_empty(found),
            None => seq![],
        },
    }
}

/// The list holds ranges of the text that are not empty and cut no character.
pub open spec fn are_fragments(text: Seq<char>, list: Seq<(int, int)>) -> bool {
    forall|i: int|
        0 <= i < list.len() ==> (#[trigger] list[i]).0 < list[i].1 && text::is_text_range(
            text,
            list[i].0,
            list[i].1,
        )
}

/// Where a text occurs in another, no character is cut.
proof fn lemma_occurrence_is_range(s: Seq<char>, pattern: Seq<char>, p: int)
    requires
        0 <= p,
        p + encode_utf8(pattern).len() <= encode_utf8(s).len(),
        encode_utf8(s).subrange(p, (p + encode_utf8(pattern).len()) as int) == encode_utf8(pattern),
        pattern.len() > 0,
    ensures
        is_char_boundary(encode_utf8(s), p),
        is_char_boundary(encode_utf8(s), (p + encode_utf8(pattern).len()) as int),
    decreases pattern.len(),
{
    let b = encode_utf8(s);
    let e = encode_utf8(pattern);
    let c = pattern[0];
    let one = encode_scalar(c as u32);
    let rest = encode_utf8(pattern.drop_first());
    encode_utf8_valid_utf8(s);
    assert(e == one + rest);
    let front = b.take(p);
    let back = b.skip((p + one.len()) as int);
    assert(b.subrange(p, (p + one.len()) as int) =~= one) by {
        assert forall|i: int| 0 <= i < one.len() implies b[p + i] == one[i] by {
            assert(b.subrange(p, (p + e.len()) as int)[i] == e[i]);
        }
    }
    assert(b =~= front + one + back);
    text::lemma_char_at_encoded(front, c, back);
    text::lemma_char_at_boundary(b, p);
    text::lemma_char_at_width(b, p);
    let w = text::width(c) as int;
    assert(w == one.len()) by {
        assert(b.subrange(p, p + w) == one);
    }
    if pattern.len() > 1 {
        let q = p + w;
        assert(b.subrange(q, (q + rest.len()) as int) =~= rest) by {
            assert forall|i: int| 0 <= i < rest.len() implies b[q + i] == rest[i] by {
                assert(b.subrange(p, (p + e.len()) as int)[w + i] == e[w + i]);
            }
        }
        lemma_occurrence_is_range(s, pattern.drop_first(), q);
    } else {
        assert(pattern.drop_first() =~= Seq::empty());
        assert(rest.len() == 0);
    }
}

proof fn lemma_occurrences_are_fragments(s: Seq<char>, pattern: Seq<char>, p: int)
    requires
        0 <= p,
    ensures
        are_fragments(s, occurrences(encode_utf8(s), encode_utf8(pattern), p)),
    decreases encode_utf8(s).len() - p,
{
    let b = encode_utf8(s);
    let e = encode_utf8(pattern);
    if p + e.len() <= b.len() && e.len() > 0 {
        let end = (p + e.len()) as int;
        if b.subrange(p, end) == e {
            assert(pattern.len() > 0);
            lemma_occurrence_is_range(s, pattern, p);
            lemma_occurrences_are_fragments(s, pattern, end);
        } else {
            lemma_occurrences_are_fragments(s, pattern, p + 1);
        }
    }
}

proof fn lemma_not_empty_are_fragments(s: Seq<char>, list: Seq<(int, int)>)
    requires
        forall|i: int|
            0 <= i < list.len() ==> text::is_text_range(s, (#[trigger] list[i]).0, list[i].1),
    ensures
        are_fragments(s, not_empty(list)),
    decreases list.len(),
{
    if list.len() > 0 {
        let front = list.drop_last();
        assert forall|i: int| 0 <= i < front.len() implies text::is_text_range(
            s,
            (#[trigger] front[i]).0,
            front[i].1,
        ) by {
            assert(front[i] == list[i]);
        }
        lemma_not_empty_are_fragments(s, front);
        assert(list[list.len() - 1] == list.last());
    }
}

fn literal_matches(pattern: &str, text: &str) -> (r: Vec<(usize, usize)>)
    ensures
        ranges(r@) == occurrences(encode_utf8(text@), encode_utf8(pattern@), 0),
{
    let b: &[u8] = text.as_bytes();
    let e: &[u8] = pattern.as_bytes();
    let len: usize = b.len();
    let size: usize = e.len();
    let mut out: Vec<(usize, usize)> = Vec::new();
    if size == 0 {
        assert(ranges(out@) =~= seq![]);
        return out;
    }
    let mut p: usize = 0;
    assert(ranges(out@) + occurrences(b@, e@, 0) =~= occurrences(b@, e@, 0));
    while len - p >= size
        invariant
            b@ == encode_utf8(text@),
            e@ == encode_utf8(pattern@),
            len == b@.len(),
            size == e@.len(),
            size > 0,
            p <= len,
            ranges(out@) + occurrences(b@, e@, p as int) == occurrences(b@, e@, 0),
        decreases len - p,
    {
        if text::same_bytes(vstd::slice::slice_subrange(b, p, p + size), e) {
            let ghost done = out@;
            out.push((p, p + size));
            proof {
                assert(ranges(out@) =~= ranges(done).push((p as int, p + size)));
                let rest = occurrences(b@, e@, p + size);
                assert(ranges(out@) + rest =~= ranges(done) + (seq![(p as int, p + size)] + rest));
            }
            p = p + size;
        } else {
            p = p + 1;
        }
    }
    assert(ranges(out@) + occurrences(b@, e@, p as int) =~= ranges(out@));
    out
}

/// The ranges of a text that a rule matches.
fn matches_of(rule: &Rule, text: &str) -> (r: Vec<(usize, usize)>)
    ensures
        ranges(r@) == rule_ranges(rule@, text@),
        are_fragments(text@, ranges(r@)),
{
    match rule.kind {
        MatchKind::Literal => {
            proof {
                lemma_occurrences_are_fragments(text@, rule.pattern@, 0);
            }
            literal_matches(rule.pattern.as_str(), text)
        },
        MatchKind::Regex => {
            let found: Vec<(usize, usize)> = match regex_matches(rule.pattern.as_str(), text) {
                Some(f) => f,
                None => {
                    let none: Vec<(usize, usize)> = Vec::new();
                    assert(ranges(none@) =~= seq![]);
                    return none;
                },
            };
            let ghost all = ranges(found@);
            let mut out: Vec<(usize, usize)> = Vec::new();
            let mut i: usize = 0;
            assert(ranges(out@) =~= not_empty(all.take(0)));
            while i < found.len()
                invariant
                    i <= found@.len(),
                    all == ranges(found@),
                    ranges(out@) == not_empty(all.take(i as int)),
                decreases found@.len() - i,
            {
                let ghost done = out@;
                let (start, end): (usize, usize) = found[i];
                proof {
                    assert(all.take(i + 1).drop_last() =~= all.take(i as int));
                    assert(all.take(i + 1).last() == (start as int, end as int));
                }
                if start < end {
                    out.push((start, end));
                    assert(ranges(out@) =~= ranges(done).push((start as int, end as int)));
                }
                i = i + 1;
            }
            proof {
                assert(all.take(i as int) =~= all);
                lemma_not_empty_are_fragments(text@, all);
            }
            out
        },
    }
}

/// A fragment that a rule proposes to mask.
#[derive(Debug)]
pub struct Candidate {
    pub rule_idx: usize,
    pub start: usize,
    pub end: usize,
    pub matched: String,
}

/// The mathematical form of a `Candidate`.
pub struct Hit {
    pub rule: int,
    pub start: int,
    pub end: int,
    pub matched: Seq<char>,
}

impl View for Candidate {
    type V = Hit;

    open spec fn view(&self) -> Hit {
        Hit {
            rule: self.rule_idx as int,
            start: self.start as int,
            end: self.end as int,
            matched: self.matched@,
        }
    }
}

impl Clone for Candidate {
    fn clone(&self) -> (r: Self)
        ensures
            r@ == self@,
    {
        Candidate {
            rule_idx: self.rule_idx,
            start: self.start,
            end: self.end,
            matched: self.matched.clone(),
        }
    }
}

/// The hits of a list.
pub open spec fn hits_of(list: Seq<Candidate>) -> Seq<Hit> {
    list.map_values(|c: Candidate| c@)
}

/// The hit of a rule on a range.
pub open spec fn hit_at(rule: int, text: Seq<char>, range: (int, int)) -> Hit {
    Hit { rule, start: range.0, end: range.1, matched: text::slice_of(text, range.0, range.1) }
}

/// The hits of a rule on a list of ranges.
pub open spec fn hits_at(rule: int, text: Seq<char>, list: Seq<(int, int)>) -> Seq<Hit> {
    list.map_values(|range: (int, int)| hit_at(rule, text, range))
}

/// The hits of the first `n` rules, one rule after the other.
pub open spec fn proposed(rules: Seq<MaskRule>, text: Seq<char>, n: int) -> Seq<Hit>
    decreases n,
{
    if n <= 0 {
        seq![]
    } else {
        proposed(rules, text, n - 1) + hits_at(n - 1, text, rule_ranges(rules[n - 1], text))
    }
}

/// The hit belongs to one of `n` rules and is a fragment of the text.
pub open spec fn is_hit(n: int, text: Seq<char>, h: Hit) -> bool {
    &&& 0 <= h.rule < n
    &&& h.start < h.end
    &&& text::is_text_range(text, h.start, h.end)
    &&& h.matched == text::slice_of(text, h.start, h.end)
}

/// All of the list are hits.
pub open spec fn are_hits(n: int, text: Seq<char>, list: Seq<Hit>) -> bool {
    forall|i: int| 0 <= i < list.len() ==> is_hit(n, text, #[trigger] list[i])
}

/// The fragments that the rules propose, one rule after the other.
pub fn find_candidates(rules: &Vec<Rule>, text: &str) -> (r: Vec<Candidate>)
    ensures
        hits_of(r@) == proposed(state::rules_of(rules@), text@, rules@.len() as int),
        are_hits(rules@.len() as int, text@, hits_of(r@)),
{
    let ghost all = state::rules_of(rules@);
    let mut out: Vec<Candidate> = Vec::new();
    let mut n: usize = 0;
    assert(hits_of(out@) =~= proposed(all, text@, 0));
    while n < rules.len()
        invariant
            n <= rules@.len(),
            all == state::rules_of(rules@),
            hits_of(out@) == proposed(all, text@, n as int),
            are_hits(rules@.len() as int, text@, hits_of(out@)),
        decreases rules@.len() - n,
    {
        let found: Vec<(usize, usize)> = matches_of(&rules[n], text);
        let ghost before = hits_of(out@);
        let ghost cuts = ranges(found@);
        let ghost wanted = hits_at(n as int, text@, cuts);
        let mut i: usize = 0;
        assert(hits_of(out@) =~= before + wanted.take(0));
        while i < found.len()
            invariant
                n < rules@.len(),
                i <= found@.len(),
                cuts == ranges(found@),
                are_fragments(text@, cuts),
                wanted == hits_at(n as int, text@, cuts),
                hits_of(out@) == before + wanted.take(i as int),
                are_hits(rules@.len() as int, text@, hits_of(out@)),
            decreases found@.len() - i,
        {
            let (start, end): (usize, usize) = found[i];
            let ghost done = out@;
            assert(cuts[i as int] == (start as int, end as int));
            let matched: String = text::slice_text(text, start, end).to_string();
            let c: Candidate = Candidate { rule_idx: n, start, end, matched };
            assert(wanted[i as int] == c@);
            out.push(c);
            proof {
                assert(hits_of(out@) =~= hits_of(done).push(c@));
                assert(wanted.take(i + 1) =~= wanted.take(i as int).push(c@));
                assert(hits_of(out@) =~= before + wanted.take(i + 1));
                assert(is_hit(rules@.len() as int, text@, c@));
            }
            i = i + 1;
        }
        proof {
            assert(wanted.take(i as int) =~= wanted);
            assert(all[n as int] == rules@[n as int]@);
        }
        n = n + 1;
    }
    out
}

/// The two ranges have a byte in common.
pub open spec fn overlap(a: Hit, b: Hit) -> bool {
    a.start < b.end && b.start < a.end
}

/// The hit has a byte in common with one of the ranges.
pub open spec fn meets(h: Hit, shield: Seq<(int, int)>) -> bool {
    exists|i: int|
        0 <= i < shield.len() && h.start < (#[trigger] shield[i]).1 && shield[i].0 < h.end
}

/// The hits that meet none of the ranges.
pub open spec fn unshielded(list: Seq<Hit>, shield: Seq<(int, int)>) -> Seq<Hit>
    decreases list.len(),
{
    if list.len() == 0 {
        seq![]
    } else if meets(list.last(), shield) {
        unshielded(list.drop_last(), shield)
    } else {
        unshielded(list.drop_last(), shield).push(list.last())
    }
}

/// A hit with the priority of its rule.
pub open spec fn with_priority(rules: Seq<MaskRule>, h: Hit) -> (i32, Hit) {
    (rules[h.rule].priority, h)
}

/// The hits with the priorities of their rules.
pub open spec fn with_priorities(rules: Seq<MaskRule>, list: Seq<Hit>) -> Seq<(i32, Hit)> {
    list.map_values(|h: Hit| with_priority(rules, h))
}

/// Which of two hits wins: the one of higher priority, else the longer one, else the one
/// further left, else the one of the rule that comes first.
pub open spec fn wins(a: (i32, Hit), b: (i32, Hit)) -> bool {
    let la = a.1.end - a.1.start;
    let lb = b.1.end - b.1.start;
    if a.0 != b.0 {
        a.0 > b.0
    } else if la != lb {
        la > lb
    } else if a.1.start != b.1.start {
        a.1.start < b.1.start
    } else {
        a.1.rule < b.1.rule
    }
}

/// The first hit of the list that overlaps `h`.
pub open spec fn first_overlap(list: Seq<Hit>, h: Hit) -> Option<Hit>
    decreases list.len(),
{
    if list.len() == 0 {
        None
    } else {
        match first_overlap(list.drop_last(), h) {
            Some(x) => Some(x),
            None => if overlap(list.last(), h) {
                Some(list.last())
            } else {
                None
            },
        }
    }
}

/// The winners among the first `n` hits of a ranking, in its order: those that overlap no
/// winner before them.
pub open spec fn winners(ranking: Seq<(i32, Hit)>, n: int) -> Seq<Hit>
    decreases n,
{
    if n <= 0 {
        seq![]
    } else {
        let before = winners(ranking, n - 1);
        if first_overlap(before, ranking[n - 1].1) is Some {
            before
        } else {
            before.push(ranking[n - 1].1)
        }
    }
}

/// The losers among the first `n` hits of a ranking, each with the winner that it lost to.
pub open spec fn losers(ranking: Seq<(i32, Hit)>, n: int) -> Seq<(Hit, Hit)>
    decreases n,
{
    if n <= 0 {
        seq![]
    } else {
        let before = losers(ranking, n - 1);
        match first_overlap(winners(ranking, n - 1), ranking[n - 1].1) {
            Some(x) => before.push((ranking[n - 1].1, x)),
            None => before,
        }
    }
}

/// The ranking of the hits that meet none of the ranges.
pub open spec fn ranking_of(
    rules: Seq<MaskRule>,
    list: Seq<Hit>,
    shield: Seq<(int, int)>,
) -> Seq<(i32, Hit)> {
    sorting::sorted(
        with_priorities(rules, unshielded(list, shield)),
        |a: (i32, Hit), b: (i32, Hit)| wins(a, b),
    )
}

/// What becomes of the hits: the winners from left to right, and the losers.
pub struct Ruling {
    pub accepted: Seq<Hit>,
    pub suppressed: Seq<(Hit, Hit)>,
}

/// What becomes of the hits of a text in which some ranges are protected.
pub open spec fn ruling(
    rules: Seq<MaskRule>,
    list: Seq<Hit>,
    shield: Seq<(int, int)>,
) -> Ruling {
    let ranking = ranking_of(rules, list, shield);
    let n = ranking.len() as int;
    Ruling {
        accepted: sorting::sorted(winners(ranking, n), |a: Hit, b: Hit| a.start < b.start),
        suppressed: losers(ranking, n),
    }
}

/// A candidate that lost, with the one that it lost to.
#[derive(Debug)]
pub struct Suppressed {
    pub cand: Candidate,
    pub by: Candidate,
}

/// What became of the candidates.
#[derive(Debug)]
pub struct Adjudication {
    pub accepted: Vec<Candidate>,
    pub suppressed: Vec<Suppressed>,
}

/// The losers of a list.
pub open spec fn losers_of(list: Seq<Suppressed>) -> Seq<(Hit, Hit)> {
    list.map_values(|s: Suppressed| (s.cand@, s.by@))
}

impl View for Adjudication {
    type V = Ruling;

    open spec fn view(&self) -> Ruling {
        Ruling { accepted: hits_of(self.accepted@), suppressed: losers_of(self.suppressed@) }
    }
}

fn is_shielded(c: &Candidate, protected: &Vec<(usize, usize)>) -> (r: bool)
    ensures
        r == meets(c@, ranges(protected@)),
{
    let ghost shield = ranges(protected@);
    let mut i: usize = 0;
    while i < protected.len()
        invariant
            i <= protected@.len(),
            shield == ranges(protected@),
            forall|k: int|
                0 <= k < i ==> !(c.start < (#[trigger] shield[k]).1 && shield[k].0 < c.end),
        decreases protected@.len() - i,
    {
        let (a, b): (usize, usize) = protected[i];
        assert(shield[i as int] == (a as int, b as int));
        if c.start < b && a < c.end {
            return true;
        }
        i = i + 1;
    }
    false
}

fn candidate_wins(x: &(i32, Candidate), y: &(i32, Candidate)) -> (r: bool)
    ensures
        r == wins((x.0, x.1@), (y.0, y.1@)),
{
    let la: i128 = x.1.end as i128 - x.1.start as i128;
    let lb: i128 = y.1.end as i128 - y.1.start as i128;
    if x.0 != y.0 {
        x.0 > y.0
    } else if la != lb {
        la > lb
    } else if x.1.start != y.1.start {
        x.1.start < y.1.start
    } else {
        x.1.rule_idx < y.1.rule_idx
    }
}

fn starts_before(x: &Candidate, y: &Candidate) -> (r: bool)
    ensures
        r == (x.start < y.start),
{
    x.start < y.start
}

proof fn lemma_first_overlap_extends(list: Seq<Hit>, h: Hit, n: int)
    requires
        0 <= n <= list.len(),
        first_overlap(list.take(n), h) is Some,
    ensures
        first_overlap(list, h) == first_overlap(list.take(n), h),
    decreases list.len(),
{
    if n < list.len() {
        assert(list.drop_last().take(n) =~= list.take(n));
        lemma_first_overlap_extends(list.drop_last(), h, n);
    } else {
        assert(list.take(n) =~= list);
    }
}

fn find_overlap(list: &Vec<Candidate>, c: &Candidate) -> (r: Option<usize>)
    ensures
        match r {
            Some(i) => i < list@.len() && first_overlap(hits_of(list@), c@) == Some(
                list@[i as int]@,
            ),
            None => first_overlap(hits_of(list@), c@) is None,
        },
{
    let ghost all = hits_of(list@);
    let mut i: usize = 0;
    while i < list.len()
        invariant
            i <= list@.len(),
            all == hits_of(list@),
            first_overlap(all.take(i as int), c@) is None,
        decreases list@.len() - i,
    {
        proof {
            assert(all.take(i + 1).drop_last() =~= all.take(i as int));
            assert(all.take(i + 1).last() == list@[i as int]@);
        }
        if list[i].start < c.end && c.start < list[i].end {
            proof {
                lemma_first_overlap_extends(all, c@, i + 1);
            }
            return Some(i);
        }
        i = i + 1;
    }
    assert(all.take(i as int) =~= all);
    None
}

/// Decides between candidates that overlap, and passes over those that meet a protected range.
pub fn adjudicate(
    rules: &Vec<Rule>,
    candidates: Vec<Candidate>,
    protected: &Vec<(usize, usize)>,
) -> (r: Adjudication)
    requires
        forall|i: int|
            0 <= i < candidates@.len() ==> (#[trigger] candidates@[i]).rule_idx < rules@.len(),
    ensures
        r@ == ruling(state::rules_of(rules@), hits_of(candidates@), ranges(protected@)),
{
    let ghost all = candidates@;
    let ghost laws = state::rules_of(rules@);
    let ghost shield = ranges(protected@);
    let ghost f = |p: (i32, Candidate)| (p.0, p.1@);
    let mut rest: Vec<Candidate> = candidates;
    let mut free: Vec<(i32, Candidate)> = Vec::new();
    let ghost mut done: int = 0;
    proof {
        assert(hits_of(all).take(0) =~= Seq::empty());
        assert(free@.map_values(f) =~= with_priorities(
            laws,
            unshielded(hits_of(all).take(0), shield),
        ));
    }
    while rest.len() > 0
        invariant
            0 <= done <= all.len(),
            rest@ == all.skip(done),
            laws == state::rules_of(rules@),
            shield == ranges(protected@),
            f == (|p: (i32, Candidate)| (p.0, p.1@)),
            forall|i: int| 0 <= i < all.len() ==> (#[trigger] all[i]).rule_idx < rules@.len(),
            free@.map_values(f) == with_priorities(
                laws,
                unshielded(hits_of(all).take(done), shield),
            ),
        decreases rest@.len(),
    {
        let ghost free_before = free@;
        let c: Candidate = rest.remove(0);
        proof {
            assert(all[done] == c);
            assert(rest@ =~= all.skip(done + 1));
            assert(hits_of(all).take(done + 1).drop_last() =~= hits_of(all).take(done));
            assert(hits_of(all).take(done + 1).last() == c@);
            done = done + 1;
        }
        if !is_shielded(&c, protected) {
            let priority: i32 = rules[c.rule_idx].priority;
            free.push((priority, c));
            proof {
                assert(free@.map_values(f) =~= free_before.map_values(f).push((priority, c@)));
                let kept = unshielded(hits_of(all).take(done - 1), shield);
                assert(with_priorities(laws, kept.push(c@)) =~= with_priorities(laws, kept).push(
                    with_priority(laws, c@),
                ));
            }
        }
    }
    let ghost unsorted = free@;
    let ghost order = |x: (i32, Candidate), y: (i32, Candidate)| wins((x.0, x.1@), (y.0, y.1@));
    let mut ranked: Vec<(i32, Candidate)> = sorting::sort_by(free, Ghost(order), candidate_wins);
    let ghost ranking = ranking_of(laws, hits_of(all), shield);
    proof {
        assert(hits_of(all).take(done) =~= hits_of(all));
        sorting::lemma_sorted_maps(
            unsorted,
            f,
            order,
            |a: (i32, Hit), b: (i32, Hit)| wins(a, b),
        );
        assert(ranked@.map_values(f) == ranking);
    }
    let ghost places = ranked@;
    let mut won: Vec<Candidate> = Vec::new();
    let mut lost: Vec<Suppressed> = Vec::new();
    let ghost mut n: int = 0;
    assert(hits_of(won@) =~= winners(ranking, 0));
    assert(losers_of(lost@) =~= losers(ranking, 0));
    while ranked.len() > 0
        invariant
            0 <= n <= places.len(),
            ranked@ == places.skip(n),
            f == (|p: (i32, Candidate)| (p.0, p.1@)),
            places.map_values(f) == ranking,
            hits_of(won@) == winners(ranking, n),
            losers_of(lost@) == losers(ranking, n),
        decreases ranked@.len(),
    {
        let ghost won_before = won@;
        let ghost lost_before = lost@;
        let (priority, c): (i32, Candidate) = ranked.remove(0);
        proof {
            assert(places[n] == (priority, c));
            assert(ranking[n] == f(places[n]));
            assert(ranked@ =~= places.skip(n + 1));
            n = n + 1;
        }
        match find_overlap(&won, &c) {
            Some(i) => {
                let by: Candidate = won[i].clone();
                let ghost pair = (c@, by@);
                lost.push(Suppressed { cand: c, by });
                assert(losers_of(lost@) =~= losers_of(lost_before).push(pair));
            },
            None => {
                won.push(c);
                assert(hits_of(won@) =~= hits_of(won_before).push(c@));
            },
        }
    }
    let ghost won_all = won@;
    let ghost left = |x: Candidate, y: Candidate| x.start < y.start;
    let accepted: Vec<Candidate> = sorting::sort_by(won, Ghost(left), starts_before);
    proof {
        sorting::lemma_sorted_maps(
            won_all,
            |c: Candidate| c@,
            left,
            |a: Hit, b: Hit| a.start < b.start,
        );
    }
    Adjudication { accepted, suppressed: lost }
}

}
