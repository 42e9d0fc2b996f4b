//! The form of tokens, `MTKN-G<generation>-<22 characters>-<11 characters>`. Their fixed
//! structure lets a later pass recognise tokens and leave them alone.

use crate::b64;
use crate::crypto;
use crate::text;
use vstd::prelude::*;
use vstd::string::*;
use vstd::utf8::*;

verus! {

broadcast use vstd::seq::group_seq_axioms;

/// What every token starts with.
pub const PREFIX: &'static str = "MTKN-G";

/// The bytes of a record id.
pub const ID_LEN: usize = 16;

/// The bytes of a tag: a truncated HMAC.
pub const TAG_LEN: usize = 8;

/// The bytes that the tag of a token is taken over.
pub open spec fn tag_input(gen: u64, tenant: Seq<char>, id: Seq<u8>) -> Seq<u8> {
    encode_utf8("maskroom-token-tag-v1"@) + crypto::be8(gen) + encode_utf8(tenant) + id
}

/// The tag of a token.
pub open spec fn tag_of(key: Seq<u8>, gen: u64, tenant: Seq<char>, id: Seq<u8>) -> Seq<u8> {
    crypto::hmac_of(key, tag_input(gen, tenant, id)).take(TAG_LEN as int)
}

/// Computes the tag of a token.
pub fn token_tag(tag_key: &[u8], gen: u64, tenant: &str, id: &[u8]) -> (r: Vec<u8>)
    ensures
        r@ == tag_of(tag_key@, gen, tenant@, id@),
        r@.len() == TAG_LEN,
{
    let mut input: Vec<u8> = Vec::new();
    crypto::push_text(&mut input, "maskroom-token-tag-v1");
    crypto::push_be8(&mut input, gen);
    crypto::push_text(&mut input, tenant);
    crypto::push_bytes(&mut input, id);
    assert(input@ =~= tag_input(gen, tenant@, id@));
    let full: [u8; 32] = crypto::hmac_sha256(tag_key, input.as_slice());
    crypto::first_bytes(&full, TAG_LEN)
}

/// The text of a token.
pub open spec fn token_text(gen: u64, id: Seq<u8>, tag: Seq<u8>) -> Seq<char> {
    PREFIX@ + text::dec(gen as nat) + "-"@ + b64::encoded(id) + "-"@ + b64::encoded(tag)
}

/// Writes a token.
pub fn build(gen: u64, id: &[u8], tag: &[u8]) -> (r: String)
    requires
        id@.len() == ID_LEN,
        tag@.len() == TAG_LEN,
    ensures
        r@ == token_text(gen, id@, tag@),
{
    let mut out: String = PREFIX.to_string();
    text::push_decimal(&mut out, gen);
    out.append("-");
    out.append(b64::encode(id).as_str());
    out.append("-");
    out.append(b64::encode(tag).as_str());
    out
}

/// The parts of a token.
#[derive(Debug, PartialEq, Eq)]
pub struct ParsedToken {
    pub gen: u64,
    pub id: Vec<u8>,
    pub tag: Vec<u8>,
}

/// The mathematical form of a `ParsedToken`.
pub struct Token {
    pub gen: u64,
    pub id: Seq<u8>,
    pub tag: Seq<u8>,
}

impl View for ParsedToken {
    type V = Token;

    open spec fn view(&self) -> Token {
        Token { gen: self.gen, id: self.id@, tag: self.tag@ }
    }
}

impl Clone for ParsedToken {
    fn clone(&self) -> (r: Self)
        ensures
            r@ == self@,
    {
        let mut id: Vec<u8> = Vec::new();
        crypto::push_bytes(&mut id, self.id.as_slice());
        let mut tag: Vec<u8> = Vec::new();
        crypto::push_bytes(&mut tag, self.tag.as_slice());
        assert(id@ =~= self.id@);
        assert(tag@ =~= self.tag@);
        ParsedToken { gen: self.gen, id, tag }
    }
}

/// The first place from `p` on that holds a hyphen, or the end.
pub open spec fn hyphen_from(s: Seq<char>, p: int) -> int
    decreases s.len() - p,
{
    if 0 <= p < s.len() && s[p] != '-' {
        hyphen_from(s, p + 1)
    } else {
        p
    }
}

/// The token that three parts make.
pub open spec fn assembled(gen: Seq<char>, id: Seq<char>, tag: Seq<char>) -> Option<Token> {
    match (text::unsigned_value(gen), b64::decoded(id), b64::decoded(tag)) {
        (Some(g), Some(i), Some(t)) => if gen.len() <= 20 && 0 < g <= u64::MAX && id.len() == 22
            && tag.len() == 11 {
            Some(Token { gen: g as u64, id: i, tag: t })
        } else {
            None
        },
        _ => None,
    }
}

/// The token that a text is.
pub open spec fn parsed(s: Seq<char>) -> Option<Token> {
    let p = PREFIX@.len() as int;
    let first = hyphen_from(s, p);
    let second = hyphen_from(s, first + 1);
    if PREFIX@.len() <= s.len() && s.take(p) == PREFIX@ && first < s.len() && second < s.len() {
        assembled(
            s.subrange(p, first),
            s.subrange(first + 1, second),
            s.subrange(second + 1, s.len() as int),
        )
    } else {
        None
    }
}

fn next_hyphen(chars: &Vec<char>, from: usize) -> (r: usize)
    requires
        from <= chars@.len(),
    ensures
        r == hyphen_from(chars@, from as int),
        from <= r <= chars@.len(),
{
    let mut i: usize = from;
    while i < chars.len() && chars[i] != '-'
        invariant
            from <= i <= chars@.len(),
            hyphen_from(chars@, from as int) == hyphen_from(chars@, i as int),
        decreases chars@.len() - i,
    {
        i = i + 1;
    }
    i
}

fn part(chars: &Vec<char>, from: usize, to: usize) -> (r: String)
    requires
        from <= to <= chars@.len(),
    ensures
        r@ == chars@.subrange(from as int, to as int),
{
    text::string_of(vstd::slice::slice_subrange(chars.as_slice(), from, to))
}

proof fn lemma_prefix()
    ensures
        PREFIX@ == seq!['M', 'T', 'K', 'N', '-', 'G'],
        encode_utf8(PREFIX@) == seq![0x4du8, 0x54, 0x4b, 0x4e, 0x2d, 0x47],
        "-"@ == seq!['-'],
{
    reveal_strlit("MTKN-G");
    reveal_strlit("-");
    assert(PREFIX@ =~= seq!['M', 'T', 'K', 'N', '-', 'G']);
    assert("-"@ =~= seq!['-']);
    text::lemma_encode_ascii(PREFIX@, seq![0x4du8, 0x54, 0x4b, 0x4e, 0x2d, 0x47]);
}

/// The length of decoded bytes follows from the length of the text.
proof fn lemma_decoded_len(s: Seq<char>)
    requires
        b64::decoded(s) is Some,
    ensures
        s.len() == b64::encoded_len(b64::decoded(s)->0.len()),
{
    b64::lemma_encode_inverts_decode(s);
    b64::lemma_decode_inverts_encode(b64::decoded(s)->0);
}

/// Reads a token.
pub fn parse(s: &str) -> (r: Option<ParsedToken>)
    ensures
        match parsed(s@) {
            Some(t) => r is Some && r->0@ == t && t.id.len() == ID_LEN && t.tag.len() == TAG_LEN,
            None => r is None,
        },
{
    let chars: Vec<char> = text::chars_of(s);
    let head: Vec<char> = text::chars_of(PREFIX);
    proof {
        lemma_prefix();
    }
    if chars.len() < head.len() || !text::same_text(
        part(&chars, 0, head.len()).as_str(),
        PREFIX,
    ) {
        assert(s@.take(6) =~= s@.subrange(0, 6));
        return None;
    }
    assert(s@.take(6) =~= s@.subrange(0, 6));
    let first: usize = next_hyphen(&chars, head.len());
    if first == chars.len() {
        return None;
    }
    let second: usize = next_hyphen(&chars, first + 1);
    if second == chars.len() {
        return None;
    }
    if first - head.len() > 20 || second - first - 1 != 22 || chars.len() - second - 1 != 11 {
        return None;
    }
    let gen: u64 = match text::parse_u64(part(&chars, head.len(), first).as_str()) {
        Some(g) => g,
        None => {
            return None;
        },
    };
    if gen == 0 {
        return None;
    }
    let id: Vec<u8> = match b64::decode(part(&chars, first + 1, second).as_str()) {
        Some(b) => b,
        None => {
            return None;
        },
    };
    let tag: Vec<u8> = match b64::decode(part(&chars, second + 1, chars.len()).as_str()) {
        Some(b) => b,
        None => {
            return None;
        },
    };
    proof {
        lemma_decoded_len(s@.subrange(first + 1, second as int));
        lemma_decoded_len(s@.subrange(second + 1, s@.len() as int));
    }
    Some(ParsedToken { gen, id, tag })
}

/// The bytes that tokens are made of.
pub open spec fn is_token_byte(x: u8) -> bool {
    0x30 <= x <= 0x39 || 0x41 <= x <= 0x5a || 0x61 <= x <= 0x7a || x == 0x2a || x == 0x7e || x
        == 0x2d
}

fn is_token_alphabet(b: u8) -> (r: bool)
    ensures
        r == is_token_byte(b),
{
    (0x30 <= b && b <= 0x39) || (0x41 <= b && b <= 0x5a) || (0x61 <= b && b <= 0x7a) || b == 0x2a
        || b == 0x7e || b == 0x2d
}

/// The longest token: a prefix, a generation of twenty digits, an id and a tag.
pub const MAX_TOKEN_LEN: usize = 61;

/// Something like a token can start at `p`.
pub open spec fn prefix_at(b: Seq<u8>, p: int) -> bool {
    0 <= p && p + 6 <= b.len() && b.subrange(p, p + 6) == encode_utf8(PREFIX@)
}

/// The first place from `p` on where something like a token can start.
pub open spec fn prefix_from(b: Seq<u8>, p: int) -> Option<int>
    decreases b.len() - p,
{
    if !(0 <= p < b.len()) {
        None
    } else if prefix_at(b, p) {
        Some(p)
    } else {
        prefix_from(b, p + 1)
    }
}

/// The end of the run of token bytes from `p` on, at most at `limit`.
pub open spec fn run_end(b: Seq<u8>, p: int, limit: int) -> int
    decreases limit - p,
{
    if 0 <= p < b.len() && p < limit && is_token_byte(b[p]) {
        run_end(b, p + 1, limit)
    } else {
        p
    }
}

/// The run of token bytes that starts at `p`, as far as a token can reach.
pub open spec fn run_at(b: Seq<u8>, p: int) -> int {
    run_end(b, p, p + MAX_TOKEN_LEN)
}

/// No token byte stands right before `start` or right behind `end`.
pub open spec fn alone(b: Seq<u8>, start: int, end: int) -> bool {
    &&& start == 0 || !is_token_byte(b[start - 1])
    &&& end == b.len() || !is_token_byte(b[end])
}

/// The tokens from byte `from` on that stand alone, from left to right.
pub open spec fn scanned(b: Seq<u8>, from: int) -> Seq<(int, int, Token)>
    decreases b.len() - from,
{
    match prefix_from(b, from) {
        None => seq![],
        Some(start) => {
            let end = run_at(b, start);
            if !(from <= start && start + 6 <= b.len() && start < end <= b.len()) {
                seq![]
            } else {
                match parsed(text::ascii(b.subrange(start, end))) {
                    Some(t) => (if alone(b, start, end) {
                        seq![(start, end, t)]
                    } else {
                        seq![]
                    }) + scanned(b, end),
                    None => scanned(b, start + 6),
                }
            }
        },
    }
}

/// The mathematical form of what a scan finds.
pub open spec fn finds(list: Seq<(usize, usize, ParsedToken)>) -> Seq<(int, int, Token)> {
    list.map_values(|x: (usize, usize, ParsedToken)| (x.0 as int, x.1 as int, x.2@))
}

proof fn lemma_prefix_from(b: Seq<u8>, p: int)
    requires
        0 <= p,
    ensures
        prefix_from(b, p) matches Some(start) ==> p <= start && prefix_at(b, start),
        forall|q: int|
            p <= q && prefix_at(b, q) ==> prefix_from(b, p) is Some && prefix_from(b, p)->0 <= q,
    decreases b.len() - p,
{
    if p < b.len() && !prefix_at(b, p) {
        lemma_prefix_from(b, p + 1);
    }
}

proof fn lemma_run_end(b: Seq<u8>, p: int, limit: int)
    requires
        0 <= p <= b.len(),
        p <= limit,
    ensures
        p <= run_end(b, p, limit) <= b.len(),
        run_end(b, p, limit) <= limit,
        forall|i: int| p <= i < run_end(b, p, limit) ==> is_token_byte(#[trigger] b[i]),
        run_end(b, p, limit) < limit && run_end(b, p, limit) < b.len() ==> !is_token_byte(
            b[run_end(b, p, limit)],
        ),
    decreases limit - p,
{
    if p < b.len() && p < limit && is_token_byte(b[p]) {
        lemma_run_end(b, p + 1, limit);
    }
}

/// A run from a prefix on goes at least as far as the prefix.
proof fn lemma_run_covers_prefix(b: Seq<u8>, p: int)
    requires
        prefix_at(b, p),
    ensures
        p + 6 <= run_at(b, p) <= b.len(),
        forall|i: int| p <= i < p + 6 ==> is_token_byte(#[trigger] b[i]),
{
    lemma_prefix();
    let e = encode_utf8(PREFIX@);
    assert forall|i: int| p <= i < p + 6 implies is_token_byte(#[trigger] b[i]) by {
        assert(b.subrange(p, p + 6)[i - p] == e[i - p]);
    }
    lemma_run_end(b, p, p + MAX_TOKEN_LEN);
    let r = run_at(b, p);
    if r < p + 6 {
        assert(is_token_byte(b[r]));
    }
}

fn find_prefix(bytes: &[u8], from: usize) -> (r: Option<usize>)
    ensures
        match prefix_from(bytes@, from as int) {
            Some(p) => r is Some && r->0 == p,
            None => r is None,
        },
{
    let head: &[u8] = PREFIX.as_bytes();
    proof {
        lemma_prefix();
    }
    let mut i: usize = from;
    while i < bytes.len()
        invariant
            from <= i,
            head@ == encode_utf8(PREFIX@),
            head@.len() == 6,
            prefix_from(bytes@, from as int) == prefix_from(bytes@, i as int),
        decreases bytes@.len() - i,
    {
        if bytes.len() - i >= 6 {
            let part: &[u8] = vstd::slice::slice_subrange(bytes, i, i + 6);
            if text::same_bytes(part, head) {
                return Some(i);
            }
        }
        i = i + 1;
    }
    None
}

/// Finds all tokens of a text that stand alone. Whether a token is genuine is for the caller
/// to decide, tenant by tenant.
pub fn scan(text: &str) -> (r: Vec<(usize, usize, ParsedToken)>)
    ensures
        finds(r@) == scanned(encode_utf8(text@), 0),
{
    let bytes: &[u8] = text.as_bytes();
    let ghost b = encode_utf8(text@);
    let len: usize = bytes.len();
    let mut out: Vec<(usize, usize, ParsedToken)> = Vec::new();
    let mut search_from: usize = 0;
    assert(finds(out@) + scanned(b, 0) =~= scanned(b, 0));
    loop
        invariant
            bytes@ == b,
            b == encode_utf8(text@),
            len == b.len(),
            search_from <= b.len(),
            finds(out@) + scanned(b, search_from as int) == scanned(b, 0),
        ensures
            finds(out@) == scanned(b, 0),
        decreases b.len() - search_from,
    {
        let ghost done = finds(out@);
        let ghost from = search_from as int;
        proof {
            lemma_prefix_from(b, from);
        }
        let start: usize = match find_prefix(bytes, search_from) {
            Some(p) => p,
            None => {
                assert(finds(out@) + Seq::<(int, int, Token)>::empty() =~= finds(out@));
                break ;
            },
        };
        proof {
            lemma_run_covers_prefix(b, start as int);
        }
        let limit: usize = if len - start > MAX_TOKEN_LEN {
            start + MAX_TOKEN_LEN
        } else {
            len
        };
        let mut end: usize = start;
        while end < limit && is_token_alphabet(bytes[end])
            invariant
                start <= end <= limit <= len,
                bytes@ == b,
                len == b.len(),
                limit == start + MAX_TOKEN_LEN || (limit == len && len <= start + MAX_TOKEN_LEN),
                run_at(b, start as int) == run_end(b, end as int, start + MAX_TOKEN_LEN),
            decreases limit - end,
        {
            end = end + 1;
        }
        assert(end == run_at(b, start as int));
        let word: String = text::ascii_string(vstd::slice::slice_subrange(bytes, start, end));
        match parse(word.as_str()) {
            Some(t) => {
                let left_ok: bool = start == 0 || !is_token_alphabet(bytes[start - 1]);
                let right_ok: bool = end == len || !is_token_alphabet(bytes[end]);
                let ghost model = (start as int, end as int, t@);
                if left_ok && right_ok {
                    let ghost before = out@;
                    out.push((start, end, t));
                    proof {
                        assert(finds(out@) =~= finds(before).push(model));
                        assert(finds(out@) + scanned(b, end as int) =~= done + (seq![model]
                            + scanned(b, end as int)));
                    }
                } else {
                    assert(Seq::<(int, int, Token)>::empty() + scanned(b, end as int) =~= scanned(
                        b,
                        end as int,
                    ));
                }
                search_from = end;
            },
            None => {
                search_from = start + 6;
            },
        }
    }
    out
}

/// The function can answer with the tag key `k` for the generation.
pub open spec fn key_answer<F: Fn(u64) -> Option<Vec<u8>>>(
    f: F,
    gen: u64,
    k: Option<Seq<u8>>,
) -> bool {
    exists|v: Option<Vec<u8>>| #[trigger]
        call_ensures(f, (gen,), v) && k == match v {
            Some(b) => Some(b@),
            None => None,
        }
}

/// The token is one of the tenant: its generation has a tag key, and its tag is right.
pub open spec fn is_genuine(t: Token, tenant: Seq<char>, key: Option<Seq<u8>>) -> bool {
    key matches Some(k) && tag_of(k, t.gen, tenant, t.id) == t.tag
}

/// Checks a token against the tag key of a tenant for its generation; a genuine one gives
/// the id of its record, as text and as bytes.
pub fn verify_for_tenant<F: Fn(u64) -> Option<Vec<u8>>>(
    t: &ParsedToken,
    tenant: &str,
    gen_ids: &[u64],
    tag_key_for: &F,
) -> (r: Option<(String, Vec<u8>)>)
    requires
        call_requires(*tag_key_for, (t.gen,)),
    ensures
        !gen_ids@.contains(t.gen) ==> r is None,
        gen_ids@.contains(t.gen) ==> exists|k: Option<Seq<u8>>| #[trigger]
            key_answer(*tag_key_for, t.gen, k) && match r {
                Some((text, id)) => is_genuine(t@, tenant@, k) && text@ == b64::encoded(t.id@)
                    && id@ == t.id@,
                None => !is_genuine(t@, tenant@, k),
            },
{
    let mut known: bool = false;
    let mut i: usize = 0;
    while i < gen_ids.len() && !known
        invariant
            0 <= i <= gen_ids@.len(),
            known ==> gen_ids@.contains(t.gen),
            !known ==> forall|k: int| 0 <= k < i ==> gen_ids@[k] != t.gen,
        decreases gen_ids@.len() - i, !known as int,
    {
        if gen_ids[i] == t.gen {
            known = true;
            assert(gen_ids@[i as int] == t.gen);
        } else {
            i = i + 1;
        }
    }
    if !known {
        return None;
    }
    let answer: Option<Vec<u8>> = tag_key_for(t.gen);
    let ghost k = if answer is Some {
        Some(answer->0@)
    } else {
        None
    };
    assert(key_answer(*tag_key_for, t.gen, k));
    match &answer {
        None => None,
        Some(key) => {
            let expected: Vec<u8> = token_tag(key.as_slice(), t.gen, tenant, t.id.as_slice());
            if crypto::ct_eq(expected.as_slice(), t.tag.as_slice()) {
                let mut id: Vec<u8> = Vec::new();
                crypto::push_bytes(&mut id, t.id.as_slice());
                assert(id@ =~= t.id@);
                Some((b64::encode(t.id.as_slice()), id))
            } else {
                None
            }
        },
    }
}

/// The id of the record for a text under a stable rule: the same rule version and text give
/// the same id under the same key.
pub open spec fn stable_id_of(key: Seq<u8>, rule_version: u64, original: Seq<char>) -> Seq<u8> {
    crypto::hmac_of(
        key,
        encode_utf8("maskroom-stable-id-v1"@) + crypto::be8(rule_version) + encode_utf8(original),
    ).take(ID_LEN as int)
}

/// Derives the id of the record for a text under a stable rule.
pub fn stable_record_id(stable_id_key: &[u8], rule_version: u64, original: &str) -> (r: Vec<u8>)
    ensures
        r@ == stable_id_of(stable_id_key@, rule_version, original@),
        r@.len() == ID_LEN,
{
    let mut input: Vec<u8> = Vec::new();
    crypto::push_text(&mut input, "maskroom-stable-id-v1");
    crypto::push_be8(&mut input, rule_version);
    crypto::push_text(&mut input, original);
    proof {
        assert(input@ =~= encode_utf8("maskroom-stable-id-v1"@) + crypto::be8(rule_version)
            + encode_utf8(original@));
    }
    let full: [u8; 32] = crypto::hmac_sha256(stable_id_key, input.as_slice());
    crypto::first_bytes(&full, ID_LEN)
}

/// A power of ten.
pub open spec fn ten_to(k: nat) -> nat
    decreases k,
{
    if k == 0 {
        1
    } else {
        10 * ten_to((k - 1) as nat)
    }
}

proof fn lemma_dec_len(n: nat, k: nat)
    requires
        n < ten_to(k),
        k > 0,
    ensures
        text::dec(n).len() <= k,
    decreases k,
{
    if n >= 10 {
        reveal_with_fuel(ten_to, 2);
        lemma_dec_len(n / 10, (k - 1) as nat);
    }
}

proof fn lemma_generation_text(gen: u64)
    requires
        gen > 0,
    ensures
        0 < text::dec(gen as nat).len() <= 20,
        text::unsigned_value(text::dec(gen as nat)) == Some(gen as nat),
        forall|i: int|
            0 <= i < text::dec(gen as nat).len() ==> text::is_digit(
                #[trigger] text::dec(gen as nat)[i],
            ),
{
    let d = text::dec(gen as nat);
    text::lemma_dec_reads_back(gen as nat);
    assert(ten_to(20) > u64::MAX) by {
        reveal_with_fuel(ten_to, 21);
    }
    lemma_dec_len(gen as nat, 20);
    assert(text::is_digit(d[0]));
}

/// A hyphen is found where the first one stands.
proof fn lemma_hyphen_from(s: Seq<char>, p: int, at: int)
    requires
        0 <= p <= at < s.len(),
        forall|i: int| p <= i < at ==> s[i] != '-',
        s[at] == '-',
    ensures
        hyphen_from(s, p) == at,
    decreases at - p,
{
    if p < at {
        lemma_hyphen_from(s, p + 1, at);
    }
}

/// Reading gives back what a token was built from.
pub proof fn lemma_parse_inverts_build(gen: u64, id: Seq<u8>, tag: Seq<u8>)
    requires
        gen > 0,
        id.len() == ID_LEN,
        tag.len() == TAG_LEN,
    ensures
        parsed(token_text(gen, id, tag)) == Some(Token { gen, id, tag }),
        token_text(gen, id, tag).len() <= MAX_TOKEN_LEN,
{
    let s = token_text(gen, id, tag);
    let g = text::dec(gen as nat);
    let i = b64::encoded(id);
    let t = b64::encoded(tag);
    lemma_prefix();
    lemma_generation_text(gen);
    b64::lemma_decode_inverts_encode(id);
    b64::lemma_decode_inverts_encode(tag);
    let p = 6int;
    let first = p + g.len();
    let second = first + 1 + i.len();
    assert forall|k: int| p <= k < first implies s[k] != '-' by {
        assert(s[k] == g[k - p]);
    }
    assert forall|k: int| first + 1 <= k < second implies s[k] != '-' by {
        assert(s[k] == i[k - first - 1]);
        assert(b64::symbol_value(i[k - first - 1]) is Some);
    }
    lemma_hyphen_from(s, p, first);
    lemma_hyphen_from(s, first + 1, second);
    assert(s.take(p) =~= PREFIX@);
    assert(s.subrange(p, first) =~= g);
    assert(s.subrange(first + 1, second) =~= i);
    assert(s.subrange(second + 1, s.len() as int) =~= t);
}

/// The bytes of a built token are token bytes, one for each character.
proof fn lemma_token_bytes(gen: u64, id: Seq<u8>, tag: Seq<u8>)
    requires
        gen > 0,
        id.len() == ID_LEN,
        tag.len() == TAG_LEN,
    ensures
        ({
            let s = token_text(gen, id, tag);
            let e = encode_utf8(s);
            &&& e.len() == s.len()
            &&& text::ascii(e) == s
            &&& forall|k: int| 0 <= k < e.len() ==> is_token_byte(#[trigger] e[k])
            &&& e.len() >= 6
            &&& e.take(6) == encode_utf8(PREFIX@)
        }),
{
    let s = token_text(gen, id, tag);
    let g = text::dec(gen as nat);
    let i = b64::encoded(id);
    let t = b64::encoded(tag);
    let b = Seq::new(s.len(), |k: int| s[k] as u8);
    lemma_prefix();
    lemma_generation_text(gen);
    b64::lemma_decode_inverts_encode(id);
    b64::lemma_decode_inverts_encode(tag);
    assert forall|k: int| 0 <= k < s.len() implies is_token_byte(#[trigger] b[k]) && (s[k] as u32)
        < 128 by {
        if 6 <= k < 6 + g.len() {
            assert(s[k] == g[k - 6]);
        } else if 7 + g.len() <= k < 29 + g.len() {
            assert(s[k] == i[k - 7 - g.len()]);
            assert(b64::symbol_value(i[k - 7 - g.len()]) is Some);
        } else if 30 + g.len() <= k {
            assert(s[k] == t[k - 30 - g.len()]);
            assert(b64::symbol_value(t[k - 30 - g.len()]) is Some);
        }
    }
    text::lemma_encode_ascii(s, b);
    assert(text::ascii(b) =~= s);
    assert(b.take(6) =~= encode_utf8(PREFIX@));
}

/// A run that is followed by something else ends there.
proof fn lemma_run_is(b: Seq<u8>, p: int, end: int, limit: int)
    requires
        0 <= p <= end <= b.len(),
        end <= limit,
        forall|k: int| p <= k < end ==> is_token_byte(#[trigger] b[k]),
        end == b.len() || !is_token_byte(b[end]),
    ensures
        run_end(b, p, limit) == end,
    decreases end - p,
{
    if p < end {
        assert(is_token_byte(b[p]));
        lemma_run_is(b, p + 1, end, limit);
    }
}

proof fn lemma_scan_reaches(b: Seq<u8>, from: int, start: int, end: int, t: Token)
    requires
        0 <= from <= start < end <= b.len(),
        end <= start + MAX_TOKEN_LEN,
        prefix_at(b, start),
        forall|k: int| start <= k < end ==> is_token_byte(#[trigger] b[k]),
        alone(b, start, end),
        parsed(text::ascii(b.subrange(start, end))) == Some(t),
    ensures
        scanned(b, from).contains((start, end, t)),
    decreases b.len() - from,
{
    lemma_prefix_from(b, from);
    let s = prefix_from(b, from)->0;
    lemma_run_covers_prefix(b, s);
    lemma_run_end(b, s, s + MAX_TOKEN_LEN);
    let e = run_at(b, s);
    if s == start {
        lemma_run_is(b, start, end, start + MAX_TOKEN_LEN);
        assert(scanned(b, from)[0] == (start, end, t));
    } else {
        assert(start >= s + 6) by {
            if start < s + 6 {
                assert(is_token_byte(b[start - 1]));
            }
        }
        assert(start >= e) by {
            if start < e {
                assert(is_token_byte(b[start - 1]));
            }
        }
        match parsed(text::ascii(b.subrange(s, e))) {
            Some(u) => {
                lemma_scan_reaches(b, e, start, end, t);
                let head: Seq<(int, int, Token)> = if alone(b, s, e) {
                    seq![(s, e, u)]
                } else {
                    seq![]
                };
                let k = choose|k: int|
                    0 <= k < scanned(b, e).len() && scanned(b, e)[k] == (start, end, t);
                assert((head + scanned(b, e))[head.len() + k] == (start, end, t));
            },
            None => {
                lemma_scan_reaches(b, s + 6, start, end, t);
            },
        }
    }
}

/// What is read as a token, without a sign before its generation, is made of token bytes, starts
/// with the prefix and is no longer than a token can be.
proof fn lemma_parsed_bytes(e: Seq<u8>)
    requires
        parsed(text::ascii(e)) is Some,
        e[6] != 0x2b,
    ensures
        6 <= e.len() <= MAX_TOKEN_LEN,
        e.take(6) == encode_utf8(PREFIX@),
        forall|k: int| 0 <= k < e.len() ==> is_token_byte(#[trigger] e[k]),
{
    lemma_prefix();
    let s = text::ascii(e);
    let first = hyphen_from(s, 6);
    let second = hyphen_from(s, first + 1);
    lemma_hyphen_place(s, 6);
    lemma_hyphen_place(s, first + 1);
    let gen = s.subrange(6, first);
    let id = s.subrange(first + 1, second);
    let tag = s.subrange(second + 1, s.len() as int);
    assert(assembled(gen, id, tag) is Some);
    assert(gen.len() > 0 && gen[0] == s[6]);
    assert(text::all_digits(gen));
    assert forall|k: int| 0 <= k < 6 implies e[k] == encode_utf8(PREFIX@)[k] by {
        assert(s.take(6)[k] == s[k]);
    }
    assert(e.take(6) =~= encode_utf8(PREFIX@));
    assert forall|k: int| 0 <= k < e.len() implies is_token_byte(#[trigger] e[k]) by {
        assert(s[k] == e[k] as char);
        if k < 6 {
            assert(e[k] == encode_utf8(PREFIX@)[k]);
        } else if k < first {
            assert(gen[k - 6] == s[k]);
            assert(text::is_digit(gen[k - 6]));
        } else if first < k < second {
            assert(id[k - first - 1] == s[k]);
            assert(b64::symbol_value(id[k - first - 1]) is Some);
        } else if second < k {
            assert(tag[k - second - 1] == s[k]);
            assert(b64::symbol_value(tag[k - second - 1]) is Some);
        }
    }
}

proof fn lemma_hyphen_place(s: Seq<char>, p: int)
    requires
        0 <= p,
    ensures
        p <= hyphen_from(s, p),
        p <= s.len() ==> hyphen_from(s, p) <= s.len(),
        hyphen_from(s, p) < s.len() ==> s[hyphen_from(s, p)] == '-',
    decreases s.len() - p,
{
    if p < s.len() && s[p] != '-' {
        lemma_hyphen_place(s, p + 1);
    }
}

/// Every token that stands alone is found: whatever can be read as one, without a sign before
/// its generation, with no token byte right before or behind it.
pub proof fn lemma_scan_finds_every_token(b: Seq<u8>, start: int, end: int, t: Token)
    requires
        0 <= start < end <= b.len(),
        parsed(text::ascii(b.subrange(start, end))) == Some(t),
        b.subrange(start, end)[6] != 0x2b,
        alone(b, start, end),
    ensures
        scanned(b, 0).contains((start, end, t)),
{
    let e = b.subrange(start, end);
    lemma_parsed_bytes(e);
    assert(b.subrange(start, start + 6) =~= e.take(6));
    assert forall|k: int| start <= k < end implies is_token_byte(#[trigger] b[k]) by {
        assert(b[k] == e[k - start]);
    }
    lemma_scan_reaches(b, 0, start, end, t);
}

/// A built token that stands alone in a text is found there, whatever else the text holds.
pub proof fn lemma_scan_finds_tokens(
    front: Seq<char>,
    gen: u64,
    id: Seq<u8>,
    tag: Seq<u8>,
    back: Seq<char>,
)
    requires
        gen > 0,
        id.len() == ID_LEN,
        tag.len() == TAG_LEN,
        alone(
            encode_utf8(front + token_text(gen, id, tag) + back),
            encode_utf8(front).len() as int,
            (encode_utf8(front).len() + token_text(gen, id, tag).len()) as int,
        ),
    ensures
        scanned(encode_utf8(front + token_text(gen, id, tag) + back), 0).contains(
            (
                encode_utf8(front).len() as int,
                (encode_utf8(front).len() + token_text(gen, id, tag).len()) as int,
                Token { gen, id, tag },
            ),
        ),
{
    let s = token_text(gen, id, tag);
    let e = encode_utf8(s);
    let b = encode_utf8(front + s + back);
    let f = encode_utf8(front);
    let start = f.len() as int;
    let end = start + s.len();
    text::lemma_encode_concat(front, s);
    text::lemma_encode_concat(front + s, back);
    lemma_token_bytes(gen, id, tag);
    lemma_parse_inverts_build(gen, id, tag);
    assert(b =~= f + e + encode_utf8(back));
    assert(b.subrange(start, end) =~= e);
    assert(b.subrange(start, start + 6) =~= e.take(6));
    assert forall|k: int| start <= k < end implies is_token_byte(#[trigger] b[k]) by {
        assert(b[k] == e[k - start]);
    }
    lemma_scan_reaches(b, 0, start, end, Token { gen, id, tag });
}

/// What a scan may list, from byte `from` on: tokens that stand alone, each behind the one
/// before it.
pub open spec fn are_tokens(b: Seq<u8>, from: int, list: Seq<(int, int, Token)>) -> bool {
    &&& forall|i: int|
        0 <= i < list.len() ==> {
            let (start, end, t) = #[trigger] list[i];
            &&& from <= start < end <= b.len()
            &&& parsed(text::ascii(b.subrange(start, end))) == Some(t)
            &&& alone(b, start, end)
        }
    &&& forall|i: int, j: int|
        0 <= i < j < list.len() ==> (#[trigger] list[i]).1 <= (#[trigger] list[j]).0
}

/// Everything that a scan lists is a token that stands alone, and no two of them overlap.
pub proof fn lemma_scan_lists_tokens(b: Seq<u8>, from: int)
    requires
        0 <= from,
    ensures
        are_tokens(b, from, scanned(b, from)),
    decreases b.len() - from,
{
    lemma_prefix_from(b, from);
    if let Some(start) = prefix_from(b, from) {
        let end = run_at(b, start);
        lemma_run_covers_prefix(b, start);
        match parsed(text::ascii(b.subrange(start, end))) {
            Some(t) => {
                lemma_scan_lists_tokens(b, end);
                let rest = scanned(b, end);
                let head: Seq<(int, int, Token)> = if alone(b, start, end) {
                    seq![(start, end, t)]
                } else {
                    seq![]
                };
                let list = head + rest;
                assert forall|i: int| 0 <= i < list.len() implies {
                    let (s, e, u) = #[trigger] list[i];
                    &&& from <= s < e <= b.len()
                    &&& parsed(text::ascii(b.subrange(s, e))) == Some(u)
                    &&& alone(b, s, e)
                } by {
                    if i >= head.len() {
                        assert(list[i] == rest[i - head.len()]);
                    }
                }
                assert forall|i: int, j: int| 0 <= i < j < list.len() implies (
                #[trigger] list[i]).1 <= (#[trigger] list[j]).0 by {
                    assert(list[j] == rest[j - head.len()]);
                    if i >= head.len() {
                        assert(list[i] == rest[i - head.len()]);
                    }
                }
            },
            None => {
                lemma_scan_lists_tokens(b, start + 6);
            },
        }
    }
}

/// A label, a number and the rest can be told from the bytes that they make up.
proof fn lemma_labelled(label: Seq<u8>, a: u64, rest: Seq<u8>, b: u64, rest2: Seq<u8>)
    requires
        label + crypto::be8(a) + rest == label + crypto::be8(b) + rest2,
    ensures
        a == b,
        rest == rest2,
{
    let x = label + crypto::be8(a) + rest;
    let y = label + crypto::be8(b) + rest2;
    let l = label.len() as int;
    assert(x.subrange(l, l + 8) =~= crypto::be8(a));
    assert(y.subrange(l, l + 8) =~= crypto::be8(b));
    assert(x.skip(l + 8) =~= rest);
    assert(y.skip(l + 8) =~= rest2);
    crypto::lemma_be8_tells_apart(a, b);
}

/// Under one key, two texts under stable rules get the same record id only if text and rule
/// version are the same, or else the first 16 bytes of the HMACs of two different inputs, each
/// made up of the label, the rule version and the whole text, are the same.
pub proof fn lemma_stable_ids_tell_apart(
    key: Seq<u8>,
    version: u64,
    original: Seq<char>,
    version2: u64,
    original2: Seq<char>,
)
    requires
        stable_id_of(key, version, original) == stable_id_of(key, version2, original2),
    ensures
        (version == version2 && original == original2) || ({
            let label = encode_utf8("maskroom-stable-id-v1"@);
            let x = label + crypto::be8(version) + encode_utf8(original);
            let y = label + crypto::be8(version2) + encode_utf8(original2);
            x != y && crypto::hmac_of(key, x).take(16) == crypto::hmac_of(key, y).take(16)
        }),
{
    let label = encode_utf8("maskroom-stable-id-v1"@);
    let x = label + crypto::be8(version) + encode_utf8(original);
    let y = label + crypto::be8(version2) + encode_utf8(original2);
    if x == y {
        lemma_labelled(label, version, encode_utf8(original), version2, encode_utf8(original2));
        text::lemma_encoding_is_injective(original, original2);
    }
}

/// Under one key, two tokens with record ids of the same length get the same tag only if
/// generation, tenant and record id are the same, or else the first 8 bytes of the HMACs of two
/// different inputs are the same. So no token of one tenant or generation passes for one of
/// another.
pub proof fn lemma_tags_tell_apart(
    key: Seq<u8>,
    gen: u64,
    tenant: Seq<char>,
    id: Seq<u8>,
    gen2: u64,
    tenant2: Seq<char>,
    id2: Seq<u8>,
)
    requires
        id.len() == id2.len(),
        tag_of(key, gen, tenant, id) == tag_of(key, gen2, tenant2, id2),
    ensures
        (gen == gen2 && tenant == tenant2 && id == id2) || ({
            let label = encode_utf8("maskroom-token-tag-v1"@);
            let x = label + crypto::be8(gen) + encode_utf8(tenant) + id;
            let y = label + crypto::be8(gen2) + encode_utf8(tenant2) + id2;
            x != y && crypto::hmac_of(key, x).take(8) == crypto::hmac_of(key, y).take(8)
        }),
{
    let label = encode_utf8("maskroom-token-tag-v1"@);
    let x = label + crypto::be8(gen) + encode_utf8(tenant) + id;
    let y = label + crypto::be8(gen2) + encode_utf8(tenant2) + id2;
    if x == y {
        let e = encode_utf8(tenant);
        let e2 = encode_utf8(tenant2);
        assert(x =~= label + crypto::be8(gen) + (e + id));
        assert(y =~= label + crypto::be8(gen2) + (e2 + id2));
        lemma_labelled(label, gen, e + id, gen2, e2 + id2);
        assert((e + id).len() == (e2 + id2).len());
        assert((e + id).take(e.len() as int) =~= e);
        assert((e2 + id2).take(e2.len() as int) =~= e2);
        assert((e + id).skip(e.len() as int) =~= id);
        assert((e2 + id2).skip(e2.len() as int) =~= id2);
        text::lemma_encoding_is_injective(tenant, tenant2);
    }
}

/// A token that holds for one tenant holds for another only if the first 8 bytes of the HMACs
/// of two different inputs under the tag key are the same.
pub proof fn lemma_tokens_hold_for_one_tenant(
    t: Token,
    tenant: Seq<char>,
    tenant2: Seq<char>,
    key: Seq<u8>,
)
    requires
        tenant != tenant2,
        is_genuine(t, tenant, Some(key)),
        is_genuine(t, tenant2, Some(key)),
    ensures
        exists|x: Seq<u8>, y: Seq<u8>|
            x != y && (#[trigger] crypto::hmac_of(key, x)).take(8) == (#[trigger] crypto::hmac_of(
                key,
                y,
            )).take(8),
{
    lemma_tags_tell_apart(key, t.gen, tenant, t.id, t.gen, tenant2, t.id);
    let label = encode_utf8("maskroom-token-tag-v1"@);
    let x = label + crypto::be8(t.gen) + encode_utf8(tenant) + t.id;
    let y = label + crypto::be8(t.gen) + encode_utf8(tenant2) + t.id;
    assert(crypto::hmac_of(key, x).take(8) == crypto::hmac_of(key, y).take(8));
}

/// The text is that of a token: the prefix, at most twenty digits of the generation, maybe with a
/// plus sign in front, and the record id and the tag in base64, with hyphens between them.
pub open spec fn is_text_of(s: Seq<char>, gen: Seq<char>, t: Token) -> bool {
    &&& s == "MTKN-G"@ + gen + "-"@ + b64::encoded(t.id) + "-"@ + b64::encoded(t.tag)
    &&& gen.len() <= 20
    &&& t.gen > 0
    &&& t.id.len() == 16
    &&& t.tag.len() == 8
    &&& {
        ||| text::all_digits(gen) && gen.len() > 0 && text::digits_value(gen) == t.gen
        ||| gen.len() > 1 && gen[0] == '+' && text::all_digits(gen.drop_first())
            && text::digits_value(gen.drop_first()) == t.gen
    }
}

proof fn lemma_text_is_parsed(s: Seq<char>, gen: Seq<char>, t: Token)
    requires
        is_text_of(s, gen, t),
    ensures
        parsed(s) == Some(t),
{
    lemma_prefix();
    reveal_strlit("-");
    b64::lemma_decode_inverts_encode(t.id);
    b64::lemma_decode_inverts_encode(t.tag);
    let id = b64::encoded(t.id);
    let tag = b64::encoded(t.tag);
    let p = PREFIX@.len() as int;
    let a = (p + gen.len()) as int;
    let c = a + 1 + 22;
    assert(id.len() == 22 && tag.len() == 11);
    assert(s.len() == c + 12);
    assert(s.take(p) =~= PREFIX@);
    assert(s.subrange(p, a) =~= gen);
    assert(s.subrange(a + 1, c) =~= id);
    assert(s.subrange(c + 1, s.len() as int) =~= tag);
    assert forall|i: int| p <= i < a implies s[i] != '-' by {
        assert(s[i] == gen[i - p]);
        if gen[0] == '+' && i > p {
            assert(text::is_digit(gen.drop_first()[i - p - 1]));
        } else if gen[0] != '+' {
            assert(text::is_digit(gen[i - p]));
        }
    }
    assert(s[a] == '-');
    lemma_hyphen_from(s, p, a);
    assert forall|i: int| a + 1 <= i < c implies s[i] != '-' by {
        assert(s[i] == id[i - a - 1]);
        assert(b64::symbol_value(id[i - a - 1]) is Some);
    }
    assert(s[c] == '-');
    lemma_hyphen_from(s, a + 1, c);
    if gen[0] == '+' && text::all_digits(gen) && gen.len() > 0 {
        assert(text::is_digit(gen[0]));
    }
    assert(text::unsigned_value(gen) == Some(t.gen as nat));
}

proof fn lemma_parsed_is_text(s: Seq<char>, t: Token) -> (gen: Seq<char>)
    requires
        parsed(s) == Some(t),
    ensures
        is_text_of(s, gen, t),
{
    lemma_prefix();
    reveal_strlit("-");
    let p = PREFIX@.len() as int;
    let first = hyphen_from(s, p);
    let second = hyphen_from(s, first + 1);
    lemma_hyphen_place(s, p);
    lemma_hyphen_place(s, first + 1);
    let gen = s.subrange(p, first);
    let id = s.subrange(first + 1, second);
    let tag = s.subrange(second + 1, s.len() as int);
    b64::lemma_encode_inverts_decode(id);
    b64::lemma_encode_inverts_decode(tag);
    lemma_decoded_len(id);
    lemma_decoded_len(tag);
    assert(s =~= s.take(p) + gen + seq!['-'] + id + seq!['-'] + tag);
    assert("-"@ =~= seq!['-']);
    gen
}

/// A text is read as a token exactly if it is the text of one; no two tokens have the same text.
pub proof fn lemma_what_is_read_as_a_token(s: Seq<char>, t: Token)
    ensures
        parsed(s) == Some(t) <==> exists|gen: Seq<char>| #[trigger] is_text_of(s, gen, t),
{
    if parsed(s) == Some(t) {
        let gen = lemma_parsed_is_text(s, t);
    }
    if exists|gen: Seq<char>| #[trigger] is_text_of(s, gen, t) {
        let gen = choose|gen: Seq<char>| #[trigger] is_text_of(s, gen, t);
        lemma_text_is_parsed(s, gen, t);
    }
}

/// A token stands alone if no letter, digit, asterisk, tilde or hyphen stands right before or right
/// behind it.
pub proof fn lemma_what_stands_alone(b: Seq<u8>, start: int, end: int)
    ensures
        alone(b, start, end) <==> {
            &&& start == 0 || !(48 <= b[start - 1] <= 57 || 65 <= b[start - 1] <= 90 || 97 <= b[start
                - 1] <= 122 || b[start - 1] == 42 || b[start - 1] == 126 || b[start - 1] == 45)
            &&& end == b.len() || !(48 <= b[end] <= 57 || 65 <= b[end] <= 90 || 97 <= b[end] <= 122
                || b[end] == 42 || b[end] == 126 || b[end] == 45)
        },
{
}

/// A token is genuine for a tenant exactly if there is a tag key and its tag is the first 8 bytes
/// of the HMAC, under that key, of the label, its generation, the tenant and its record id.
pub proof fn lemma_what_is_genuine(t: Token, tenant: Seq<char>, key: Option<Seq<u8>>)
    ensures
        is_genuine(t, tenant, key) <==> (key matches Some(k) && t.tag == crypto::hmac_of(
            k,
            encode_utf8("maskroom-token-tag-v1"@) + crypto::be8(t.gen) + encode_utf8(tenant) + t.id,
        ).take(8)),
{
}

}
