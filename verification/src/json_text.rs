//! A JSON text reads back as the value that it was written from.

use crate::json;
use crate::json::Json;
use crate::text;
use vstd::prelude::*;
use vstd::utf8::*;

verus! {

broadcast use vstd::seq::group_seq_axioms;

proof fn lemma_escape_front(c: char, s: Seq<char>)
    ensures
        json::escape_all(seq![c] + s) == json::escape(c) + json::escape_all(s),
    decreases s.len(),
{
    let whole = seq![c] + s;
    if s.len() == 0 {
        assert(whole.drop_last() =~= Seq::empty());
        reveal_with_fuel(json::escape_all, 2);
        assert(json::escape_all(whole) =~= json::escape(c) + json::escape_all(s));
    } else {
        assert(whole.drop_last() =~= seq![c] + s.drop_last());
        lemma_escape_front(c, s.drop_last());
        assert(json::escape_all(whole) =~= json::escape(c) + json::escape_all(s));
    }
}

/// A byte below 128 is the character that it encodes.
proof fn lemma_ascii_byte(b: Seq<u8>, p: int)
    requires
        0 <= p < b.len(),
        b[p] < 0x80,
    ensures
        text::char_at(b, p) == Some(b[p] as char),
{
    let rest = b.skip(p);
    let x = b[p];
    assert(rest[0] == x);
    assert((x & 0x7f) as u32 == x as u32) by (bit_vector)
        requires
            x < 0x80,
    ;
}

/// A character written inside a string reads back.
proof fn lemma_string_char_reads_back(front: Seq<u8>, c: char, back: Seq<u8>)
    ensures
        ({
            let e = encode_utf8(json::escape(c));
            let b = front + e + back;
            let p = front.len() as int;
            &&& e.len() > 0
            &&& b[p] != 0x22
            &&& json::string_char(b, p) == Ok::<(char, int), Seq<char>>((c, p + e.len()))
        }),
{
    let s = json::escape(c);
    let e = encode_utf8(s);
    let b = front + e + back;
    let p = front.len() as int;
    if c == '"' {
        text::lemma_encode_ascii(s, seq![0x5cu8, 0x22]);
    } else if c == '\\' {
        text::lemma_encode_ascii(s, seq![0x5cu8, 0x5c]);
    } else if c == '\n' {
        text::lemma_encode_ascii(s, seq![0x5cu8, 0x6e]);
    } else if c == '\r' {
        text::lemma_encode_ascii(s, seq![0x5cu8, 0x72]);
    } else if c == '\t' {
        text::lemma_encode_ascii(s, seq![0x5cu8, 0x74]);
    } else if c == '\u{08}' {
        text::lemma_encode_ascii(s, seq![0x5cu8, 0x62]);
    } else if c == '\u{0c}' {
        text::lemma_encode_ascii(s, seq![0x5cu8, 0x66]);
    } else if (c as u32) < 0x20 {
        let high = json::hex_digit(c as u32 / 16);
        let low = json::hex_digit(c as u32 % 16);
        let bytes = seq![0x5cu8, 0x75, 0x30, 0x30, high as u8, low as u8];
        text::lemma_encode_ascii(s, bytes);
        assert(e == bytes);
        assert(b[p] == 0x5c && b[p + 1] == 0x75 && b[p + 2] == 0x30 && b[p + 3] == 0x30);
        assert(b[p + 4] == high as u8 && b[p + 5] == low as u8);
        assert(json::hex_value(b[p + 4]) == Some(c as u32 / 16));
        assert(json::hex_value(b[p + 5]) == Some(c as u32 % 16));
        reveal_with_fuel(json::hex_number, 5);
        assert(json::hex_number(b, p + 2, p + 6) == Some(c as u32 as int));
        char_u32_cast(c, c as u32);
    } else {
        text::lemma_encode_one(c);
        text::lemma_char_at_encoded(front, c, back);
        if b[p] < 0x80 {
            lemma_ascii_byte(b, p);
        }
    }
    assert(forall|i: int| 0 <= i < e.len() ==> b[p + i] == e[i]);
}

/// The rest of a string reads back.
proof fn lemma_string_rest_reads_back(
    front: Seq<u8>,
    s: Seq<char>,
    back: Seq<u8>,
    done: Seq<char>,
)
    ensures
        ({
            let e = encode_utf8(json::escape_all(s));
            let b = front + e + seq![0x22u8] + back;
            json::string_rest(b, front.len() as int, done) == Ok::<(Seq<char>, int), Seq<char>>(
                (done + s, (front.len() + e.len() + 1) as int),
            )
        }),
    decreases s.len(),
{
    let e = encode_utf8(json::escape_all(s));
    let b = front + e + seq![0x22u8] + back;
    let p = front.len() as int;
    if s.len() == 0 {
        assert(e.len() == 0);
        assert(b[p] == 0x22);
        assert(done + s =~= done);
    } else {
        let c = s[0];
        let t = s.drop_first();
        assert(s =~= seq![c] + t);
        lemma_escape_front(c, t);
        text::lemma_encode_concat(json::escape(c), json::escape_all(t));
        let e1 = encode_utf8(json::escape(c));
        let e2 = encode_utf8(json::escape_all(t));
        lemma_string_char_reads_back(front, c, e2 + seq![0x22u8] + back);
        assert(b =~= front + e1 + (e2 + seq![0x22u8] + back));
        lemma_string_rest_reads_back(front + e1, t, back, done.push(c));
        assert(b =~= (front + e1) + e2 + seq![0x22u8] + back);
        assert(done.push(c) + t =~= done + s);
    }
}

/// A quoted text reads back.
proof fn lemma_string_reads_back(front: Seq<u8>, s: Seq<char>, back: Seq<u8>)
    ensures
        ({
            let e = encode_utf8(json::quote(s));
            let b = front + e + back;
            &&& e.len() > 1
            &&& e[0] == 0x22
            &&& json::string_at(b, front.len() as int) == Ok::<(Seq<char>, int), Seq<char>>(
                (s, (front.len() + e.len()) as int),
            )
        }),
{
    let inner = encode_utf8(json::escape_all(s));
    let mark = seq![0x22u8];
    text::lemma_encode_ascii(seq!['"'], mark);
    text::lemma_encode_concat(seq!['"'] + json::escape_all(s), seq!['"']);
    text::lemma_encode_concat(seq!['"'], json::escape_all(s));
    let e = encode_utf8(json::quote(s));
    assert(e =~= mark + inner + mark);
    let b = front + e + back;
    lemma_string_rest_reads_back(front + mark, s, back, seq![]);
    assert(b =~= (front + mark) + inner + mark + back);
    assert(Seq::<char>::empty() + s =~= s);
    assert(b[front.len() as int] == 0x22);
}

/// The notation of a number that can stand in a JSON text.
pub open spec fn is_notation(n: Seq<char>) -> bool {
    let b = encode_utf8(n);
    &&& n == text::ascii(b)
    &&& json::is_number(b)
    &&& json::byte_at(b, 0, 0x2d) || 0x30 <= b[0] <= 0x39
}

/// Numbers are well-formed and no object has a key twice.
pub open spec fn is_proper(v: Json) -> bool
    decreases v,
{
    match v {
        Json::Num(n) => is_notation(n),
        Json::Arr(items) => forall|i: int| 0 <= i < items.len() ==> is_proper(#[trigger] items[i]),
        Json::Obj(pairs) => {
            &&& forall|i: int| 0 <= i < pairs.len() ==> is_proper((#[trigger] pairs[i]).1)
            &&& forall|i: int, j: int|
                0 <= i < j < pairs.len() ==> (#[trigger] pairs[i]).0 != (#[trigger] pairs[j]).0
        },
        _ => true,
    }
}

proof fn lemma_digits_to_the_end(b: Seq<u8>, p: int)
    requires
        0 <= p <= b.len(),
        forall|i: int| p <= i < b.len() ==> 0x30 <= #[trigger] b[i] <= 0x39,
    ensures
        json::digits_end(b, p) == b.len(),
    decreases b.len() - p,
{
    if p < b.len() {
        lemma_digits_to_the_end(b, p + 1);
    }
}

/// The decimal notation of a natural number can stand in a JSON text.
pub proof fn lemma_decimal_is_notation(n: nat)
    ensures
        is_notation(text::dec(n)),
{
    lemma_integer_is_notation(n as int);
}

/// The decimal notation of an integer can stand in a JSON text.
pub proof fn lemma_integer_is_notation(n: int)
    ensures
        is_notation(text::dec_int(n)),
{
    let d = text::dec_int(n);
    let b = Seq::new(d.len(), |i: int| d[i] as u8);
    let start: int = if n < 0 {
        1
    } else {
        0
    };
    let size = if n < 0 {
        (-n) as nat
    } else {
        n as nat
    };
    let digits = text::dec(size);
    text::lemma_dec_reads_back(size);
    assert(d.skip(start) =~= digits);
    assert forall|i: int| start <= i < d.len() implies 0x30 <= #[trigger] b[i] <= 0x39 && (
    d[i] as u32) < 128 by {
        assert(digits[i - start] == d[i]);
        assert(text::is_digit(d[i]));
    }
    text::lemma_encode_ascii(d, b);
    assert(text::ascii(b) =~= d);
    lemma_digits_to_the_end(b, start);
}

proof fn lemma_digits_run(b: Seq<u8>, p: int)
    requires
        0 <= p <= b.len(),
    ensures
        p <= json::digits_end(b, p) <= b.len(),
        forall|i: int| p <= i < json::digits_end(b, p) ==> 0x30 <= #[trigger] b[i] <= 0x39,
    decreases b.len() - p,
{
    if p < b.len() && 0x30 <= b[p] <= 0x39 {
        lemma_digits_run(b, p + 1);
    }
}

proof fn lemma_number_bytes(b: Seq<u8>)
    requires
        json::is_number(b),
    ensures
        b.len() > 0,
        forall|i: int| 0 <= i < b.len() ==> json::is_number_byte(#[trigger] b[i]),
{
    let start: int = if json::byte_at(b, 0, 0x2d) {
        1
    } else {
        0
    };
    lemma_digits_run(b, start);
    let whole = json::digits_end(b, start);
    if json::byte_at(b, whole, 0x2e) {
        lemma_digits_run(b, whole + 1);
    }
    let mantissa = if json::byte_at(b, whole, 0x2e) {
        json::digits_end(b, whole + 1)
    } else {
        whole
    };
    if mantissa < b.len() {
        let sign = mantissa + 1;
        let from = if json::byte_at(b, sign, 0x2b) || json::byte_at(b, sign, 0x2d) {
            sign + 1
        } else {
            sign
        };
        lemma_digits_run(b, from);
    }
}

proof fn lemma_number_end(b: Seq<u8>, p: int, e: int)
    requires
        0 <= p <= e <= b.len(),
        forall|i: int| p <= i < e ==> json::is_number_byte(#[trigger] b[i]),
        e < b.len() ==> !json::is_number_byte(b[e]),
    ensures
        json::number_end(b, p) == e,
    decreases e - p,
{
    if p < e {
        lemma_number_end(b, p + 1, e);
    }
}

proof fn lemma_skip_over(b: Seq<u8>, p: int, e: int)
    requires
        0 <= p <= e <= b.len(),
        forall|i: int| p <= i < e ==> json::is_space(#[trigger] b[i]),
        e < b.len() ==> !json::is_space(b[e]),
    ensures
        json::skip(b, p) == e,
    decreases e - p,
{
    if p < e {
        lemma_skip_over(b, p + 1, e);
    }
}

/// What may follow a value: nothing, white space, or the end or the next part of a container.
spec fn closes(back: Seq<u8>) -> bool {
    back.len() == 0 || json::is_space(back[0]) || back[0] == 0x2c || back[0] == 0x5d || back[0]
        == 0x7d
}

/// The white space before an item.
spec fn lead(wide: bool, indent: nat) -> Seq<char> {
    if wide {
        seq!['\n'] + json::margin(indent + 1)
    } else {
        seq![]
    }
}

/// The white space behind the last item.
spec fn tail(wide: bool, indent: nat) -> Seq<char> {
    if wide {
        seq!['\n'] + json::margin(indent)
    } else {
        seq![]
    }
}

/// What stands between a key and its value.
spec fn colon(wide: bool) -> Seq<char> {
    if wide {
        seq![':', ' ']
    } else {
        seq![':']
    }
}

/// The text of a value, compact or over several lines.
spec fn laid_out(v: Json, wide: bool, indent: nat) -> Seq<char>
    decreases v, 0int,
{
    match v {
        Json::Arr(items) => if items.len() == 0 {
            seq!['[', ']']
        } else {
            seq!['['] + items_from(items, 0, wide, indent) + tail(wide, indent) + seq![']']
        },
        Json::Obj(pairs) => if pairs.len() == 0 {
            seq!['{', '}']
        } else {
            seq!['{'] + pairs_from(pairs, 0, wide, indent) + tail(wide, indent) + seq!['}']
        },
        _ => json::compact(v),
    }
}

/// The items from place `k` on.
spec fn items_from(items: Seq<Json>, k: int, wide: bool, indent: nat) -> Seq<char>
    decreases items, items.len() - k,
{
    if 0 <= k < items.len() {
        json::comma(k) + lead(wide, indent) + laid_out(items[k], wide, indent + 1) + items_from(
            items,
            k + 1,
            wide,
            indent,
        )
    } else {
        seq![]
    }
}

/// The pairs from place `k` on.
spec fn pairs_from(pairs: Seq<(Seq<char>, Json)>, k: int, wide: bool, indent: nat) -> Seq<char>
    decreases pairs, pairs.len() - k,
{
    if 0 <= k < pairs.len() {
        json::comma(k) + lead(wide, indent) + json::quote(pairs[k].0) + colon(wide) + laid_out(
            pairs[k].1,
            wide,
            indent + 1,
        ) + pairs_from(pairs, k + 1, wide, indent)
    } else {
        seq![]
    }
}

/// White space encodes as white space.
proof fn lemma_spaces(wide: bool, indent: nat)
    ensures
        forall|i: int|
            0 <= i < encode_utf8(lead(wide, indent)).len() ==> json::is_space(
                #[trigger] encode_utf8(lead(wide, indent))[i],
            ),
        forall|i: int|
            0 <= i < encode_utf8(tail(wide, indent)).len() ==> json::is_space(
                #[trigger] encode_utf8(tail(wide, indent))[i],
            ),
{
    let l = lead(wide, indent);
    let t = tail(wide, indent);
    text::lemma_encode_ascii(
        l,
        Seq::new(
            l.len(),
            |i: int|
                if i == 0 {
                    0x0au8
                } else {
                    0x20u8
                },
        ),
    );
    text::lemma_encode_ascii(
        t,
        Seq::new(
            t.len(),
            |i: int|
                if i == 0 {
                    0x0au8
                } else {
                    0x20u8
                },
        ),
    );
}

proof fn lemma_null_text()
    ensures
        encode_utf8("null"@) == seq![0x6eu8, 0x75, 0x6c, 0x6c],
        encode_utf8("true"@) == seq![0x74u8, 0x72, 0x75, 0x65],
        encode_utf8("false"@) == seq![0x66u8, 0x61, 0x6c, 0x73, 0x65],
{
    reveal_strlit("null");
    reveal_strlit("true");
    reveal_strlit("false");
    text::lemma_encode_ascii("null"@, seq![0x6eu8, 0x75, 0x6c, 0x6c]);
    text::lemma_encode_ascii("true"@, seq![0x74u8, 0x72, 0x75, 0x65]);
    text::lemma_encode_ascii("false"@, seq![0x66u8, 0x61, 0x6c, 0x73, 0x65]);
}

/// The text of a value starts with something, and not with white space.
proof fn lemma_first_byte(v: Json, wide: bool, indent: nat)
    requires
        is_proper(v),
    ensures
        encode_utf8(laid_out(v, wide, indent)).len() > 0,
        !json::is_space(encode_utf8(laid_out(v, wide, indent))[0]),
        encode_utf8(laid_out(v, wide, indent))[0] != 0x5d,
{
    let s = laid_out(v, wide, indent);
    match v {
        Json::Null => {
            lemma_null_text();
        },
        Json::Bool(_) => {
            lemma_null_text();
        },
        Json::Num(n) => {
            lemma_number_bytes(encode_utf8(n));
        },
        Json::Str(t) => {
            lemma_string_reads_back(seq![], t, seq![]);
        },
        Json::Arr(_) => {
            assert(s =~= seq!['['] + s.drop_first());
            text::lemma_encode_concat(seq!['['], s.drop_first());
            text::lemma_encode_ascii(seq!['['], seq![0x5bu8]);
        },
        Json::Obj(_) => {
            assert(s =~= seq!['{'] + s.drop_first());
            text::lemma_encode_concat(seq!['{'], s.drop_first());
            text::lemma_encode_ascii(seq!['{'], seq![0x7bu8]);
        },
    }
}

/// A value that starts at `p` with no white space is read from there.
proof fn lemma_leaf_is_due(b: Seq<u8>, p: int)
    requires
        0 <= p < b.len(),
        !json::is_space(b[p]),
        b[p] != 0x7b,
        b[p] != 0x5b,
    ensures
        b[p] == 0x22 ==> json::value_at(b, p) == match json::string_at(b, p) {
            Ok((s, r)) => Ok::<(Json, int), Seq<char>>((Json::Str(s), r)),
            Err(e) => Err(e),
        },
        b[p] == 0x74 || b[p] == 0x66 || b[p] == 0x6e ==> json::value_at(b, p) == json::word_value(
            b,
            p,
        ),
        b[p] == 0x2d || 0x30 <= b[p] <= 0x39 ==> json::value_at(b, p) == json::number_at(b, p),
{
    assert(json::skip(b, p) == p);
}

/// The words `null`, `true` and `false` read back.
proof fn lemma_word_reads_back(v: Json, front: Seq<u8>, back: Seq<u8>)
    requires
        v is Null || v is Bool,
    ensures
        ({
            let e = encode_utf8(json::compact(v));
            json::value_at(front + e + back, front.len() as int) == Ok::<(Json, int), Seq<char>>(
                (v, (front.len() + e.len()) as int),
            )
        }),
{
    let e = encode_utf8(json::compact(v));
    let b = front + e + back;
    let p = front.len() as int;
    lemma_null_text();
    assert(b[p] == e[0]);
    assert(b.subrange(p, p + e.len()) =~= e);
    lemma_leaf_is_due(b, p);
    if v == Json::Bool(false) {
        assert(b.subrange(p, p + 4)[0] == 0x66);
        assert(!json::word_at(b, p, seq![0x74u8, 0x72, 0x75, 0x65])) by {
            assert(seq![0x74u8, 0x72, 0x75, 0x65][0] == 0x74);
        }
        assert(json::word_at(b, p, seq![0x66u8, 0x61, 0x6c, 0x73, 0x65]));
    }
}

/// A number reads back.
proof fn lemma_number_reads_back(n: Seq<char>, front: Seq<u8>, back: Seq<u8>)
    requires
        is_notation(n),
        closes(back),
    ensures
        ({
            let e = encode_utf8(n);
            json::value_at(front + e + back, front.len() as int) == Ok::<(Json, int), Seq<char>>(
                (Json::Num(n), (front.len() + e.len()) as int),
            )
        }),
{
    let e = encode_utf8(n);
    let b = front + e + back;
    let p = front.len() as int;
    let end = (p + e.len()) as int;
    lemma_number_bytes(e);
    assert(b[p] == e[0]);
    assert(b.subrange(p, end) =~= e);
    assert forall|i: int| p <= i < end implies json::is_number_byte(#[trigger] b[i]) by {
        assert(b[i] == e[i - p]);
    }
    if end < b.len() {
        assert(b[end] == back[0]);
    }
    lemma_number_end(b, p, end);
    lemma_leaf_is_due(b, p);
}

/// A value that holds no other values reads back.
proof fn lemma_leaf_reads_back(v: Json, front: Seq<u8>, back: Seq<u8>)
    requires
        is_proper(v),
        !(v is Arr),
        !(v is Obj),
        closes(back),
    ensures
        ({
            let e = encode_utf8(json::compact(v));
            json::value_at(front + e + back, front.len() as int) == Ok::<(Json, int), Seq<char>>(
                (v, (front.len() + e.len()) as int),
            )
        }),
{
    match v {
        Json::Num(n) => {
            lemma_number_reads_back(n, front, back);
        },
        Json::Str(s) => {
            let e = encode_utf8(json::compact(v));
            let b = front + e + back;
            lemma_string_reads_back(front, s, back);
            lemma_leaf_is_due(b, front.len() as int);
        },
        _ => {
            lemma_word_reads_back(v, front, back);
        },
    }
}

/// The encoded text of a value.
#[verifier::opaque]
spec fn value_bytes(v: Json, wide: bool, indent: nat) -> Seq<u8> {
    encode_utf8(laid_out(v, wide, indent))
}

/// The encoded white space before an item.
#[verifier::opaque]
spec fn lead_bytes(wide: bool, indent: nat) -> Seq<u8> {
    encode_utf8(lead(wide, indent))
}

/// The encoded white space behind the last item.
#[verifier::opaque]
spec fn tail_bytes(wide: bool, indent: nat) -> Seq<u8> {
    encode_utf8(tail(wide, indent))
}

/// A quoted key, encoded.
#[verifier::opaque]
spec fn key_bytes(key: Seq<char>) -> Seq<u8> {
    encode_utf8(json::quote(key))
}

/// What stands between a key and its value, encoded.
#[verifier::opaque]
spec fn colon_bytes(wide: bool) -> Seq<u8> {
    encode_utf8(colon(wide))
}

/// The bytes behind an item: the next item, or the end of the array.
#[verifier::opaque]
spec fn behind_item(items: Seq<Json>, k: int, wide: bool, indent: nat, back: Seq<u8>) -> Seq<u8> {
    encode_utf8(items_from(items, k + 1, wide, indent)) + (encode_utf8(tail(wide, indent)) + (
    seq![0x5du8] + back))
}

/// The bytes behind a member: the next member, or the end of the object.
#[verifier::opaque]
spec fn behind_pair(
    pairs: Seq<(Seq<char>, Json)>,
    k: int,
    wide: bool,
    indent: nat,
    back: Seq<u8>,
) -> Seq<u8> {
    encode_utf8(pairs_from(pairs, k + 1, wide, indent)) + (encode_utf8(tail(wide, indent)) + (
    seq![0x7du8] + back))
}

/// The value `v` is read from `p` on and ends before `r`.
#[verifier::opaque]
spec fn value_read(b: Seq<u8>, p: int, v: Json, r: int) -> bool {
    json::value_at(b, p) == Ok::<(Json, int), Seq<char>>((v, r))
}

/// Behind the items `done`, the rest of `items` is read from `p` on and ends before `r`.
#[verifier::opaque]
spec fn items_read(b: Seq<u8>, p: int, done: Seq<Json>, items: Seq<Json>, r: int) -> bool {
    json::elements(b, p, done) == Ok::<(Seq<Json>, int), Seq<char>>((items, r))
}

/// Behind the members `done`, the rest of `pairs` is read from `p` on and ends before `r`.
#[verifier::opaque]
spec fn pairs_read(
    b: Seq<u8>,
    p: int,
    done: Seq<(Seq<char>, Json)>,
    pairs: Seq<(Seq<char>, Json)>,
    r: int,
) -> bool {
    json::members(b, p, done) == Ok::<(Seq<(Seq<char>, Json)>, int), Seq<char>>((pairs, r))
}

/// The key is read from `p` on and ends before `r`.
#[verifier::opaque]
spec fn key_read(b: Seq<u8>, p: int, key: Seq<char>, r: int) -> bool {
    json::string_at(b, p) == Ok::<(Seq<char>, int), Seq<char>>((key, r))
}

/// The bytes from `p` to `q` are white space, and what follows is not.
#[verifier::opaque]
spec fn space_between(b: Seq<u8>, p: int, q: int) -> bool {
    json::skip(b, p) == q
}

proof fn lemma_space_between(b: Seq<u8>, p: int, q: int)
    requires
        0 <= p <= q <= b.len(),
        forall|i: int| p <= i < q ==> json::is_space(#[trigger] b[i]),
        q < b.len() ==> !json::is_space(b[q]),
    ensures
        space_between(b, p, q),
{
    reveal(space_between);
    lemma_skip_over(b, p, q);
}

/// The part `x` of the bytes `a + x + c` stands behind `a`.
proof fn lemma_part(a: Seq<u8>, x: Seq<u8>, c: Seq<u8>)
    ensures
        forall|i: int|
            a.len() <= i < a.len() + x.len() ==> #[trigger] (a + x + c)[i] == x[i - a.len()],
        c.len() > 0 ==> (a + x + c)[(a.len() + x.len()) as int] == c[0],
        (a + x + c).len() == a.len() + x.len() + c.len(),
{
}

/// Concatenations may be grouped at will.
proof fn lemma_regroup(a: Seq<u8>, x: Seq<u8>, y: Seq<u8>, c: Seq<u8>)
    ensures
        a + x + (y + c) == (a + x) + y + c,
        a + (x + y) + c == (a + x) + y + c,
        a + (x + y + c) == (a + x) + y + c,
{
    assert(a + x + (y + c) =~= (a + x) + y + c);
    assert(a + (x + y) + c =~= (a + x) + y + c);
    assert(a + (x + y + c) =~= (a + x) + y + c);
}

/// An opening bracket leads to the items of the array.
proof fn lemma_array_opens(b: Seq<u8>, p: int, first: int, items: Seq<Json>, r: int)
    requires
        json::byte_at(b, p, 0x5b),
        space_between(b, p + 1, first),
        p < first < b.len(),
        b[first] != 0x5d,
        items_read(b, first, seq![], items, r),
    ensures
        value_read(b, p, Json::Arr(items), r),
{
    reveal(space_between);
    reveal(items_read);
    reveal(value_read);
    lemma_skip_over(b, p, p);
}

/// An opening brace leads to the members of the object.
proof fn lemma_object_opens(
    b: Seq<u8>,
    p: int,
    first: int,
    pairs: Seq<(Seq<char>, Json)>,
    r: int,
)
    requires
        json::byte_at(b, p, 0x7b),
        space_between(b, p + 1, first),
        p < first < b.len(),
        b[first] != 0x7d,
        pairs_read(b, first, seq![], pairs, r),
    ensures
        value_read(b, p, Json::Obj(pairs), r),
{
    reveal(space_between);
    reveal(pairs_read);
    reveal(value_read);
    lemma_skip_over(b, p, p);
}

/// White space before a value does not change what is read.
proof fn lemma_value_behind_space(b: Seq<u8>, p: int, q: int, v: Json, r: int)
    requires
        space_between(b, p, q),
        space_between(b, q, q),
        value_read(b, q, v, r),
    ensures
        value_read(b, p, v, r),
{
    reveal(space_between);
    reveal(value_read);
}

/// One item of an array, and what follows it.
proof fn lemma_element_step(
    b: Seq<u8>,
    p: int,
    done: Seq<Json>,
    v: Json,
    r: int,
    next: int,
    items: Seq<Json>,
    end: int,
)
    requires
        value_read(b, p, v, r),
        space_between(b, r, next),
        0 <= p < next < b.len(),
        ({
            ||| b[next] == 0x2c && items_read(b, next + 1, done.push(v), items, end)
            ||| b[next] == 0x5d && items == done.push(v) && end == next + 1
        }),
    ensures
        items_read(b, p, done, items, end),
{
    reveal(space_between);
    reveal(items_read);
    reveal(value_read);
}

/// One member of an object, and what follows it.
proof fn lemma_member_step(
    b: Seq<u8>,
    p: int,
    start: int,
    done: Seq<(Seq<char>, Json)>,
    key: Seq<char>,
    mark: int,
    v: Json,
    r: int,
    next: int,
    pairs: Seq<(Seq<char>, Json)>,
    end: int,
)
    requires
        space_between(b, p, start),
        key_read(b, start, key, mark),
        json::key_place(done, key) is None,
        space_between(b, mark, mark),
        json::byte_at(b, mark, 0x3a),
        value_read(b, mark + 1, v, r),
        space_between(b, r, next),
        0 <= p <= mark < next < b.len(),
        ({
            ||| b[next] == 0x2c && pairs_read(b, next + 1, done.push((key, v)), pairs, end)
            ||| b[next] == 0x7d && pairs == done.push((key, v)) && end == next + 1
        }),
    ensures
        pairs_read(b, p, done, pairs, end),
{
    reveal(space_between);
    reveal(pairs_read);
    reveal(value_read);
    reveal(key_read);
}

/// The encoded parts of the items from place `k` on.
proof fn lemma_items_from_parts(items: Seq<Json>, k: int, wide: bool, indent: nat)
    requires
        0 <= k < items.len(),
    ensures
        encode_utf8(items_from(items, k, wide, indent)) == encode_utf8(json::comma(k))
            + lead_bytes(wide, indent) + value_bytes(items[k], wide, indent + 1) + encode_utf8(
            items_from(items, k + 1, wide, indent),
        ),
        encode_utf8(json::comma(0)) == Seq::<u8>::empty(),
        k > 0 ==> encode_utf8(json::comma(k)) == seq![0x2cu8],
{
    reveal(lead_bytes);
    reveal(value_bytes);
    let c = json::comma(k);
    let l = lead(wide, indent);
    let t = laid_out(items[k], wide, indent + 1);
    let r = items_from(items, k + 1, wide, indent);
    text::lemma_encode_concat(c + l + t, r);
    text::lemma_encode_concat(c + l, t);
    text::lemma_encode_concat(c, l);
    text::lemma_encode_ascii(seq![','], seq![0x2cu8]);
}

/// The encoded parts of the pairs from place `k` on.
proof fn lemma_pairs_from_parts(
    pairs: Seq<(Seq<char>, Json)>,
    k: int,
    wide: bool,
    indent: nat,
)
    requires
        0 <= k < pairs.len(),
    ensures
        encode_utf8(pairs_from(pairs, k, wide, indent)) == encode_utf8(json::comma(k))
            + lead_bytes(wide, indent) + key_bytes(pairs[k].0) + colon_bytes(wide) + value_bytes(
            pairs[k].1,
            wide,
            indent + 1,
        ) + encode_utf8(pairs_from(pairs, k + 1, wide, indent)),
        encode_utf8(json::comma(0)) == Seq::<u8>::empty(),
        k > 0 ==> encode_utf8(json::comma(k)) == seq![0x2cu8],
{
    reveal(lead_bytes);
    reveal(key_bytes);
    reveal(colon_bytes);
    reveal(value_bytes);
    let c = json::comma(k);
    let l = lead(wide, indent);
    let q = json::quote(pairs[k].0);
    let m = colon(wide);
    let t = laid_out(pairs[k].1, wide, indent + 1);
    let r = pairs_from(pairs, k + 1, wide, indent);
    text::lemma_encode_concat(c + l + q + m + t, r);
    text::lemma_encode_concat(c + l + q + m, t);
    text::lemma_encode_concat(c + l + q, m);
    text::lemma_encode_concat(c + l, q);
    text::lemma_encode_concat(c, l);
    text::lemma_encode_ascii(seq![','], seq![0x2cu8]);
}

/// The bytes of an array that holds something.
proof fn lemma_array_bytes(
    items: Seq<Json>,
    wide: bool,
    indent: nat,
    front: Seq<u8>,
    back: Seq<u8>,
)
    requires
        items.len() > 0,
    ensures
        front + value_bytes(Json::Arr(items), wide, indent) + back == front + seq![0x5bu8]
            + lead_bytes(wide, indent) + (value_bytes(items[0], wide, indent + 1) + behind_item(
            items,
            0,
            wide,
            indent,
            back,
        )),
{
    let inner = items_from(items, 0, wide, indent);
    let t = tail(wide, indent);
    text::lemma_encode_ascii(seq!['['], seq![0x5bu8]);
    text::lemma_encode_ascii(seq![']'], seq![0x5du8]);
    text::lemma_encode_concat(seq!['['] + inner + t, seq![']']);
    text::lemma_encode_concat(seq!['['] + inner, t);
    text::lemma_encode_concat(seq!['['], inner);
    lemma_items_from_parts(items, 0, wide, indent);
    let l = lead_bytes(wide, indent);
    let x = value_bytes(items[0], wide, indent + 1);
    let r = encode_utf8(items_from(items, 1, wide, indent));
    let w = encode_utf8(t);
    let e = value_bytes(Json::Arr(items), wide, indent);
    assert(e == seq![0x5bu8] + (Seq::empty() + l + x + r) + w + seq![0x5du8]) by {
        reveal(value_bytes);
    }
    assert(behind_item(items, 0, wide, indent, back) == r + (w + (seq![0x5du8] + back))) by {
        reveal(behind_item);
    }
    assert(front + e + back =~= front + seq![0x5bu8] + l + (x + (r + (w + (seq![0x5du8] + back)))));
}

/// The bytes of an object that holds something.
proof fn lemma_object_bytes(
    pairs: Seq<(Seq<char>, Json)>,
    wide: bool,
    indent: nat,
    front: Seq<u8>,
    back: Seq<u8>,
)
    requires
        pairs.len() > 0,
    ensures
        front + value_bytes(Json::Obj(pairs), wide, indent) + back == front + seq![0x7bu8]
            + lead_bytes(wide, indent) + (key_bytes(pairs[0].0) + (colon_bytes(wide) + (
        value_bytes(pairs[0].1, wide, indent + 1) + behind_pair(pairs, 0, wide, indent, back)))),
{
    let inner = pairs_from(pairs, 0, wide, indent);
    let t = tail(wide, indent);
    text::lemma_encode_ascii(seq!['{'], seq![0x7bu8]);
    text::lemma_encode_ascii(seq!['}'], seq![0x7du8]);
    text::lemma_encode_concat(seq!['{'] + inner + t, seq!['}']);
    text::lemma_encode_concat(seq!['{'] + inner, t);
    text::lemma_encode_concat(seq!['{'], inner);
    lemma_pairs_from_parts(pairs, 0, wide, indent);
    let l = lead_bytes(wide, indent);
    let q = key_bytes(pairs[0].0);
    let m = colon_bytes(wide);
    let x = value_bytes(pairs[0].1, wide, indent + 1);
    let r = encode_utf8(pairs_from(pairs, 1, wide, indent));
    let w = encode_utf8(t);
    let e = value_bytes(Json::Obj(pairs), wide, indent);
    assert(e == seq![0x7bu8] + (Seq::empty() + l + q + m + x + r) + w + seq![0x7du8]) by {
        reveal(value_bytes);
    }
    assert(behind_pair(pairs, 0, wide, indent, back) == r + (w + (seq![0x7du8] + back))) by {
        reveal(behind_pair);
    }
    let body = q + m + x + r;
    assert(Seq::<u8>::empty() + l + q + m + x + r =~= l + body);
    lemma_enclosed(front, seq![0x7bu8], l, body, w, seq![0x7du8], back);
    assert(body + (w + (seq![0x7du8] + back)) =~= q + (m + (x + (r + (w + (seq![0x7du8]
        + back))))));
}

/// A container with what stands before and behind it.
proof fn lemma_enclosed(
    front: Seq<u8>,
    open: Seq<u8>,
    l: Seq<u8>,
    body: Seq<u8>,
    w: Seq<u8>,
    close: Seq<u8>,
    back: Seq<u8>,
)
    ensures
        front + (open + (l + body) + w + close) + back == front + open + l + (body + (w + (close
            + back))),
{
    assert(front + (open + (l + body) + w + close) + back =~= front + open + l + (body + (w + (
    close + back))));
}

/// What stands behind an item.
proof fn lemma_behind_item(
    items: Seq<Json>,
    k: int,
    wide: bool,
    indent: nat,
    back: Seq<u8>,
)
    requires
        0 <= k < items.len(),
    ensures
        closes(behind_item(items, k, wide, indent, back)),
        behind_item(items, k, wide, indent, back).len() > back.len(),
        k + 1 < items.len() ==> behind_item(items, k, wide, indent, back) == seq![0x2cu8]
            + lead_bytes(wide, indent) + (value_bytes(items[k + 1], wide, indent + 1)
            + behind_item(items, k + 1, wide, indent, back)),
        k + 1 == items.len() ==> behind_item(items, k, wide, indent, back) == tail_bytes(
            wide,
            indent,
        ) + (seq![0x5du8] + back),
{
    reveal(behind_item);
    reveal(tail_bytes);
    let w = encode_utf8(tail(wide, indent));
    let end = w + (seq![0x5du8] + back);
    lemma_spaces(wide, indent);
    if k + 1 < items.len() {
        lemma_items_from_parts(items, k + 1, wide, indent);
        let l = lead_bytes(wide, indent);
        let x = value_bytes(items[k + 1], wide, indent + 1);
        let r = encode_utf8(items_from(items, k + 2, wide, indent));
        assert((seq![0x2cu8] + l + x + r) + end =~= seq![0x2cu8] + l + (x + (r + end)));
    } else {
        assert(items_from(items, k + 1, wide, indent) =~= Seq::empty());
        assert(Seq::<u8>::empty() + end =~= end);
        if w.len() > 0 {
            assert(end[0] == w[0]);
        }
    }
}

/// What stands behind a member.
proof fn lemma_behind_pair(
    pairs: Seq<(Seq<char>, Json)>,
    k: int,
    wide: bool,
    indent: nat,
    back: Seq<u8>,
)
    requires
        0 <= k < pairs.len(),
    ensures
        closes(behind_pair(pairs, k, wide, indent, back)),
        behind_pair(pairs, k, wide, indent, back).len() > back.len(),
        k + 1 < pairs.len() ==> behind_pair(pairs, k, wide, indent, back) == seq![0x2cu8]
            + lead_bytes(wide, indent) + (key_bytes(pairs[k + 1].0) + (colon_bytes(wide) + (
        value_bytes(pairs[k + 1].1, wide, indent + 1) + behind_pair(
            pairs,
            k + 1,
            wide,
            indent,
            back,
        )))),
        k + 1 == pairs.len() ==> behind_pair(pairs, k, wide, indent, back) == tail_bytes(
            wide,
            indent,
        ) + (seq![0x7du8] + back),
{
    reveal(behind_pair);
    reveal(tail_bytes);
    let w = encode_utf8(tail(wide, indent));
    let end = w + (seq![0x7du8] + back);
    lemma_spaces(wide, indent);
    if k + 1 < pairs.len() {
        lemma_pairs_from_parts(pairs, k + 1, wide, indent);
        let l = lead_bytes(wide, indent);
        let q = key_bytes(pairs[k + 1].0);
        let m = colon_bytes(wide);
        let x = value_bytes(pairs[k + 1].1, wide, indent + 1);
        let r = encode_utf8(pairs_from(pairs, k + 2, wide, indent));
        assert((seq![0x2cu8] + l + q + m + x + r) + end =~= seq![0x2cu8] + l + (q + (m + (x + (r
            + end)))));
    } else {
        assert(pairs_from(pairs, k + 1, wide, indent) =~= Seq::empty());
        assert(Seq::<u8>::empty() + end =~= end);
        if w.len() > 0 {
            assert(end[0] == w[0]);
        }
    }
}

/// White space encodes as white space.
proof fn lemma_space_bytes(wide: bool, indent: nat)
    ensures
        forall|i: int|
            0 <= i < lead_bytes(wide, indent).len() ==> json::is_space(
                #[trigger] lead_bytes(wide, indent)[i],
            ),
        forall|i: int|
            0 <= i < tail_bytes(wide, indent).len() ==> json::is_space(
                #[trigger] tail_bytes(wide, indent)[i],
            ),
{
    reveal(lead_bytes);
    reveal(tail_bytes);
    lemma_spaces(wide, indent);
}

/// The text of a value starts with something, and not with white space.
proof fn lemma_value_starts(v: Json, wide: bool, indent: nat)
    requires
        is_proper(v),
    ensures
        value_bytes(v, wide, indent).len() > 0,
        !json::is_space(value_bytes(v, wide, indent)[0]),
        value_bytes(v, wide, indent)[0] != 0x5d,
{
    reveal(value_bytes);
    lemma_first_byte(v, wide, indent);
}

/// A key reads back.
proof fn lemma_key_reads_back(front: Seq<u8>, key: Seq<char>, back: Seq<u8>)
    ensures
        key_bytes(key).len() > 1,
        key_bytes(key)[0] == 0x22,
        key_read(
            front + key_bytes(key) + back,
            front.len() as int,
            key,
            (front.len() + key_bytes(key).len()) as int,
        ),
{
    reveal(key_bytes);
    reveal(key_read);
    lemma_string_reads_back(front, key, back);
}

/// A value reads back from its text, whatever stands before and whatever closes it.
proof fn lemma_value_reads_back(
    v: Json,
    wide: bool,
    indent: nat,
    front: Seq<u8>,
    back: Seq<u8>,
)
    requires
        is_proper(v),
        closes(back),
    ensures
        value_read(
            front + value_bytes(v, wide, indent) + back,
            front.len() as int,
            v,
            (front.len() + value_bytes(v, wide, indent).len()) as int,
        ),
    decreases v, 0int,
{
    match v {
        Json::Arr(items) => {
            if items.len() == 0 {
                reveal(value_bytes);
                reveal(value_read);
                lemma_empty_reads_back(v, front, back);
                assert(items =~= Seq::empty());
            } else {
                lemma_array_reads_back(items, wide, indent, front, back);
            }
        },
        Json::Obj(pairs) => {
            if pairs.len() == 0 {
                reveal(value_bytes);
                reveal(value_read);
                lemma_empty_reads_back(v, front, back);
                assert(pairs =~= Seq::empty());
            } else {
                lemma_object_reads_back(pairs, wide, indent, front, back);
            }
        },
        _ => {
            reveal(value_bytes);
            reveal(value_read);
            lemma_leaf_reads_back(v, front, back);
        },
    }
}

proof fn lemma_empty_reads_back(v: Json, front: Seq<u8>, back: Seq<u8>)
    requires
        v matches Json::Arr(items) ==> items.len() == 0,
        v matches Json::Obj(pairs) ==> pairs.len() == 0,
        v is Arr || v is Obj,
    ensures
        ({
            let s = if v is Arr {
                seq!['[', ']']
            } else {
                seq!['{', '}']
            };
            let empty = if v is Arr {
                Json::Arr(seq![])
            } else {
                Json::Obj(seq![])
            };
            let e = encode_utf8(s);
            e.len() == 2 && json::value_at(front + e + back, front.len() as int) == Ok::<
                (Json, int),
                Seq<char>,
            >((empty, front.len() as int + 2))
        }),
{
    let p = front.len() as int;
    if v is Arr {
        let e = seq![0x5bu8, 0x5d];
        text::lemma_encode_ascii(seq!['[', ']'], e);
        lemma_part(front, e, back);
        let b = front + e + back;
        assert(b[p] == 0x5b && b[p + 1] == 0x5d);
        lemma_skip_over(b, p, p);
        lemma_skip_over(b, p + 1, p + 1);
    } else {
        let e = seq![0x7bu8, 0x7d];
        text::lemma_encode_ascii(seq!['{', '}'], e);
        lemma_part(front, e, back);
        let b = front + e + back;
        assert(b[p] == 0x7b && b[p + 1] == 0x7d);
        lemma_skip_over(b, p, p);
        lemma_skip_over(b, p + 1, p + 1);
    }
}

proof fn lemma_array_reads_back(
    items: Seq<Json>,
    wide: bool,
    indent: nat,
    front: Seq<u8>,
    back: Seq<u8>,
)
    requires
        items.len() > 0,
        forall|i: int| 0 <= i < items.len() ==> is_proper(#[trigger] items[i]),
    ensures
        value_read(
            front + value_bytes(Json::Arr(items), wide, indent) + back,
            front.len() as int,
            Json::Arr(items),
            (front.len() + value_bytes(Json::Arr(items), wide, indent).len()) as int,
        ),
    decreases items, items.len() + 1,
{
    let open = seq![0x5bu8];
    let p = front.len() as int;
    let l = lead_bytes(wide, indent);
    let x = value_bytes(items[0], wide, indent + 1);
    let rest = behind_item(items, 0, wide, indent, back);
    let b = front + open + l + (x + rest);
    let first = (p + 1 + l.len()) as int;
    lemma_array_bytes(items, wide, indent, front, back);
    lemma_space_bytes(wide, indent);
    lemma_value_starts(items[0], wide, indent + 1);
    lemma_part(front + open, l, x + rest);
    assert((x + rest)[0] == x[0]);
    assert(b[p] == 0x5b);
    assert forall|i: int| p + 1 <= i < first implies json::is_space(#[trigger] b[i]) by {
        assert(b[i] == l[i - (p + 1)]);
    }
    lemma_space_between(b, p + 1, first);
    lemma_elements_read_back(items, 0, wide, indent, front + open, back, first);
    assert(items.take(0) =~= Seq::empty());
    lemma_array_opens(b, p, first, items, b.len() - back.len());
}

proof fn lemma_object_reads_back(
    pairs: Seq<(Seq<char>, Json)>,
    wide: bool,
    indent: nat,
    front: Seq<u8>,
    back: Seq<u8>,
)
    requires
        pairs.len() > 0,
        forall|i: int| 0 <= i < pairs.len() ==> is_proper((#[trigger] pairs[i]).1),
        forall|i: int, j: int|
            0 <= i < j < pairs.len() ==> (#[trigger] pairs[i]).0 != (#[trigger] pairs[j]).0,
    ensures
        value_read(
            front + value_bytes(Json::Obj(pairs), wide, indent) + back,
            front.len() as int,
            Json::Obj(pairs),
            (front.len() + value_bytes(Json::Obj(pairs), wide, indent).len()) as int,
        ),
    decreases pairs, pairs.len() + 1,
{
    let open = seq![0x7bu8];
    let p = front.len() as int;
    let l = lead_bytes(wide, indent);
    let q = key_bytes(pairs[0].0);
    let m = colon_bytes(wide);
    let x = value_bytes(pairs[0].1, wide, indent + 1);
    let after = q + (m + (x + behind_pair(pairs, 0, wide, indent, back)));
    let b = front + open + l + after;
    let first = (p + 1 + l.len()) as int;
    lemma_object_bytes(pairs, wide, indent, front, back);
    lemma_space_bytes(wide, indent);
    lemma_key_reads_back(seq![], pairs[0].0, seq![]);
    lemma_part(front + open, l, after);
    assert(after[0] == q[0]);
    assert(b[p] == 0x7b);
    assert forall|i: int| p + 1 <= i < first implies json::is_space(#[trigger] b[i]) by {
        assert(b[i] == l[i - (p + 1)]);
    }
    lemma_space_between(b, p + 1, first);
    lemma_members_read_back(pairs, 0, wide, indent, front + open, back, first);
    assert(pairs.take(0) =~= Seq::empty());
    lemma_object_opens(b, p, first, pairs, b.len() - back.len());
}

/// The items of an array from place `k` on read back.
proof fn lemma_elements_read_back(
    items: Seq<Json>,
    k: int,
    wide: bool,
    indent: nat,
    front: Seq<u8>,
    back: Seq<u8>,
    p: int,
)
    requires
        0 <= k < items.len(),
        forall|i: int| 0 <= i < items.len() ==> is_proper(#[trigger] items[i]),
        front.len() <= p <= front.len() + lead_bytes(wide, indent).len(),
    ensures
        ({
            let b = front + lead_bytes(wide, indent) + (value_bytes(items[k], wide, indent + 1)
                + behind_item(items, k, wide, indent, back));
            items_read(b, p, items.take(k), items, b.len() - back.len())
        }),
    decreases items, items.len() - k,
{
    let l = lead_bytes(wide, indent);
    let x = value_bytes(items[k], wide, indent + 1);
    let w = tail_bytes(wide, indent);
    let rest = behind_item(items, k, wide, indent, back);
    let b = front + l + (x + rest);
    let q = (front.len() + l.len()) as int;
    let after = (q + x.len()) as int;
    let end = b.len() - back.len();
    lemma_space_bytes(wide, indent);
    lemma_value_starts(items[k], wide, indent + 1);
    lemma_behind_item(items, k, wide, indent, back);
    lemma_part(front, l, x + rest);
    lemma_regroup(front, l, x, rest);
    lemma_part(front + l, x, rest);
    assert((x + rest)[0] == x[0]);
    assert forall|i: int| p <= i < q implies json::is_space(#[trigger] b[i]) by {
        assert(b[i] == l[i - front.len()]);
    }
    lemma_space_between(b, p, q);
    lemma_space_between(b, q, q);
    lemma_value_reads_back(items[k], wide, indent + 1, front + l, rest);
    lemma_value_behind_space(b, p, q, items[k], after);
    assert(items.take(k).push(items[k]) =~= items.take(k + 1));
    if k + 1 < items.len() {
        let x2 = value_bytes(items[k + 1], wide, indent + 1);
        let rest2 = behind_item(items, k + 1, wide, indent, back);
        let sep = seq![0x2cu8];
        assert(rest[0] == sep[0]);
        lemma_space_between(b, after, after);
        lemma_elements_read_back(items, k + 1, wide, indent, front + l + x + sep, back, after + 1);
        lemma_next_part(front + l + x, sep, l, x2 + rest2);
        lemma_element_step(b, p, items.take(k), items[k], after, after, items, end);
    } else {
        let close = seq![0x5du8] + back;
        lemma_regroup(front + l, x, w, close);
        lemma_part(front + l + x, w, close);
        assert(close[0] == 0x5d);
        assert forall|i: int| after <= i < after + w.len() implies json::is_space(
            #[trigger] b[i],
        ) by {
            assert(b[i] == w[i - after]);
        }
        lemma_space_between(b, after, (after + w.len()) as int);
        assert(items.take(k + 1) =~= items);
        lemma_element_step(
            b,
            p,
            items.take(k),
            items[k],
            after,
            (after + w.len()) as int,
            items,
            end,
        );
    }
}

/// A separator and what follows it may be counted to what stands before.
proof fn lemma_next_part(a: Seq<u8>, sep: Seq<u8>, l: Seq<u8>, x: Seq<u8>)
    ensures
        a + (sep + l + x) == (a + sep) + l + x,
{
    assert(a + (sep + l + x) =~= (a + sep) + l + x);
}

proof fn lemma_new_key(pairs: Seq<(Seq<char>, Json)>, k: int, n: int)
    requires
        0 <= n <= k < pairs.len(),
        forall|i: int, j: int|
            0 <= i < j < pairs.len() ==> (#[trigger] pairs[i]).0 != (#[trigger] pairs[j]).0,
    ensures
        json::key_place(pairs.take(n), pairs[k].0) is None,
    decreases n,
{
    if n > 0 {
        lemma_new_key(pairs, k, n - 1);
        assert(pairs.take(n).drop_last() =~= pairs.take(n - 1));
        assert(pairs.take(n).last() == pairs[n - 1]);
    }
}

/// The bytes between a key and its value: a colon, and white space if there is more.
proof fn lemma_colon_bytes(wide: bool)
    ensures
        1 <= colon_bytes(wide).len() <= 2,
        colon_bytes(wide)[0] == 0x3a,
        colon_bytes(wide).len() == 2 ==> json::is_space(colon_bytes(wide)[1]),
{
    reveal(colon_bytes);
    if wide {
        text::lemma_encode_ascii(seq![':', ' '], seq![0x3au8, 0x20]);
    } else {
        text::lemma_encode_ascii(seq![':'], seq![0x3au8]);
    }
}

/// The members of an object from place `k` on read back.
proof fn lemma_members_read_back(
    pairs: Seq<(Seq<char>, Json)>,
    k: int,
    wide: bool,
    indent: nat,
    front: Seq<u8>,
    back: Seq<u8>,
    p: int,
)
    requires
        0 <= k < pairs.len(),
        forall|i: int| 0 <= i < pairs.len() ==> is_proper((#[trigger] pairs[i]).1),
        forall|i: int, j: int|
            0 <= i < j < pairs.len() ==> (#[trigger] pairs[i]).0 != (#[trigger] pairs[j]).0,
        front.len() <= p <= front.len() + lead_bytes(wide, indent).len(),
    ensures
        ({
            let b = front + lead_bytes(wide, indent) + (key_bytes(pairs[k].0) + (colon_bytes(wide)
                + (value_bytes(pairs[k].1, wide, indent + 1) + behind_pair(
                pairs,
                k,
                wide,
                indent,
                back,
            ))));
            pairs_read(b, p, pairs.take(k), pairs, b.len() - back.len())
        }),
    decreases pairs, pairs.len() - k,
{
    let l = lead_bytes(wide, indent);
    let key = pairs[k].0;
    let v = pairs[k].1;
    let q = key_bytes(key);
    let m = colon_bytes(wide);
    let x = value_bytes(v, wide, indent + 1);
    let w = tail_bytes(wide, indent);
    let rest = behind_pair(pairs, k, wide, indent, back);
    let b = front + l + (q + (m + (x + rest)));
    let start = (front.len() + l.len()) as int;
    let mark = (start + q.len()) as int;
    let from = (mark + m.len()) as int;
    let after = (from + x.len()) as int;
    let end = b.len() - back.len();
    lemma_space_bytes(wide, indent);
    lemma_behind_pair(pairs, k, wide, indent, back);
    lemma_key_reads_back(front + l, key, m + (x + rest));
    lemma_colon_bytes(wide);
    lemma_value_starts(v, wide, indent + 1);
    lemma_part(front, l, q + (m + (x + rest)));
    assert((q + (m + (x + rest)))[0] == q[0]);
    assert forall|i: int| p <= i < start implies json::is_space(#[trigger] b[i]) by {
        assert(b[i] == l[i - front.len()]);
    }
    lemma_space_between(b, p, start);
    lemma_regroup(front, l, q, m + (x + rest));
    lemma_regroup(front + l, q, m, x + rest);
    lemma_part(front + l + q, m, x + rest);
    assert(b[mark] == m[0]);
    assert((x + rest)[0] == x[0]);
    lemma_space_between(b, mark, mark);
    assert forall|i: int| mark + 1 <= i < from implies json::is_space(#[trigger] b[i]) by {
        assert(b[i] == m[i - mark]);
    }
    lemma_space_between(b, mark + 1, from);
    lemma_space_between(b, from, from);
    lemma_regroup(front + l + q, m, x, rest);
    lemma_part(front + l + q + m, x, rest);
    lemma_value_reads_back(v, wide, indent + 1, front + l + q + m, rest);
    lemma_value_behind_space(b, mark + 1, from, v, after);
    lemma_new_key(pairs, k, k);
    assert(pairs.take(k).push((key, v)) =~= pairs.take(k + 1));
    if k + 1 < pairs.len() {
        let tail2 = key_bytes(pairs[k + 1].0) + (m + (value_bytes(
            pairs[k + 1].1,
            wide,
            indent + 1,
        ) + behind_pair(pairs, k + 1, wide, indent, back)));
        let sep = seq![0x2cu8];
        let front2 = front + l + q + m + x + sep;
        assert(rest[0] == sep[0]);
        lemma_space_between(b, after, after);
        lemma_members_read_back(pairs, k + 1, wide, indent, front2, back, after + 1);
        lemma_next_part(front + l + q + m + x, sep, l, tail2);
        lemma_member_step(
            b,
            p,
            start,
            pairs.take(k),
            key,
            mark,
            v,
            after,
            after,
            pairs,
            end,
        );
    } else {
        let close = seq![0x7du8] + back;
        let last = (after + w.len()) as int;
        lemma_regroup(front + l + q + m, x, w, close);
        lemma_part(front + l + q + m + x, w, close);
        assert(close[0] == 0x7d);
        assert forall|i: int| after <= i < last implies json::is_space(#[trigger] b[i]) by {
            assert(b[i] == w[i - after]);
        }
        lemma_space_between(b, after, last);
        assert(pairs.take(k + 1) =~= pairs);
        lemma_member_step(
            b,
            p,
            start,
            pairs.take(k),
            key,
            mark,
            v,
            after,
            last,
            pairs,
            end,
        );
    }
}

/// The compact text is the layout without white space.
proof fn lemma_compact_is_laid_out(v: Json, indent: nat)
    ensures
        json::compact(v) == laid_out(v, false, indent),
    decreases v, 0int,
{
    match v {
        Json::Arr(items) => {
            if items.len() > 0 {
                lemma_compact_items(items, 0, indent);
                assert(json::compact(v) =~= laid_out(v, false, indent));
            } else {
                assert(json::compact(v) =~= seq!['[', ']']);
            }
        },
        Json::Obj(pairs) => {
            if pairs.len() > 0 {
                lemma_compact_pairs(pairs, 0, indent);
                assert(json::compact(v) =~= laid_out(v, false, indent));
            } else {
                assert(json::compact(v) =~= seq!['{', '}']);
            }
        },
        _ => {},
    }
}

proof fn lemma_compact_items(items: Seq<Json>, k: int, indent: nat)
    requires
        0 <= k <= items.len(),
    ensures
        json::compact_items(items, k) + items_from(items, k, false, indent) == json::compact_items(
            items,
            items.len() as int,
        ),
    decreases items, items.len() - k,
{
    if k < items.len() {
        lemma_compact_is_laid_out(items[k], indent + 1);
        lemma_compact_items(items, k + 1, indent);
    }
    assert(json::compact_items(items, k) + items_from(items, k, false, indent)
        =~= json::compact_items(items, items.len() as int));
}

proof fn lemma_compact_pairs(pairs: Seq<(Seq<char>, Json)>, k: int, indent: nat)
    requires
        0 <= k <= pairs.len(),
    ensures
        json::compact_pairs(pairs, k) + pairs_from(pairs, k, false, indent) == json::compact_pairs(
            pairs,
            pairs.len() as int,
        ),
    decreases pairs, pairs.len() - k,
{
    if k < pairs.len() {
        lemma_compact_is_laid_out(pairs[k].1, indent + 1);
        lemma_compact_pairs(pairs, k + 1, indent);
    }
    assert(json::compact_pairs(pairs, k) + pairs_from(pairs, k, false, indent)
        =~= json::compact_pairs(pairs, pairs.len() as int));
}

/// The text over several lines is the layout with white space.
proof fn lemma_pretty_is_laid_out(v: Json, indent: nat)
    ensures
        json::pretty(v, indent) == laid_out(v, true, indent),
    decreases v, 0int,
{
    match v {
        Json::Arr(items) => {
            reveal_strlit("[]");
            reveal_strlit("[\n");
            if items.len() > 0 {
                lemma_pretty_items(items, 0, indent);
                assert(json::pretty(v, indent) =~= laid_out(v, true, indent));
            } else {
                assert(json::pretty(v, indent) =~= seq!['[', ']']);
            }
        },
        Json::Obj(pairs) => {
            reveal_strlit("{}");
            reveal_strlit("{\n");
            if pairs.len() > 0 {
                lemma_pretty_pairs(pairs, 0, indent);
                assert(json::pretty(v, indent) =~= laid_out(v, true, indent));
            } else {
                assert(json::pretty(v, indent) =~= seq!['{', '}']);
            }
        },
        _ => {},
    }
}

proof fn lemma_pretty_items(items: Seq<Json>, k: int, indent: nat)
    requires
        0 <= k <= items.len(),
        items.len() > 0,
    ensures
        k < items.len() ==> json::pretty_items(items, k, indent) + items_from(
            items,
            k,
            true,
            indent,
        ).skip(if k > 0 {
            2
        } else {
            1
        }) + seq!['\n'] == json::pretty_items(items, items.len() as int, indent),
    decreases items, items.len() - k,
{
    if k < items.len() {
        let cut: int = if k > 0 {
            2
        } else {
            1
        };
        lemma_pretty_is_laid_out(items[k], indent + 1);
        lemma_pretty_items(items, k + 1, indent);
        let x = json::pretty(items[k], indent + 1);
        let rest = items_from(items, k + 1, true, indent);
        let g = json::margin(indent + 1);
        assert(items_from(items, k, true, indent).skip(cut) =~= g + x + rest);
        if k + 1 < items.len() {
            assert(rest =~= seq![',', '\n'] + rest.skip(2));
            assert(json::pretty_items(items, k + 1, indent) =~= json::pretty_items(
                items,
                k,
                indent,
            ) + g + x + seq![',', '\n']);
        }
        assert(json::pretty_items(items, k, indent) + items_from(items, k, true, indent).skip(cut)
            + seq!['\n'] =~= json::pretty_items(items, items.len() as int, indent));
    }
}

proof fn lemma_pretty_pairs(pairs: Seq<(Seq<char>, Json)>, k: int, indent: nat)
    requires
        0 <= k <= pairs.len(),
        pairs.len() > 0,
    ensures
        k < pairs.len() ==> json::pretty_pairs(pairs, k, indent) + pairs_from(
            pairs,
            k,
            true,
            indent,
        ).skip(if k > 0 {
            2
        } else {
            1
        }) + seq!['\n'] == json::pretty_pairs(pairs, pairs.len() as int, indent),
    decreases pairs, pairs.len() - k,
{
    if k < pairs.len() {
        let cut: int = if k > 0 {
            2
        } else {
            1
        };
        lemma_pretty_is_laid_out(pairs[k].1, indent + 1);
        lemma_pretty_pairs(pairs, k + 1, indent);
        let x = json::quote(pairs[k].0) + seq![':', ' '] + json::pretty(pairs[k].1, indent + 1);
        let rest = pairs_from(pairs, k + 1, true, indent);
        let g = json::margin(indent + 1);
        assert(pairs_from(pairs, k, true, indent).skip(cut) =~= g + x + rest);
        if k + 1 < pairs.len() {
            assert(rest =~= seq![',', '\n'] + rest.skip(2));
            assert(json::pretty_pairs(pairs, k + 1, indent) =~= json::pretty_pairs(
                pairs,
                k,
                indent,
            ) + g + x + seq![',', '\n']);
        }
        assert(json::pretty_pairs(pairs, k, indent) + pairs_from(pairs, k, true, indent).skip(cut)
            + seq!['\n'] =~= json::pretty_pairs(pairs, pairs.len() as int, indent));
    }
}

proof fn lemma_document_reads_back(v: Json, wide: bool, indent: nat)
    requires
        is_proper(v),
    ensures
        json::document(encode_utf8(laid_out(v, wide, indent))) == Ok::<Json, Seq<char>>(v),
{
    let e = encode_utf8(laid_out(v, wide, indent));
    lemma_first_byte(v, wide, indent);
    lemma_value_reads_back(v, wide, indent, seq![], seq![]);
    reveal(value_bytes);
    reveal(value_read);
    assert(Seq::<u8>::empty() + e + Seq::<u8>::empty() =~= e);
    lemma_skip_over(e, 0, 0);
    lemma_skip_over(e, e.len() as int, e.len() as int);
}

/// The compact text of a value parses to the value.
pub proof fn lemma_compact_text_reads_back(v: Json)
    requires
        is_proper(v),
    ensures
        json::document(encode_utf8(json::compact(v))) == Ok::<Json, Seq<char>>(v),
{
    lemma_compact_is_laid_out(v, 0);
    lemma_document_reads_back(v, false, 0);
}

/// The text of a value over several lines parses to the value.
pub proof fn lemma_pretty_text_reads_back(v: Json, indent: nat)
    requires
        is_proper(v),
    ensures
        json::document(encode_utf8(json::pretty(v, indent))) == Ok::<Json, Seq<char>>(v),
{
    lemma_pretty_is_laid_out(v, indent);
    lemma_document_reads_back(v, true, indent);
}

proof fn lemma_unused_key(pairs: Seq<(Seq<char>, Json)>, key: Seq<char>)
    requires
        json::key_place(pairs, key) is None,
    ensures
        forall|i: int| 0 <= i < pairs.len() ==> (#[trigger] pairs[i]).0 != key,
    decreases pairs.len(),
{
    if pairs.len() > 0 {
        lemma_unused_key(pairs.drop_last(), key);
        assert forall|i: int| 0 <= i < pairs.len() implies (#[trigger] pairs[i]).0 != key by {
            if i < pairs.len() - 1 {
                assert(pairs.drop_last()[i] == pairs[i]);
            }
        }
    }
}

proof fn lemma_number_run(b: Seq<u8>, p: int)
    requires
        0 <= p <= b.len(),
    ensures
        p <= json::number_end(b, p) <= b.len(),
        forall|i: int| p <= i < json::number_end(b, p) ==> json::is_number_byte(#[trigger] b[i]),
    decreases b.len() - p,
{
    if p < b.len() && json::is_number_byte(b[p]) {
        lemma_number_run(b, p + 1);
    }
}

proof fn lemma_number_is_proper(b: Seq<u8>, p: int)
    requires
        0 <= p < b.len(),
        b[p] == 0x2d || 0x30 <= b[p] <= 0x39,
    ensures
        json::number_at(b, p) is Ok ==> is_proper(json::number_at(b, p)->Ok_0.0),
{
    lemma_number_run(b, p);
    let e = json::number_end(b, p);
    let notation = b.subrange(p, e);
    let n = text::ascii(notation);
    assert forall|i: int| 0 <= i < n.len() implies (#[trigger] notation[i]) < 0x80 && n[i]
        == notation[i] as char by {
        assert(json::is_number_byte(b[p + i]));
    }
    text::lemma_encode_ascii(n, notation);
    if json::is_number(notation) {
        assert(notation[0] == b[p]);
        assert(is_notation(n));
    }
}

proof fn lemma_item_keeps_array_proper(done: Seq<Json>, v: Json)
    requires
        is_proper(Json::Arr(done)),
        is_proper(v),
    ensures
        is_proper(Json::Arr(done.push(v))),
{
    let more = done.push(v);
    let array = Json::Arr(done);
    assert(array->Arr_0 == done);
    assert forall|i: int| 0 <= i < more.len() implies is_proper(#[trigger] more[i]) by {
        if i < done.len() {
            assert(more[i] == array->Arr_0[i]);
        }
    }
}

proof fn lemma_member_keeps_object_proper(
    done: Seq<(Seq<char>, Json)>,
    key: Seq<char>,
    v: Json,
)
    requires
        is_proper(Json::Obj(done)),
        is_proper(v),
        json::key_place(done, key) is None,
    ensures
        is_proper(Json::Obj(done.push((key, v)))),
{
    let more = done.push((key, v));
    let object = Json::Obj(done);
    assert(object->Obj_0 == done);
    lemma_unused_key(done, key);
    assert forall|i: int| 0 <= i < more.len() implies is_proper((#[trigger] more[i]).1) by {
        if i < done.len() {
            assert(more[i] == object->Obj_0[i]);
        }
    }
    assert forall|i: int, j: int| 0 <= i < j < more.len() implies (#[trigger] more[i]).0 != (
    #[trigger] more[j]).0 by {
        assert(more[i] == object->Obj_0[i]);
        if j < done.len() {
            assert(more[j] == object->Obj_0[j]);
        }
    }
}

proof fn lemma_value_is_proper(b: Seq<u8>, p: int)
    ensures
        json::value_at(b, p) is Ok ==> is_proper(json::value_at(b, p)->Ok_0.0),
    decreases b.len() - p, 2int,
{
    let q = json::skip(b, p);
    json::lemma_skip_moves_on(b, p);
    if 0 <= q < b.len() {
        if b[q] == 0x7b {
            let r = json::skip(b, q + 1);
            json::lemma_skip_moves_on(b, q + 1);
            if json::byte_at(b, r, 0x7d) {
                assert(is_proper(Json::Obj(seq![])));
            } else if q < r <= b.len() {
                lemma_members_are_proper(b, r, seq![]);
            }
        } else if b[q] == 0x5b {
            let r = json::skip(b, q + 1);
            json::lemma_skip_moves_on(b, q + 1);
            if json::byte_at(b, r, 0x5d) {
                assert(is_proper(Json::Arr(seq![])));
            } else if q < r <= b.len() {
                lemma_elements_are_proper(b, r, seq![]);
            }
        } else if b[q] == 0x2d || 0x30 <= b[q] <= 0x39 {
            lemma_number_is_proper(b, q);
        }
    }
}

proof fn lemma_members_are_proper(b: Seq<u8>, p: int, done: Seq<(Seq<char>, Json)>)
    requires
        is_proper(Json::Obj(done)),
    ensures
        json::members(b, p, done) is Ok ==> is_proper(
            Json::Obj(json::members(b, p, done)->Ok_0.0),
        ),
    decreases b.len() - p, 0int,
{
    if let Ok((key, k)) = json::string_at(b, json::skip(b, p)) {
        let colon = json::skip(b, k);
        if json::key_place(done, key) is None && json::byte_at(b, colon, 0x3a) && p <= colon {
            lemma_value_is_proper(b, colon + 1);
            if let Ok((v, r)) = json::value_at(b, colon + 1) {
                let more = done.push((key, v));
                lemma_member_keeps_object_proper(done, key, v);
                let next = json::skip(b, r);
                if json::byte_at(b, next, 0x2c) && p < next {
                    lemma_members_are_proper(b, next + 1, more);
                }
            }
        }
    }
}

proof fn lemma_elements_are_proper(b: Seq<u8>, p: int, done: Seq<Json>)
    requires
        is_proper(Json::Arr(done)),
    ensures
        json::elements(b, p, done) is Ok ==> is_proper(
            Json::Arr(json::elements(b, p, done)->Ok_0.0),
        ),
    decreases b.len() - p, 3int,
{
    lemma_value_is_proper(b, p);
    if let Ok((v, r)) = json::value_at(b, p) {
        let more = done.push(v);
        lemma_item_keeps_array_proper(done, v);
        let next = json::skip(b, r);
        if json::byte_at(b, next, 0x2c) && p < next {
            lemma_elements_are_proper(b, next + 1, more);
        }
    }
}

/// What a text parses to has well-formed numbers and no key twice. So writing it out and
/// parsing it again gives the same value, in either form.
pub proof fn lemma_parsed_values_are_proper(b: Seq<u8>, indent: nat)
    requires
        json::document(b) is Ok,
    ensures
        is_proper(json::document(b)->Ok_0),
        json::document(encode_utf8(json::compact(json::document(b)->Ok_0))) == json::document(b),
        json::document(encode_utf8(json::pretty(json::document(b)->Ok_0, indent)))
            == json::document(b),
{
    lemma_value_is_proper(b, json::skip(b, 0));
    lemma_compact_text_reads_back(json::document(b)->Ok_0);
    lemma_pretty_text_reads_back(json::document(b)->Ok_0, indent);
}

}
