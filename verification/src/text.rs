//! Text primitives: characters, decimal numbers, code point order and UTF-8 positions.

use vstd::prelude::*;
use vstd::string::*;
use vstd::utf8::*;

verus! {

/// `String::push` appends one character.
pub assume_specification[ String::push ](s: &mut String, c: char)
    ensures
        final(s)@ == old(s)@.push(c),
;

/// `char::from_u32` accepts the Unicode scalar values and nothing else.
pub assume_specification[ char::from_u32 ](code: u32) -> (r: Option<char>)
    ensures
        r == if is_scalar(code) {
            Some(code as char)
        } else {
            None
        },
;

/// The characters of `s`, in order.
pub fn chars_of(s: &str) -> (r: Vec<char>)
    ensures
        r@ == s@,
{
    let mut out: Vec<char> = Vec::new();
    for c in it: s.chars()
        invariant
            out@ == it.seq().take(it.index() as int),
            it.seq() == s@,
    {
        out.push(c);
    }
    assert(s@.take(s@.len() as int) =~= s@);
    out
}

/// The text made of the given characters.
pub fn string_of(chars: &[char]) -> (r: String)
    ensures
        r@ == chars@,
{
    let mut out: String = String::new();
    let mut i: usize = 0;
    while i < chars.len()
        invariant
            0 <= i <= chars@.len(),
            out@ == chars@.take(i as int),
        decreases chars@.len() - i,
    {
        out.push(chars[i]);
        i = i + 1;
        assert(chars@.take(i as int) =~= chars@.take(i - 1).push(chars@[i - 1]));
    }
    assert(chars@.take(i as int) =~= chars@);
    out
}

/// Two texts with the same encoding are the same text.
pub proof fn lemma_encoding_is_injective(a: Seq<char>, b: Seq<char>)
    requires
        encode_utf8(a) == encode_utf8(b),
    ensures
        a == b,
{
    encode_utf8_decode_utf8(a);
    encode_utf8_decode_utf8(b);
}

/// Whether two byte strings are equal.
pub fn same_bytes(a: &[u8], b: &[u8]) -> (r: bool)
    ensures
        r == (a@ == b@),
{
    if a.len() != b.len() {
        return false;
    }
    let mut i: usize = 0;
    while i < a.len()
        invariant
            0 <= i <= a@.len(),
            a@.len() == b@.len(),
            forall|k: int| 0 <= k < i ==> a@[k] == b@[k],
        decreases a@.len() - i,
    {
        if a[i] != b[i] {
            return false;
        }
        i = i + 1;
    }
    assert(a@ =~= b@);
    true
}

/// Whether two texts are equal.
pub fn same_text(a: &str, b: &str) -> (r: bool)
    ensures
        r == (a@ == b@),
{
    let r: bool = same_bytes(a.as_bytes(), b.as_bytes());
    proof {
        if r {
            lemma_encoding_is_injective(a@, b@);
        }
    }
    r
}

/// Code point order on texts: the first difference decides, a proper prefix comes first.
pub open spec fn text_before(a: Seq<char>, b: Seq<char>) -> bool
    decreases a.len(),
{
    if b.len() == 0 {
        false
    } else if a.len() == 0 {
        true
    } else if a[0] != b[0] {
        a[0] < b[0]
    } else {
        text_before(a.drop_first(), b.drop_first())
    }
}

/// Code point order is irreflexive, asymmetric, transitive and total.
pub proof fn lemma_text_before_is_total_order(a: Seq<char>, b: Seq<char>, c: Seq<char>)
    ensures
        !text_before(a, a),
        !(text_before(a, b) && text_before(b, a)),
        a != b ==> text_before(a, b) || text_before(b, a),
        text_before(a, b) && text_before(b, c) ==> text_before(a, c),
    decreases a.len() + b.len() + c.len(),
{
    if a.len() > 0 && b.len() > 0 && c.len() > 0 {
        lemma_text_before_is_total_order(a.drop_first(), b.drop_first(), c.drop_first());
    } else if a.len() > 0 && b.len() > 0 {
        lemma_text_before_is_total_order(a.drop_first(), b.drop_first(), c);
    } else if a.len() > 0 {
        lemma_text_before_is_total_order(a.drop_first(), b, c);
    }
    if a.len() > 0 && b.len() > 0 && a[0] == b[0] && a.drop_first() =~= b.drop_first() {
        assert(a =~= seq![a[0]] + a.drop_first());
        assert(b =~= seq![b[0]] + b.drop_first());
    }
    if a.len() == 0 && b.len() == 0 {
        assert(a =~= b);
    }
}

/// Whether `a` comes before `b` in code point order.
pub fn precedes(a: &str, b: &str) -> (r: bool)
    ensures
        r == text_before(a@, b@),
{
    let x: Vec<char> = chars_of(a);
    let y: Vec<char> = chars_of(b);
    let mut i: usize = 0;
    proof {
        assert(a@.skip(0) =~= a@);
        assert(b@.skip(0) =~= b@);
    }
    while i < x.len() && i < y.len()
        invariant
            x@ == a@,
            y@ == b@,
            0 <= i <= x@.len(),
            i <= y@.len(),
            text_before(a@, b@) == text_before(a@.skip(i as int), b@.skip(i as int)),
        decreases x@.len() - i,
    {
        if x[i] != y[i] {
            return x[i] < y[i];
        }
        proof {
            assert(a@.skip(i as int).drop_first() =~= a@.skip(i + 1));
            assert(b@.skip(i as int).drop_first() =~= b@.skip(i + 1));
        }
        i = i + 1;
    }
    i < y.len()
}

/// The decimal digit of a number below ten.
pub open spec fn digit(d: nat) -> char {
    (48 + d) as char
}

/// The decimal notation of `n`.
pub open spec fn dec(n: nat) -> Seq<char>
    decreases n,
{
    if n < 10 {
        seq![digit(n)]
    } else {
        dec(n / 10).push(digit(n % 10))
    }
}

/// The decimal notation of an integer.
pub open spec fn dec_int(n: int) -> Seq<char> {
    if n < 0 {
        seq!['-'] + dec((-n) as nat)
    } else {
        dec(n as nat)
    }
}

/// Appends the decimal notation of `n`.
pub fn push_decimal(out: &mut String, n: u64)
    ensures
        final(out)@ == old(out)@ + dec(n as nat),
    decreases n,
{
    let d: u8 = 48u8 + (n % 10) as u8;
    if n >= 10 {
        push_decimal(out, n / 10);
    }
    let ghost before = out@;
    out.push(d as char);
    proof {
        assert(before.push(digit((n % 10) as nat)) =~= before + seq![digit((n % 10) as nat)]);
        if n >= 10 {
            let p = dec((n / 10) as nat);
            assert(old(out)@ + p.push(digit((n % 10) as nat)) =~= (old(out)@ + p).push(
                digit((n % 10) as nat),
            ));
        }
    }
}

/// The decimal notation of `n`.
pub fn decimal(n: u64) -> (r: String)
    ensures
        r@ == dec(n as nat),
{
    let mut out: String = String::new();
    push_decimal(&mut out, n);
    assert(Seq::<char>::empty() + dec(n as nat) =~= dec(n as nat));
    out
}

/// The decimal notation of a signed number.
pub fn decimal_int(n: i32) -> (r: String)
    ensures
        r@ == dec_int(n as int),
{
    let mut out: String = String::new();
    if n < 0 {
        out.push('-');
        push_decimal(&mut out, (-(n as i64)) as u64);
        assert(out@ =~= seq!['-'] + dec((-n) as nat));
    } else {
        push_decimal(&mut out, n as u64);
        assert(out@ =~= dec(n as nat));
    }
    out
}

/// An ASCII decimal digit.
pub open spec fn is_digit(c: char) -> bool {
    '0' <= c <= '9'
}

/// Only ASCII decimal digits.
pub open spec fn all_digits(s: Seq<char>) -> bool {
    forall|i: int| 0 <= i < s.len() ==> is_digit(#[trigger] s[i])
}

/// The number that a run of decimal digits denotes.
pub open spec fn digits_value(s: Seq<char>) -> nat
    decreases s.len(),
{
    if s.len() == 0 {
        0
    } else {
        digits_value(s.drop_last()) * 10 + (s.last() as u32 - 48) as nat
    }
}

/// A decimal notation reads back as its number.
pub proof fn lemma_dec_reads_back(n: nat)
    ensures
        dec(n).len() > 0,
        all_digits(dec(n)),
        digits_value(dec(n)) == n,
    decreases n,
{
    reveal_with_fuel(digits_value, 2);
    if n >= 10 {
        lemma_dec_reads_back(n / 10);
        assert(dec(n).drop_last() =~= dec(n / 10));
    } else {
        assert(dec(n).drop_last() =~= Seq::<char>::empty());
    }
}

/// A longer run of digits denotes at least as much as its beginning.
pub proof fn lemma_digits_value_grows(s: Seq<char>, i: int)
    requires
        all_digits(s),
        0 <= i <= s.len(),
    ensures
        digits_value(s.take(i)) <= digits_value(s),
    decreases s.len() - i,
{
    if i < s.len() {
        let t = s.drop_last();
        assert(s.take(i) =~= t.take(i));
        lemma_digits_value_grows(t, i);
        assert(is_digit(s.last()));
    } else {
        assert(s.take(i) =~= s);
    }
}

/// The unsigned number that a text denotes: digits, with one `+` allowed in front.
pub open spec fn unsigned_value(s: Seq<char>) -> Option<nat> {
    let d = if s.len() > 0 && s[0] == '+' {
        s.drop_first()
    } else {
        s
    };
    if d.len() > 0 && all_digits(d) {
        Some(digits_value(d))
    } else {
        None
    }
}

/// The number denoted by a run of digits, if it is at most `limit`.
pub fn digits_up_to(chars: &[char], limit: u64) -> (r: Option<u64>)
    requires
        all_digits(chars@),
    ensures
        r == if digits_value(chars@) <= limit {
            Some(digits_value(chars@) as u64)
        } else {
            None
        },
{
    let mut v: u64 = 0;
    let mut i: usize = 0;
    while i < chars.len()
        invariant
            all_digits(chars@),
            0 <= i <= chars@.len(),
            v == digits_value(chars@.take(i as int)),
            v <= limit,
        decreases chars@.len() - i,
    {
        let ghost prefix = chars@.take(i + 1);
        proof {
            assert(is_digit(chars@[i as int]));
            assert(prefix.drop_last() =~= chars@.take(i as int));
            lemma_digits_value_grows(chars@, i + 1);
        }
        let d: u64 = (chars[i] as u32 - 48) as u64;
        if d > limit || v > limit / 10 || v * 10 > limit - d {
            return None;
        }
        v = v * 10 + d;
        i = i + 1;
    }
    assert(chars@.take(i as int) =~= chars@);
    Some(v)
}

/// The number that a text denotes, if it fits 64 bits.
pub fn parse_u64(s: &str) -> (r: Option<u64>)
    ensures
        r == match unsigned_value(s@) {
            Some(n) => if n <= u64::MAX {
                Some(n as u64)
            } else {
                None
            },
            None => None,
        },
{
    let chars: Vec<char> = chars_of(s);
    let from: usize = if chars.len() > 0 && chars[0] == '+' {
        1
    } else {
        0
    };
    let d: &[char] = vstd::slice::slice_subrange(chars.as_slice(), from, chars.len());
    proof {
        if from == 1 {
            assert(d@ =~= s@.drop_first());
        } else {
            assert(d@ =~= s@);
        }
    }
    if d.len() == 0 {
        return None;
    }
    let mut i: usize = 0;
    while i < d.len()
        invariant
            0 <= i <= d@.len(),
            d@ == (if s@.len() > 0 && s@[0] == '+' {
                s@.drop_first()
            } else {
                s@
            }),
            forall|k: int| 0 <= k < i ==> is_digit(#[trigger] d@[k]),
        decreases d@.len() - i,
    {
        if d[i] < '0' || d[i] > '9' {
            assert(!all_digits(d@));
            return None;
        }
        i = i + 1;
    }
    digits_up_to(d, u64::MAX)
}

/// The code points with the Unicode `White_Space` property.
pub open spec fn is_white_space(c: char) -> bool {
    let u = c as u32;
    ||| 0x09 <= u <= 0x0d
    ||| u == 0x20
    ||| u == 0x85
    ||| u == 0xa0
    ||| u == 0x1680
    ||| 0x2000 <= u <= 0x200a
    ||| u == 0x2028
    ||| u == 0x2029
    ||| u == 0x202f
    ||| u == 0x205f
    ||| u == 0x3000
}

/// Nothing but white space.
pub open spec fn is_blank(s: Seq<char>) -> bool {
    forall|i: int| 0 <= i < s.len() ==> is_white_space(#[trigger] s[i])
}

/// Whether a text holds nothing but white space.
pub fn blank(s: &str) -> (r: bool)
    ensures
        r == is_blank(s@),
{
    let chars: Vec<char> = chars_of(s);
    let mut i: usize = 0;
    while i < chars.len()
        invariant
            chars@ == s@,
            0 <= i <= chars@.len(),
            forall|k: int| 0 <= k < i ==> is_white_space(#[trigger] s@[k]),
        decreases chars@.len() - i,
    {
        let u: u32 = chars[i] as u32;
        let white: bool = (0x09 <= u && u <= 0x0d) || u == 0x20 || u == 0x85 || u == 0xa0 || u
            == 0x1680 || (0x2000 <= u && u <= 0x200a) || u == 0x2028 || u == 0x2029 || u == 0x202f
            || u == 0x205f || u == 0x3000;
        if !white {
            assert(!is_white_space(s@[i as int]));
            return false;
        }
        i = i + 1;
    }
    true
}

/// The character whose encoding starts at byte `pos`, if a well-formed one does.
pub open spec fn char_at(bytes: Seq<u8>, pos: int) -> Option<char> {
    let rest = bytes.skip(pos);
    if 0 <= pos < bytes.len() && valid_first_scalar(rest) {
        Some(decode_first_scalar(rest) as char)
    } else {
        None
    }
}

/// The number of bytes that encode `c`.
pub open spec fn width(c: char) -> int {
    encode_scalar(c as u32).len() as int
}

/// A decoded character takes the width that its first byte announces, and lies inside the text.
pub proof fn lemma_char_at_width(bytes: Seq<u8>, pos: int)
    requires
        char_at(bytes, pos) is Some,
    ensures
        width(char_at(bytes, pos)->0) == length_of_first_scalar(bytes.skip(pos)),
        1 <= width(char_at(bytes, pos)->0) <= 4,
        pos + width(char_at(bytes, pos)->0) <= bytes.len(),
        bytes.subrange(pos, pos + width(char_at(bytes, pos)->0)) == encode_scalar(
            char_at(bytes, pos)->0 as u32,
        ),
{
    let rest = bytes.skip(pos);
    let first = take_first_scalar(rest);
    reveal_with_fuel(valid_utf8, 2);
    assert(valid_first_scalar(first));
    assert(pop_first_scalar(first) =~= Seq::<u8>::empty());
    assert(decode_first_scalar(first) == decode_first_scalar(rest));
    decode_utf8_first_scalar(first);
    assert(take_first_scalar(first) =~= first);
    assert(bytes.subrange(pos, pos + first.len()) =~= first);
}

/// Decodes the character at byte `pos`, with its width in bytes.
#[verifier::loop_isolation(false)]
pub fn next_char(bytes: &[u8], pos: usize) -> (r: Option<(char, usize)>)
    requires
        pos < bytes@.len(),
    ensures
        match char_at(bytes@, pos as int) {
            Some(c) => r == Some((c, width(c) as usize)),
            None => r is None,
        },
{
    let ghost rest = bytes@.skip(pos as int);
    let b1: u8 = bytes[pos];
    let left: usize = bytes.len() - pos;
    let w: usize = if b1 < 0x80 {
        1
    } else if 0xc0 <= b1 && b1 <= 0xdf {
        2
    } else if 0xe0 <= b1 && b1 <= 0xef {
        3
    } else if 0xf0 <= b1 && b1 <= 0xf7 {
        4
    } else {
        return None;
    };
    if left < w {
        return None;
    }
    let mut k: usize = 1;
    while k < w
        invariant
            1 <= k <= w,
            pos + w <= bytes@.len(),
            forall|j: int| 1 <= j < k ==> is_continuation_byte(#[trigger] bytes@[pos + j]),
        decreases w - k,
    {
        let b: u8 = bytes[pos + k];
        if b < 0x80 || b > 0xbf {
            proof {
                assert(!is_continuation_byte(rest[k as int]));
            }
            return None;
        }
        k = k + 1;
    }
    proof {
        assert forall|j: int| 1 <= j < w implies is_continuation_byte(#[trigger] rest[j]) by {
            assert(is_continuation_byte(bytes@[pos + j]));
        }
    }
    let code: u32 = if w == 1 {
        (b1 & 0x7F) as u32
    } else if w == 2 {
        (((b1 & 0x1F) as u32) << 6) | ((bytes[pos + 1] & 0x3F) as u32)
    } else if w == 3 {
        (((b1 & 0x0F) as u32) << 12) | (((bytes[pos + 1] & 0x3F) as u32) << 6) | ((bytes[pos + 2]
            & 0x3F) as u32)
    } else {
        (((b1 & 0x07) as u32) << 18) | (((bytes[pos + 1] & 0x3F) as u32) << 12) | (((bytes[pos
            + 2] & 0x3F) as u32) << 6) | ((bytes[pos + 3] & 0x3F) as u32)
    };
    assert(code == decode_first_codepoint(rest));
    if (w == 2 && code < 0x80) || (w == 3 && code < 0x800) || (w == 4 && (code < 0x10000 || code
        > 0x10ffff)) || (0xD800 <= code && code <= 0xDFFF) {
        return None;
    }
    proof {
        assert((b1 & 0x7F) as u32 <= 0x7F) by (bit_vector);
        let b2 = rest[1];
        let b3 = rest[2];
        assert((((b1 & 0x1F) as u32) << 6) | ((b2 & 0x3F) as u32) <= 0x7ff) by (bit_vector);
        assert((((b1 & 0x0F) as u32) << 12) | (((b2 & 0x3F) as u32) << 6) | ((b3 & 0x3F) as u32)
            <= 0xffff) by (bit_vector);
        lemma_char_at_width(bytes@, pos as int);
    }
    match char::from_u32(code) {
        Some(c) => Some((c, w)),
        None => None,
    }
}

/// `start..end` is a byte range of the text that cuts no character.
pub open spec fn is_text_range(s: Seq<char>, start: int, end: int) -> bool {
    &&& 0 <= start <= end <= encode_utf8(s).len()
    &&& is_char_boundary(encode_utf8(s), start)
    &&& is_char_boundary(encode_utf8(s), end)
}

/// The text between two bytes of `s`.
pub open spec fn slice_of(s: Seq<char>, start: int, end: int) -> Seq<char> {
    decode_utf8(encode_utf8(s).subrange(start, end))
}

/// At a character boundary of well-formed text a character can be decoded, and the byte
/// behind it is a boundary again; elsewhere inside the text nothing can be decoded.
pub proof fn lemma_char_at_boundary(b: Seq<u8>, pos: int)
    requires
        valid_utf8(b),
        0 <= pos < b.len(),
    ensures
        char_at(b, pos) is Some <==> is_char_boundary(b, pos),
        char_at(b, pos) is Some ==> {
            &&& 1 <= width(char_at(b, pos)->0) <= 4
            &&& pos + width(char_at(b, pos)->0) <= b.len()
            &&& is_char_boundary(b, pos + width(char_at(b, pos)->0))
        },
{
    let rest = b.skip(pos);
    is_char_boundary_iff_not_is_continuation_byte(b, pos);
    if is_char_boundary(b, pos) {
        valid_utf8_split(b, pos);
        assert(b.subrange(pos, b.len() as int) =~= rest);
    }
    if char_at(b, pos) is Some {
        assert(rest[0] == b[pos]);
        valid_utf8_split(b, pos);
        assert(b.subrange(pos, b.len() as int) =~= rest);
        lemma_char_at_width(b, pos);
        let next = pos + width(char_at(b, pos)->0);
        if next == b.len() {
            is_char_boundary_start_end_of_seq(b);
        } else {
            let tail = pop_first_scalar(rest);
            assert(valid_utf8(rest));
            assert(tail.len() == b.len() - next);
            assert(valid_utf8(tail));
            assert(valid_first_scalar(tail));
            assert(tail[0] == b[next]);
            is_char_boundary_iff_not_is_continuation_byte(b, next);
        }
    }
}

/// A range of text that cuts no character is well-formed text, and the text falls
/// into the parts before it, in it and behind it.
pub proof fn lemma_text_range(s: Seq<char>, start: int, end: int)
    requires
        is_text_range(s, start, end),
    ensures
        valid_utf8(encode_utf8(s).subrange(start, end)),
        is_char_boundary(encode_utf8(s).subrange(0, end), start),
        encode_utf8(slice_of(s, start, end)) == encode_utf8(s).subrange(start, end),
        s == slice_of(s, 0, start) + slice_of(s, start, end) + slice_of(
            s,
            end,
            encode_utf8(s).len() as int,
        ),
        is_text_range(s, 0, start),
        is_text_range(s, end, encode_utf8(s).len() as int),
{
    let b = encode_utf8(s);
    encode_utf8_valid_utf8(s);
    encode_utf8_decode_utf8(s);
    is_char_boundary_start_end_of_seq(b);
    valid_utf8_split(b, end);
    decode_utf8_split(b, end);
    let front = b.subrange(0, end);
    if start == end {
        is_char_boundary_start_end_of_seq(front);
    } else {
        is_char_boundary_iff_not_is_continuation_byte(b, start);
        is_char_boundary_iff_not_is_continuation_byte(front, start);
    }
    valid_utf8_split(front, start);
    decode_utf8_split(front, start);
    assert(front.subrange(0, start) =~= b.subrange(0, start));
    assert(front.subrange(start, front.len() as int) =~= b.subrange(start, end));
    decode_utf8_encode_utf8(b.subrange(start, end));
}

/// The text between two bytes.
pub fn slice_text(s: &str, start: usize, end: usize) -> (r: &str)
    requires
        is_text_range(s@, start as int, end as int),
    ensures
        r@ == slice_of(s@, start as int, end as int),
        encode_utf8(r@) == encode_utf8(s@).subrange(start as int, end as int),
{
    proof {
        lemma_text_range(s@, start as int, end as int);
    }
    let (front, _back) = s.split_at(end);
    let (_before, middle) = front.split_at(start);
    proof {
        assert(middle.spec_bytes() =~= encode_utf8(s@).subrange(start as int, end as int));
        encode_utf8_decode_utf8(middle@);
    }
    middle
}

/// `s` with the bytes from `start` to `end` replaced by `with`.
pub open spec fn replaced(s: Seq<char>, start: int, end: int, with: Seq<char>) -> Seq<char> {
    slice_of(s, 0, start) + with + slice_of(s, end, encode_utf8(s).len() as int)
}

/// Replaces the bytes from `start` to `end`.
pub fn replace_range(s: &str, start: usize, end: usize, with: &str) -> (r: String)
    requires
        is_text_range(s@, start as int, end as int),
    ensures
        r@ == replaced(s@, start as int, end as int, with@),
{
    proof {
        lemma_text_range(s@, start as int, end as int);
    }
    let len: usize = s.as_bytes().len();
    let mut out: String = slice_text(s, 0, start).to_string();
    out.append(with);
    out.append(slice_text(s, end, len));
    out
}

/// The encoding of two texts one behind the other.
pub proof fn lemma_encode_concat(a: Seq<char>, b: Seq<char>)
    ensures
        encode_utf8(a + b) == encode_utf8(a) + encode_utf8(b),
    decreases a.len(),
{
    if a.len() == 0 {
        assert(a + b =~= b);
        assert(encode_utf8(a) + encode_utf8(b) =~= encode_utf8(b));
    } else {
        assert((a + b).drop_first() =~= a.drop_first() + b);
        lemma_encode_concat(a.drop_first(), b);
        assert(encode_utf8(a + b) =~= encode_utf8(a) + encode_utf8(b));
    }
}

/// The encoding of one character.
pub proof fn lemma_encode_one(c: char)
    ensures
        encode_utf8(seq![c]) == encode_scalar(c as u32),
{
    reveal_with_fuel(encode_utf8, 2);
    assert(seq![c].drop_first() =~= Seq::empty());
    assert(encode_utf8(seq![c]) =~= encode_scalar(c as u32));
}

/// The encoding of ASCII text is the bytes of its characters.
pub proof fn lemma_encode_ascii(s: Seq<char>, b: Seq<u8>)
    requires
        s.len() == b.len(),
        forall|i: int| 0 <= i < s.len() ==> (#[trigger] b[i]) < 0x80 && s[i] == b[i] as char,
    ensures
        encode_utf8(s) == b,
{
    assert forall|i: int| 0 <= i < s.len() implies '\0' <= #[trigger] s[i] <= '\u{7f}' by {
        assert(b[i] < 0x80);
    }
    assert(is_ascii_chars(s));
    is_ascii_chars_encode_utf8(s);
    assert forall|i: int| 0 <= i < s.len() implies encode_utf8(s)[i] == b[i] by {
        assert(b[i] < 0x80);
        assert(s[i] as u8 == encode_utf8(s)[i]);
    }
    assert(encode_utf8(s) =~= b);
}

/// A character that stands encoded behind `front` can be decoded there.
pub proof fn lemma_char_at_encoded(front: Seq<u8>, c: char, back: Seq<u8>)
    ensures
        char_at(front + encode_scalar(c as u32) + back, front.len() as int) == Some(c),
        1 <= width(c) <= 4,
{
    let e = encode_scalar(c as u32);
    let b = front + e + back;
    lemma_encode_one(c);
    encode_utf8_first_scalar(seq![c]);
    char_u32_cast(c, c as u32);
    let rest = b.skip(front.len() as int);
    assert(rest =~= e + back);
    assert(forall|i: int| 0 <= i < e.len() ==> rest[i] == e[i]);
}

/// A place inside the first part of a text is a character boundary of the whole exactly if
/// it is one of the part.
proof fn lemma_boundary_in_front(a: Seq<char>, r: Seq<char>, p: int)
    requires
        0 <= p <= encode_utf8(a).len(),
    ensures
        is_char_boundary(encode_utf8(a + r), p) == is_char_boundary(encode_utf8(a), p),
{
    let e = encode_utf8(a);
    let whole = encode_utf8(a + r);
    lemma_encode_concat(a, r);
    encode_utf8_valid_utf8(a);
    encode_utf8_valid_utf8(r);
    encode_utf8_valid_utf8(a + r);
    is_char_boundary_start_end_of_seq(e);
    is_char_boundary_start_end_of_seq(whole);
    if p < e.len() {
        is_char_boundary_iff_not_is_continuation_byte(e, p);
        is_char_boundary_iff_not_is_continuation_byte(whole, p);
        assert(whole[p] == e[p]);
    } else if p < whole.len() {
        let back = encode_utf8(r);
        is_char_boundary_start_end_of_seq(back);
        is_char_boundary_iff_not_is_continuation_byte(back, 0);
        is_char_boundary_iff_not_is_continuation_byte(whole, p);
        assert(whole[p] == back[0]);
    }
}

/// Replacing what stands behind byte `m` changes nothing before it.
pub proof fn lemma_slices_of_front(s: Seq<char>, m: int, r: Seq<char>, a: int, b: int)
    requires
        is_text_range(s, 0, m),
        is_text_range(s, a, b),
        b <= m,
    ensures
        ({
            let t = slice_of(s, 0, m) + r;
            &&& is_text_range(t, a, b)
            &&& is_text_range(t, 0, a)
            &&& slice_of(t, a, b) == slice_of(s, a, b)
            &&& slice_of(t, 0, a) == slice_of(s, 0, a)
            &&& slice_of(t, b, encode_utf8(t).len() as int) == slice_of(s, b, m) + r
        }),
{
    let front = slice_of(s, 0, m);
    let t = front + r;
    let es = encode_utf8(s);
    let et = encode_utf8(t);
    lemma_text_range(s, 0, m);
    lemma_text_range(s, a, b);
    lemma_encode_concat(front, r);
    encode_utf8_valid_utf8(s);
    assert(encode_utf8(front) == es.subrange(0, m));
    lemma_boundary_of_prefix(s, m, a);
    lemma_boundary_of_prefix(s, m, b);
    lemma_boundary_in_front(front, r, a);
    lemma_boundary_in_front(front, r, b);
    assert(et.subrange(a, b) =~= es.subrange(a, b));
    assert(et.subrange(0, a) =~= es.subrange(0, a));
    is_char_boundary_start_end_of_seq(es);
    encode_utf8_valid_utf8(t);
    is_char_boundary_start_end_of_seq(et);
    lemma_text_range(s, b, m);
    lemma_encode_concat(slice_of(s, b, m), r);
    assert(et.subrange(b, et.len() as int) =~= es.subrange(b, m) + encode_utf8(r));
    encode_utf8_decode_utf8(slice_of(s, b, m) + r);
}

/// A boundary of the text is a boundary of a beginning of it.
proof fn lemma_boundary_of_prefix(s: Seq<char>, m: int, p: int)
    requires
        is_text_range(s, 0, m),
        0 <= p <= m,
        is_char_boundary(encode_utf8(s), p),
    ensures
        is_char_boundary(encode_utf8(slice_of(s, 0, m)), p),
{
    let es = encode_utf8(s);
    let e = encode_utf8(slice_of(s, 0, m));
    lemma_text_range(s, 0, m);
    encode_utf8_valid_utf8(s);
    encode_utf8_valid_utf8(slice_of(s, 0, m));
    assert(e == es.subrange(0, m));
    is_char_boundary_start_end_of_seq(e);
    if p < m {
        is_char_boundary_iff_not_is_continuation_byte(es, p);
        is_char_boundary_iff_not_is_continuation_byte(e, p);
    }
}

/// ASCII bytes as text.
pub open spec fn ascii(b: Seq<u8>) -> Seq<char> {
    Seq::new(b.len(), |i: int| b[i] as char)
}

/// ASCII bytes as a string.
pub fn ascii_string(b: &[u8]) -> (r: String)
    ensures
        r@ == ascii(b@),
{
    let mut out: String = String::new();
    let mut i: usize = 0;
    while i < b.len()
        invariant
            0 <= i <= b@.len(),
            out@ == ascii(b@.take(i as int)),
        decreases b@.len() - i,
    {
        out.push(b[i] as char);
        i = i + 1;
        assert(ascii(b@.take(i as int)) =~= ascii(b@.take(i - 1)).push(b@[i - 1] as char));
    }
    assert(b@.take(i as int) =~= b@);
    out
}

/// Where two texts meet, no character is cut.
pub proof fn lemma_join_is_boundary(a: Seq<char>, b: Seq<char>)
    ensures
        is_char_boundary(encode_utf8(a + b), encode_utf8(a).len() as int),
{
    let e = encode_utf8(a + b);
    let p = encode_utf8(a).len() as int;
    encode_utf8_valid_utf8(a + b);
    lemma_encode_concat(a, b);
    is_char_boundary_start_end_of_seq(e);
    if b.len() > 0 {
        let one = encode_scalar(b[0] as u32);
        let rest = encode_utf8(b.drop_first());
        assert(encode_utf8(b) == one + rest);
        assert(e =~= encode_utf8(a) + one + rest);
        lemma_char_at_encoded(encode_utf8(a), b[0], rest);
        lemma_char_at_boundary(e, p);
    } else {
        assert(a + b =~= a);
    }
}

}
