//! What JSON texts mean: a grammar of documents, how each of them is written, with all the choices
//! that a writer has, and the value that it stands for. The law says that reading gives the value.

use crate::json;
use crate::json::Json;
use crate::text;
use vstd::prelude::*;
use vstd::utf8::*;

verus! {

broadcast use vstd::seq::group_seq_axioms;

/// A character of a string: as it is, as a one-letter escape, as a `\u` escape with digits in
/// lower or upper case, or as one or two `\u` escapes with any digits.
pub enum Letter {
    Plain(char),
    Short(char),
    Code { c: char, upper: bool },
    Escape { digits: Seq<u8> },
    Pair { high: Seq<u8>, low: Seq<u8> },
}

/// An exponent: its letter, its sign, if it has one, and its digits.
pub struct Exponent {
    pub upper: bool,
    pub sign: Option<bool>,
    pub digits: Seq<u8>,
}

/// A number: whether it has a minus sign, its digits before the point and behind it, and its
/// exponent.
pub struct Number {
    pub minus: bool,
    pub whole: Seq<u8>,
    pub part: Option<Seq<u8>>,
    pub exponent: Option<Exponent>,
}

/// An item of an array with the white space before and behind it.
pub struct Item {
    pub before: Seq<u8>,
    pub value: Doc,
    pub after: Seq<u8>,
}

/// A member of an object with the white space before the key, behind the key, before the value and
/// behind it.
pub struct Member {
    pub before: Seq<u8>,
    pub key: Seq<Letter>,
    pub middle: Seq<u8>,
    pub between: Seq<u8>,
    pub value: Doc,
    pub after: Seq<u8>,
}

/// A JSON value as it is written. A container that holds nothing may hold white space.
pub enum Doc {
    Null,
    True,
    False,
    Num(Number),
    Str(Seq<Letter>),
    Arr { blank: Seq<u8>, items: Seq<Item> },
    Obj { blank: Seq<u8>, members: Seq<Member> },
}

/// Blanks, tabulators, line feeds and carriage returns.
pub open spec fn is_white(w: Seq<u8>) -> bool {
    forall|i: int|
        0 <= i < w.len() ==> {
            ||| #[trigger] w[i] == 32
            ||| w[i] == 9
            ||| w[i] == 10
            ||| w[i] == 13
        }
}

/// The digits from `0` to `9`.
pub open spec fn are_digits(d: Seq<u8>) -> bool {
    forall|i: int| 0 <= i < d.len() ==> 48 <= #[trigger] d[i] <= 57
}

/// The hexadecimal digit of a number below sixteen.
pub open spec fn hex_byte(d: int, upper: bool) -> u8 {
    if d < 10 {
        (48 + d) as u8
    } else if upper {
        (55 + d) as u8
    } else {
        (87 + d) as u8
    }
}

/// A backslash, a `u` and the four hexadecimal digits of a number.
pub open spec fn write_code(n: int, upper: bool) -> Seq<u8> {
    seq![
        92u8,
        117u8,
        hex_byte(n / 4096, upper),
        hex_byte(n / 256 % 16, upper),
        hex_byte(n / 16 % 16, upper),
        hex_byte(n % 16, upper),
    ]
}

/// The value of a hexadecimal digit in either case; minus one for any other byte.
pub open spec fn code_digit(x: u8) -> int {
    if 48 <= x <= 57 {
        x - 48
    } else if 97 <= x <= 102 {
        x - 87
    } else if 65 <= x <= 70 {
        x - 55
    } else {
        -1
    }
}

/// Four hexadecimal digits; a plus sign may stand in place of the first.
pub open spec fn is_code(d: Seq<u8>) -> bool {
    &&& d.len() == 4
    &&& d[0] == 43 || code_digit(d[0]) >= 0
    &&& code_digit(d[1]) >= 0
    &&& code_digit(d[2]) >= 0
    &&& code_digit(d[3]) >= 0
}

/// The number that four hexadecimal digits stand for.
pub open spec fn code_of(d: Seq<u8>) -> int {
    (if d[0] == 43 {
        0
    } else {
        code_digit(d[0]) * 4096
    }) + code_digit(d[1]) * 256 + code_digit(d[2]) * 16 + code_digit(d[3])
}

/// The letter of the one-letter escape for a character, if there is one.
pub open spec fn short_letter(c: char) -> Option<u8> {
    if c == '"' {
        Some(34u8)
    } else if c == '\\' {
        Some(92u8)
    } else if c == '/' {
        Some(47u8)
    } else if c == '\u{8}' {
        Some(98u8)
    } else if c == '\u{c}' {
        Some(102u8)
    } else if c == '\n' {
        Some(110u8)
    } else if c == '\r' {
        Some(114u8)
    } else if c == '\t' {
        Some(116u8)
    } else {
        None
    }
}

/// The character that a letter stands for.
pub open spec fn letter_char(l: Letter) -> char {
    match l {
        Letter::Plain(c) => c,
        Letter::Short(c) => c,
        Letter::Code { c, .. } => c,
        Letter::Escape { digits } => code_of(digits) as char,
        Letter::Pair { high, low } => (0x10000 + (code_of(high) - 0xd800) * 0x400 + (code_of(low)
            - 0xdc00)) as char,
    }
}

/// How a letter is written; a character beyond the first 65536 is a pair of escapes.
pub open spec fn write_letter(l: Letter) -> Seq<u8> {
    match l {
        Letter::Plain(c) => encode_scalar(c as u32),
        Letter::Short(c) => seq![92u8, short_letter(c)->0],
        Letter::Code { c, upper } => if (c as int) < 0x10000 {
            write_code(c as int, upper)
        } else {
            write_code(0xd800 + (c as int - 0x10000) / 0x400, upper) + write_code(
                0xdc00 + (c as int - 0x10000) % 0x400,
                upper,
            )
        },
        Letter::Escape { digits } => seq![92u8, 117u8] + digits,
        Letter::Pair { high, low } => seq![92u8, 117u8] + high + (seq![92u8, 117u8] + low),
    }
}

/// The letter can be written: a quotation mark or a backslash only as an escape, a surrogate only
/// as the first of a pair with its other half.
pub open spec fn is_letter(l: Letter) -> bool {
    match l {
        Letter::Plain(c) => c != '"' && c != '\\',
        Letter::Short(c) => short_letter(c) is Some,
        Letter::Code { .. } => true,
        Letter::Escape { digits } => is_code(digits) && !(0xd800 <= code_of(digits) <= 0xdfff),
        Letter::Pair { high, low } => is_code(high) && is_code(low) && 0xd800 <= code_of(high)
            <= 0xdbff && 0xdc00 <= code_of(low) <= 0xdfff,
    }
}

/// How letters from the `k`-th on are written.
pub open spec fn write_letters(s: Seq<Letter>, k: int) -> Seq<u8>
    decreases s.len() - k,
{
    if 0 <= k < s.len() {
        write_letter(s[k]) + write_letters(s, k + 1)
    } else {
        seq![]
    }
}

/// The text that letters stand for.
pub open spec fn letters(s: Seq<Letter>) -> Seq<char> {
    Seq::new(s.len(), |i: int| letter_char(s[i]))
}

/// All letters can be written.
pub open spec fn are_letters(s: Seq<Letter>) -> bool {
    forall|i: int| 0 <= i < s.len() ==> is_letter(#[trigger] s[i])
}

/// A string in quotation marks.
pub open spec fn write_string(s: Seq<Letter>) -> Seq<u8> {
    seq![34u8] + (write_letters(s, 0) + seq![34u8])
}

/// The text `w` stands in `b` from position `p` on.
spec fn stands(b: Seq<u8>, p: int, w: Seq<u8>) -> bool {
    &&& 0 <= p
    &&& p + w.len() <= b.len()
    &&& b.subrange(p, (p + w.len()) as int) == w
}

proof fn lemma_stands(b: Seq<u8>, p: int, w: Seq<u8>, k: int)
    requires
        stands(b, p, w),
        0 <= k < w.len(),
    ensures
        b[p + k] == w[k],
{
    assert(b.subrange(p, (p + w.len()) as int)[k] == w[k]);
}

proof fn lemma_stands_split(b: Seq<u8>, p: int, x: Seq<u8>, y: Seq<u8>)
    requires
        stands(b, p, x + y),
    ensures
        stands(b, p, x),
        stands(b, (p + x.len()) as int, y),
{
    let q = (p + x.len()) as int;
    let w = b.subrange(p, (p + (x + y).len()) as int);
    assert(b.subrange(p, q) =~= w.take(x.len() as int));
    assert((x + y).take(x.len() as int) =~= x);
    assert(b.subrange(q, (q + y.len()) as int) =~= w.skip(x.len() as int));
    assert((x + y).skip(x.len() as int) =~= y);
}

spec fn ok<T>(t: T, q: int) -> Result<(T, int), Seq<char>> {
    Ok((t, q))
}

proof fn lemma_hex_byte(d: int, upper: bool)
    requires
        0 <= d < 16,
    ensures
        json::hex_value(hex_byte(d, upper)) == Some(d as u32),
        hex_byte(d, upper) != 43,
{
}

proof fn lemma_four_hex_digits(x: int, y: int, z: int, w: int, n: int)
    requires
        0 <= n < 65536,
        x == n / 4096,
        y == n / 256 % 16,
        z == n / 16 % 16,
        w == n % 16,
    ensures
        0 <= x < 16,
        ((x * 16 + y) * 16 + z) * 16 + w == n,
{
    let a = n / 16;
    let b = a / 16;
    assert(n / 256 == b && n / 4096 == b / 16);
    assert(b == x * 16 + y);
    assert(a == b * 16 + z);
}

proof fn lemma_code(n: int, upper: bool, b: Seq<u8>, p: int)
    requires
        0 <= n < 65536,
        stands(b, p, write_code(n, upper)),
    ensures
        b[p] == 92,
        b[p + 1] == 117,
        json::four_digits(b, p + 2) == Some(n),
{
    let w = write_code(n, upper);
    lemma_stands(b, p, w, 0);
    lemma_stands(b, p, w, 1);
    lemma_stands(b, p, w, 2);
    lemma_stands(b, p, w, 3);
    lemma_stands(b, p, w, 4);
    lemma_stands(b, p, w, 5);
    let x = n / 4096;
    let y = n / 256 % 16;
    let z = n / 16 % 16;
    let v = n % 16;
    lemma_four_hex_digits(x, y, z, v, n);
    lemma_hex_byte(x, upper);
    lemma_hex_byte(y, upper);
    lemma_hex_byte(z, upper);
    lemma_hex_byte(v, upper);
    assert(json::hex_number(b, p + 2, p + 2) == Some(0int));
    assert(json::hex_number(b, p + 2, p + 3) == Some(x));
    assert(json::hex_number(b, p + 2, p + 4) == Some(x * 16 + y));
    assert(json::hex_number(b, p + 2, p + 5) == Some((x * 16 + y) * 16 + z));
    assert(json::hex_number(b, p + 2, p + 6) == Some(((x * 16 + y) * 16 + z) * 16 + v));
}

/// Four bytes are read as the number that they stand for, if they are hexadecimal digits.
pub proof fn lemma_codes_are_read(b: Seq<u8>, p: int)
    requires
        0 <= p,
        p + 4 <= b.len(),
    ensures
        json::four_digits(b, p) is Some <==> is_code(b.subrange(p, p + 4)),
        json::four_digits(b, p) matches Some(n) ==> n == code_of(b.subrange(p, p + 4)) && 0 <= n
            < 0x10000,
{
    let d = b.subrange(p, p + 4);
    assert(d[0] == b[p] && d[1] == b[p + 1] && d[2] == b[p + 2] && d[3] == b[p + 3]);
    let s = if b[p] == 43 {
        p + 1
    } else {
        p
    };
    assert(json::hex_number(b, s, s) == Some(0int));
    if s == p {
        assert(json::hex_number(b, s, p + 1) is Some <==> code_digit(d[0]) >= 0);
        assert(json::hex_number(b, s, p + 1) matches Some(n) ==> n == code_digit(d[0]));
    }
    assert(json::hex_number(b, s, p + 2) is Some <==> json::hex_number(b, s, p + 1) is Some
        && code_digit(d[1]) >= 0);
    assert(json::hex_number(b, s, p + 3) is Some <==> json::hex_number(b, s, p + 2) is Some
        && code_digit(d[2]) >= 0);
    assert(json::hex_number(b, s, p + 4) is Some <==> json::hex_number(b, s, p + 3) is Some
        && code_digit(d[3]) >= 0);
}

proof fn lemma_plain_letter(c: char, b: Seq<u8>, p: int)
    requires
        c != '"',
        c != '\\',
        stands(b, p, encode_scalar(c as u32)),
    ensures
        json::string_char(b, p) == ok(c, p + encode_scalar(c as u32).len()),
        b[p] != 34,
        encode_scalar(c as u32).len() > 0,
{
    let w = encode_scalar(c as u32);
    let front = b.take(p);
    let back = b.skip((p + w.len()) as int);
    assert(b =~= front + w + back);
    text::lemma_char_at_encoded(front, c, back);
    text::lemma_char_at_width(b, p);
    assert(text::char_at(b, p) == Some(c));
    if b[p] < 0x80 {
        let d = b[p] as char;
        assert(encode_scalar(d as u32) =~= seq![b[p]]) by {
            text::lemma_encode_one(d);
            text::lemma_encode_ascii(seq![d], seq![b[p]]);
        }
        let rest = b.skip(p + 1);
        assert(b =~= front + encode_scalar(d as u32) + rest);
        text::lemma_char_at_encoded(front, d, rest);
        assert(c == d);
    }
}

proof fn lemma_letter(l: Letter, b: Seq<u8>, p: int)
    requires
        is_letter(l),
        stands(b, p, write_letter(l)),
    ensures
        json::string_char(b, p) == ok(letter_char(l), (p + write_letter(l).len()) as int),
        b[p] != 34,
        write_letter(l).len() > 0,
{
    match l {
        Letter::Plain(c) => {
            lemma_plain_letter(c, b, p);
        },
        Letter::Short(c) => {
            lemma_stands(b, p, write_letter(l), 0);
            lemma_stands(b, p, write_letter(l), 1);
        },
        Letter::Code { c, upper } => {
            let n = c as int;
            if n < 0x10000 {
                lemma_code(n, upper, b, p);
            } else {
                let hi = 0xd800 + (n - 0x10000) / 0x400;
                let lo = 0xdc00 + (n - 0x10000) % 0x400;
                let x = write_code(hi, upper);
                let y = write_code(lo, upper);
                lemma_stands_split(b, p, x, y);
                lemma_code(hi, upper, b, p);
                lemma_code(lo, upper, b, p + 6);
                assert(0x10000 + (hi - 0xd800) * 0x400 + (lo - 0xdc00) == n);
            }
        },
        Letter::Escape { digits } => {
            let mark = seq![92u8, 117u8];
            lemma_stands_split(b, p, mark, digits);
            lemma_stands(b, p, mark, 0);
            lemma_stands(b, p, mark, 1);
            lemma_codes_are_read(b, p + 2);
        },
        Letter::Pair { high, low } => {
            let mark = seq![92u8, 117u8];
            lemma_stands_split(b, p, mark + high, mark + low);
            lemma_stands_split(b, p, mark, high);
            lemma_stands_split(b, p + 6, mark, low);
            lemma_stands(b, p, mark, 0);
            lemma_stands(b, p, mark, 1);
            lemma_stands(b, p + 6, mark, 0);
            lemma_stands(b, p + 6, mark, 1);
            lemma_codes_are_read(b, p + 2);
            lemma_codes_are_read(b, p + 8);
        },
    }
}

proof fn lemma_letters(s: Seq<Letter>, k: int, b: Seq<u8>, p: int, done: Seq<char>)
    requires
        0 <= k <= s.len(),
        are_letters(s),
        stands(b, p, write_letters(s, k) + seq![34u8]),
    ensures
        json::string_rest(b, p, done) == ok(
            done + letters(s).skip(k),
            (p + write_letters(s, k).len() + 1) as int,
        ),
    decreases s.len() - k,
{
    let end = seq![34u8];
    if k < s.len() {
        let w = write_letter(s[k]);
        let rest = write_letters(s, k + 1) + end;
        assert(write_letters(s, k) + end =~= w + rest);
        lemma_stands_split(b, p, w, rest);
        assert(is_letter(s[k]));
        lemma_letter(s[k], b, p);
        let q = (p + w.len()) as int;
        let c = letter_char(s[k]);
        lemma_letters(s, k + 1, b, q, done.push(c));
        assert(done.push(c) + letters(s).skip(k + 1) =~= done + letters(s).skip(k));
    } else {
        assert(write_letters(s, k) + end =~= end);
        lemma_stands(b, p, end, 0);
        assert(done + letters(s).skip(k) =~= done);
    }
}

proof fn lemma_string(s: Seq<Letter>, b: Seq<u8>, p: int)
    requires
        are_letters(s),
        stands(b, p, write_string(s)),
    ensures
        json::string_at(b, p) == ok(letters(s), (p + write_string(s).len()) as int),
        b[p] == 34,
{
    let none: Seq<char> = seq![];
    lemma_stands_split(b, p, seq![34u8], write_letters(s, 0) + seq![34u8]);
    lemma_stands(b, p, seq![34u8], 0);
    lemma_letters(s, 0, b, p + 1, none);
    assert(none + letters(s).skip(0) =~= letters(s));
}

/// A string is read as the characters that were written, whichever way each of them was written:
/// as it is, as a one-letter escape, or as one or two escapes with hexadecimal digits.
pub proof fn lemma_strings_are_read(front: Seq<u8>, s: Seq<Letter>, back: Seq<u8>)
    requires
        are_letters(s),
    ensures
        json::string_at(front + write_string(s) + back, front.len() as int) matches Ok((t, end))
            && t == letters(s) && end == front.len() + write_string(s).len(),
{
    let b = front + write_string(s) + back;
    let p = front.len() as int;
    assert(b.subrange(p, (p + write_string(s).len()) as int) =~= write_string(s));
    lemma_string(s, b, p);
}

/// How an exponent is written.
pub open spec fn write_exponent(e: Exponent) -> Seq<u8> {
    seq![
        if e.upper {
            69u8
        } else {
            101u8
        },
    ] + (match e.sign {
        Some(minus) => seq![
            if minus {
                45u8
            } else {
                43u8
            },
        ],
        None => seq![],
    } + e.digits)
}

/// How a number is written.
pub open spec fn write_number(n: Number) -> Seq<u8> {
    (if n.minus {
        seq![45u8]
    } else {
        seq![]
    }) + (n.whole + (match n.part {
        Some(d) => seq![46u8] + d,
        None => seq![],
    } + match n.exponent {
        Some(e) => write_exponent(e),
        None => seq![],
    }))
}

/// The number has a digit before or behind its point, starts with a sign or a digit, and has a
/// digit in its exponent, if it has one.
pub open spec fn is_writable_number(n: Number) -> bool {
    &&& are_digits(n.whole)
    &&& n.minus || n.whole.len() > 0
    &&& n.part matches Some(d) ==> are_digits(d)
    &&& n.whole.len() > 0 || (n.part matches Some(d) && d.len() > 0)
    &&& n.exponent matches Some(e) ==> are_digits(e.digits) && e.digits.len() > 0
}

/// How a document is written.
pub open spec fn write(d: Doc) -> Seq<u8>
    decreases d, 0int, 0int,
{
    match d {
        Doc::Null => seq![110u8, 117, 108, 108],
        Doc::True => seq![116u8, 114, 117, 101],
        Doc::False => seq![102u8, 97, 108, 115, 101],
        Doc::Num(n) => write_number(n),
        Doc::Str(s) => write_string(s),
        Doc::Arr { blank, items } => seq![91u8] + if items.len() == 0 {
            blank + seq![93u8]
        } else {
            write_items(items, 0)
        },
        Doc::Obj { blank, members } => seq![123u8] + if members.len() == 0 {
            blank + seq![125u8]
        } else {
            write_members(members, 0)
        },
    }
}

/// How the items from the `k`-th on are written: a comma stands between two of them, and a bracket
/// behind the last one.
pub open spec fn write_items(items: Seq<Item>, k: int) -> Seq<u8>
    decreases items, 0int, items.len() - k,
{
    if 0 <= k < items.len() {
        items[k].before + (write(items[k].value) + (items[k].after + (if k + 1 < items.len() {
            seq![44u8]
        } else {
            seq![93u8]
        } + write_items(items, k + 1))))
    } else {
        seq![]
    }
}

/// How the members from the `k`-th on are written: a colon stands between key and value, a comma
/// between two members, and a brace behind the last one.
pub open spec fn write_members(members: Seq<Member>, k: int) -> Seq<u8>
    decreases members, 0int, members.len() - k,
{
    if 0 <= k < members.len() {
        members[k].before + (write_string(members[k].key) + (members[k].middle + (seq![58u8] + (
        members[k].between + (write(members[k].value) + (members[k].after + (if k + 1
            < members.len() {
            seq![44u8]
        } else {
            seq![125u8]
        } + write_members(members, k + 1))))))))
    } else {
        seq![]
    }
}

/// The document can be written: white space is white space, numbers are numbers, strings can be
/// written, and no object has a key twice.
pub open spec fn is_writable(d: Doc) -> bool
    decreases d, 0int, 0int,
{
    match d {
        Doc::Num(n) => is_writable_number(n),
        Doc::Str(s) => are_letters(s),
        Doc::Arr { blank, items } => is_white(blank) && are_writable_items(items),
        Doc::Obj { blank, members } => is_white(blank) && are_writable_members(members),
        _ => true,
    }
}

/// All items can be written.
pub open spec fn are_writable_items(items: Seq<Item>) -> bool
    decreases items, 0int, 0int,
{
    forall|i: int|
        0 <= i < items.len() ==> is_white((#[trigger] items[i]).before) && is_white(items[i].after)
            && is_writable(items[i].value)
}

/// All members can be written, and their keys differ.
pub open spec fn are_writable_members(members: Seq<Member>) -> bool
    decreases members, 0int, 0int,
{
    &&& forall|i: int|
        0 <= i < members.len() ==> is_white((#[trigger] members[i]).before) && is_white(
            members[i].middle,
        ) && is_white(members[i].between) && is_white(members[i].after) && are_letters(
            members[i].key,
        ) && is_writable(members[i].value)
    &&& forall|i: int, j: int|
        0 <= i < j < members.len() ==> letters((#[trigger] members[i]).key) != letters(
            (#[trigger] members[j]).key,
        )
}

/// The value that a document stands for.
pub open spec fn meaning(d: Doc) -> Json
    decreases d, 0int, 0int,
{
    match d {
        Doc::Null => Json::Null,
        Doc::True => Json::Bool(true),
        Doc::False => Json::Bool(false),
        Doc::Num(n) => Json::Num(text::ascii(write_number(n))),
        Doc::Str(s) => Json::Str(letters(s)),
        Doc::Arr { items, .. } => Json::Arr(item_meanings(items)),
        Doc::Obj { members, .. } => Json::Obj(member_meanings(members)),
    }
}

/// The values that items stand for.
pub open spec fn item_meanings(items: Seq<Item>) -> Seq<Json>
    decreases items, 0int, 0int,
{
    Seq::new(
        items.len(),
        |i: int|
            if 0 <= i < items.len() {
                meaning(items[i].value)
            } else {
                arbitrary()
            },
    )
}

/// The keys and values that members stand for.
pub open spec fn member_meanings(members: Seq<Member>) -> Seq<(Seq<char>, Json)>
    decreases members, 0int, 0int,
{
    Seq::new(
        members.len(),
        |i: int|
            if 0 <= i < members.len() {
                (letters(members[i].key), meaning(members[i].value))
            } else {
                arbitrary()
            },
    )
}

/// No white space stands at the position.
spec fn no_space_at(b: Seq<u8>, p: int) -> bool {
    p == b.len() || (0 <= p < b.len() && !json::is_space(b[p]))
}

proof fn lemma_skip(b: Seq<u8>, p: int, w: Seq<u8>)
    requires
        is_white(w),
        stands(b, p, w),
        no_space_at(b, (p + w.len()) as int),
    ensures
        json::skip(b, p) == p + w.len(),
    decreases w.len(),
{
    if w.len() > 0 {
        lemma_stands(b, p, w, 0);
        let rest = w.drop_first();
        assert(w =~= seq![w[0]] + rest);
        lemma_stands_split(b, p, seq![w[0]], rest);
        assert(is_white(rest)) by {
            assert forall|i: int| 0 <= i < rest.len() implies {
                ||| #[trigger] rest[i] == 32
                ||| rest[i] == 9
                ||| rest[i] == 10
                ||| rest[i] == 13
            } by {
                assert(rest[i] == w[i + 1]);
            }
        }
        lemma_skip(b, p + 1, rest);
    }
}

proof fn lemma_digits(b: Seq<u8>, p: int, d: Seq<u8>)
    requires
        are_digits(d),
        stands(b, p, d),
        p + d.len() == b.len() || !(48 <= b[(p + d.len()) as int] <= 57),
    ensures
        json::digits_end(b, p) == p + d.len(),
    decreases d.len(),
{
    if d.len() > 0 {
        lemma_stands(b, p, d, 0);
        let rest = d.drop_first();
        assert(d =~= seq![d[0]] + rest);
        lemma_stands_split(b, p, seq![d[0]], rest);
        assert(are_digits(rest)) by {
            assert forall|i: int| 0 <= i < rest.len() implies 48 <= #[trigger] rest[i] <= 57 by {
                assert(rest[i] == d[i + 1]);
            }
        }
        lemma_digits(b, p + 1, rest);
    }
}

proof fn lemma_number_bytes(b: Seq<u8>, p: int, w: Seq<u8>)
    requires
        forall|i: int| 0 <= i < w.len() ==> json::is_number_byte(#[trigger] w[i]),
        stands(b, p, w),
        p + w.len() == b.len() || !json::is_number_byte(b[(p + w.len()) as int]),
    ensures
        json::number_end(b, p) == p + w.len(),
    decreases w.len(),
{
    if w.len() > 0 {
        lemma_stands(b, p, w, 0);
        let rest = w.drop_first();
        assert(w =~= seq![w[0]] + rest);
        lemma_stands_split(b, p, seq![w[0]], rest);
        assert forall|i: int| 0 <= i < rest.len() implies json::is_number_byte(
            #[trigger] rest[i],
        ) by {
            assert(rest[i] == w[i + 1]);
        }
        lemma_number_bytes(b, p + 1, rest);
    }
}

proof fn lemma_exponent(e: Exponent, w: Seq<u8>, p: int)
    requires
        are_digits(e.digits),
        e.digits.len() > 0,
        stands(w, p, write_exponent(e)),
        p + write_exponent(e).len() == w.len(),
    ensures
        json::is_exponent(w, p),
        w[p] == 69 || w[p] == 101,
{
    let letter = seq![
        if e.upper {
            69u8
        } else {
            101u8
        },
    ];
    let sign: Seq<u8> = match e.sign {
        Some(minus) => seq![
            if minus {
                45u8
            } else {
                43u8
            },
        ],
        None => seq![],
    };
    lemma_stands_split(w, p, letter, sign + e.digits);
    lemma_stands(w, p, letter, 0);
    lemma_stands_split(w, p + 1, sign, e.digits);
    let q = (p + 1 + sign.len()) as int;
    lemma_stands(w, q, e.digits, 0);
    if e.sign is Some {
        lemma_stands(w, p + 1, sign, 0);
    }
    assert(48 <= e.digits[0] <= 57);
    lemma_digits(w, q, e.digits);
}

/// The rest of a number behind the digits before its point.
spec fn tail_of(n: Number) -> Seq<u8> {
    (match n.part {
        Some(d) => seq![46u8] + d,
        None => seq![],
    }) + (match n.exponent {
        Some(e) => write_exponent(e),
        None => seq![],
    })
}

proof fn lemma_number_tail(n: Number, w: Seq<u8>, p: int)
    requires
        is_writable_number(n),
        stands(w, p, tail_of(n)),
        p + tail_of(n).len() == w.len(),
    ensures
        p == w.len() || !(48 <= w[p] <= 57),
        n.part is Some <==> json::byte_at(w, p, 46),
        n.part matches Some(d) ==> json::digits_end(w, p + 1) == p + 1 + d.len() && (p + 1 + d.len()
            == w.len() || json::is_exponent(w, (p + 1 + d.len()) as int)),
        n.part is None ==> p == w.len() || json::is_exponent(w, p),
{
    let part: Seq<u8> = match n.part {
        Some(d) => seq![46u8] + d,
        None => seq![],
    };
    let back: Seq<u8> = match n.exponent {
        Some(e) => write_exponent(e),
        None => seq![],
    };
    assert(tail_of(n) == part + back);
    lemma_stands_split(w, p, part, back);
    let q = (p + part.len()) as int;
    if let Some(e) = n.exponent {
        lemma_exponent(e, w, q);
    }
    if let Some(d) = n.part {
        lemma_stands_split(w, p, seq![46u8], d);
        lemma_stands(w, p, seq![46u8], 0);
        lemma_digits(w, p + 1, d);
    }
}

proof fn lemma_is_number(n: Number)
    requires
        is_writable_number(n),
    ensures
        json::is_number(write_number(n)),
{
    let w = write_number(n);
    let sign: Seq<u8> = if n.minus {
        seq![45u8]
    } else {
        seq![]
    };
    let tail = tail_of(n);
    assert(w == sign + (n.whole + tail));
    assert(w.subrange(0, w.len() as int) =~= w);
    lemma_stands_split(w, 0, sign, n.whole + tail);
    let start = sign.len() as int;
    lemma_stands_split(w, start, n.whole, tail);
    if n.minus {
        lemma_stands(w, 0, sign, 0);
    } else {
        lemma_stands(w, 0, n.whole, 0);
        assert(48 <= n.whole[0] <= 57);
    }
    let p = (start + n.whole.len()) as int;
    lemma_number_tail(n, w, p);
    lemma_digits(w, start, n.whole);
    assert((if json::byte_at(w, 0, 0x2d) {
        1int
    } else {
        0int
    }) == start);
}

proof fn lemma_all_number_bytes(n: Number)
    requires
        is_writable_number(n),
    ensures
        forall|i: int|
            0 <= i < write_number(n).len() ==> json::is_number_byte(#[trigger] write_number(n)[i]),
        write_number(n).len() > 0,
        write_number(n)[0] == 45 || 48 <= write_number(n)[0] <= 57,
{
    let w = write_number(n);
    let sign: Seq<u8> = if n.minus {
        seq![45u8]
    } else {
        seq![]
    };
    let part: Seq<u8> = match n.part {
        Some(d) => seq![46u8] + d,
        None => seq![],
    };
    let back: Seq<u8> = match n.exponent {
        Some(e) => write_exponent(e),
        None => seq![],
    };
    assert(w == sign + (n.whole + (part + back)));
    assert forall|i: int| 0 <= i < w.len() implies json::is_number_byte(#[trigger] w[i]) by {
        let a = sign.len() as int;
        let c = (a + n.whole.len()) as int;
        let d = (c + part.len()) as int;
        if i < a {
        } else if i < c {
            assert(w[i] == n.whole[i - a]);
        } else if i < d {
            assert(w[i] == part[i - c]);
            if i > c {
                assert(part[i - c] == n.part->0[i - c - 1]);
            }
        } else {
            assert(w[i] == back[i - d]);
            let e = n.exponent->0;
            let k = back.len() - e.digits.len();
            if i - d >= k {
                assert(back[i - d] == e.digits[i - d - k]);
            }
        }
    }
    if !n.minus {
        assert(w[0] == n.whole[0]);
    }
}

/// What may follow a value: nothing, white space, a comma or a closing bracket.
spec fn value_ends(b: Seq<u8>, p: int) -> bool {
    p == b.len() || (0 <= p < b.len() && (json::is_space(b[p]) || b[p] == 44 || b[p] == 93 || b[p]
        == 125))
}

proof fn lemma_number(n: Number, b: Seq<u8>, p: int)
    requires
        is_writable_number(n),
        stands(b, p, write_number(n)),
        value_ends(b, (p + write_number(n).len()) as int),
    ensures
        json::number_at(b, p) == ok(
            Json::Num(text::ascii(write_number(n))),
            (p + write_number(n).len()) as int,
        ),
{
    lemma_all_number_bytes(n);
    lemma_number_bytes(b, p, write_number(n));
    lemma_is_number(n);
}

/// A key is looked up as the first member that has it, and found exactly if there is one.
pub proof fn lemma_first_member_counts(pairs: Seq<(Seq<char>, Json)>, key: Seq<char>)
    ensures
        match json::key_place(pairs, key) {
            Some(i) => 0 <= i < pairs.len() && pairs[i].0 == key && forall|k: int|
                0 <= k < i ==> (#[trigger] pairs[k]).0 != key,
            None => forall|k: int| 0 <= k < pairs.len() ==> (#[trigger] pairs[k]).0 != key,
        },
    decreases pairs.len(),
{
    if pairs.len() > 0 {
        let front = pairs.drop_last();
        lemma_first_member_counts(front, key);
        match json::key_place(front, key) {
            Some(i) => {
                assert(front[i] == pairs[i]);
                assert forall|k: int| 0 <= k < i implies (#[trigger] pairs[k]).0 != key by {
                    assert(front[k] == pairs[k]);
                }
            },
            None => {
                assert forall|k: int| 0 <= k < front.len() implies (#[trigger] pairs[k]).0 != key by {
                    assert(front[k] == pairs[k]);
                }
            },
        }
    }
}

proof fn lemma_key_is_new(members: Seq<Member>, k: int)
    requires
        are_writable_members(members),
        0 <= k < members.len(),
    ensures
        json::key_place(member_meanings(members).take(k), letters(members[k].key)) is None,
{
    let done = member_meanings(members).take(k);
    lemma_first_member_counts(done, letters(members[k].key));
    assert forall|i: int| 0 <= i < done.len() implies (#[trigger] done[i]).0 != letters(
        members[k].key,
    ) by {
        assert(letters(members[i].key) != letters(members[k].key));
    }
}

/// A document starts with no white space, and with neither a closing bracket nor a closing brace.
pub proof fn lemma_first_byte(d: Doc)
    requires
        is_writable(d),
    ensures
        write(d).len() > 0,
        !json::is_space(write(d)[0]),
        write(d)[0] != 93,
        write(d)[0] != 125,
{
    match d {
        Doc::Num(n) => {
            lemma_all_number_bytes(n);
        },
        _ => {},
    }
}

/// White space before a value makes no difference.
proof fn lemma_space_before(b: Seq<u8>, p: int, w: Seq<u8>)
    requires
        is_white(w),
        stands(b, p, w),
        no_space_at(b, (p + w.len()) as int),
    ensures
        json::value_at(b, p) == json::value_at(b, (p + w.len()) as int),
        json::skip(b, (p + w.len()) as int) == p + w.len(),
{
    let none: Seq<u8> = seq![];
    let q = (p + w.len()) as int;
    lemma_skip(b, p, w);
    assert(b.subrange(q, q) =~= none);
    lemma_skip(b, q, none);
}

proof fn lemma_last_element(b: Seq<u8>, p: int, done: Seq<Json>, v: Json, r: int, next: int)
    requires
        json::value_at(b, p) == ok(v, r),
        json::skip(b, r) == next,
        json::byte_at(b, next, 93),
    ensures
        json::elements(b, p, done) == ok(done.push(v), next + 1),
{
}

proof fn lemma_next_element(
    b: Seq<u8>,
    p: int,
    done: Seq<Json>,
    v: Json,
    r: int,
    next: int,
    all: Seq<Json>,
    end: int,
)
    requires
        json::value_at(b, p) == ok(v, r),
        json::skip(b, r) == next,
        json::byte_at(b, next, 44),
        p < next,
        json::elements(b, next + 1, done.push(v)) == ok(all, end),
    ensures
        json::elements(b, p, done) == ok(all, end),
{
}

proof fn lemma_last_member(
    b: Seq<u8>,
    p: int,
    done: Seq<(Seq<char>, Json)>,
    key: Seq<char>,
    k: int,
    colon: int,
    v: Json,
    r: int,
    next: int,
)
    requires
        json::string_at(b, json::skip(b, p)) == ok(key, k),
        json::key_place(done, key) is None,
        json::skip(b, k) == colon,
        json::byte_at(b, colon, 58),
        p <= colon,
        json::value_at(b, colon + 1) == ok(v, r),
        json::skip(b, r) == next,
        json::byte_at(b, next, 125),
    ensures
        json::members(b, p, done) == ok(done.push((key, v)), next + 1),
{
}

proof fn lemma_next_member(
    b: Seq<u8>,
    p: int,
    done: Seq<(Seq<char>, Json)>,
    key: Seq<char>,
    k: int,
    colon: int,
    v: Json,
    r: int,
    next: int,
    all: Seq<(Seq<char>, Json)>,
    end: int,
)
    requires
        json::string_at(b, json::skip(b, p)) == ok(key, k),
        json::key_place(done, key) is None,
        json::skip(b, k) == colon,
        json::byte_at(b, colon, 58),
        p <= colon,
        json::value_at(b, colon + 1) == ok(v, r),
        json::skip(b, r) == next,
        json::byte_at(b, next, 44),
        p < next,
        json::members(b, next + 1, done.push((key, v))) == ok(all, end),
    ensures
        json::members(b, p, done) == ok(all, end),
{
}

/// A written document is read as what it means.
proof fn lemma_value(d: Doc, b: Seq<u8>, p: int)
    requires
        is_writable(d),
        stands(b, p, write(d)),
        value_ends(b, (p + write(d).len()) as int),
    ensures
        json::value_at(b, p) == ok(meaning(d), (p + write(d).len()) as int),
    decreases d, 1int, 0int,
{
    let w = write(d);
    let none: Seq<u8> = seq![];
    lemma_first_byte(d);
    lemma_stands(b, p, w, 0);
    assert(b.subrange(p, p) =~= none);
    lemma_skip(b, p, none);
    match d {
        Doc::Num(n) => {
            lemma_number(n, b, p);
            lemma_all_number_bytes(n);
        },
        Doc::Str(s) => {
            lemma_string(s, b, p);
        },
        Doc::Arr { blank, items } => {
            lemma_array(blank, items, b, p);
        },
        Doc::Obj { blank, members } => {
            lemma_object(blank, members, b, p);
        },
        _ => {},
    }
}

proof fn lemma_array(blank: Seq<u8>, items: Seq<Item>, b: Seq<u8>, p: int)
    requires
        is_white(blank),
        are_writable_items(items),
        stands(b, p, write(Doc::Arr { blank, items })),
    ensures
        b[p] == 91,
        json::array_at(b, p) == ok(
            Json::Arr(item_meanings(items)),
            (p + write(Doc::Arr { blank, items }).len()) as int,
        ),
    decreases items, 2int, 0int,
{
    let open = seq![91u8];
    if items.len() == 0 {
        let close = seq![93u8];
        assert(write(Doc::Arr { blank, items }) == open + (blank + close));
        lemma_stands_split(b, p, open, blank + close);
        lemma_stands(b, p, open, 0);
        lemma_stands_split(b, p + 1, blank, close);
        lemma_stands(b, (p + 1 + blank.len()) as int, close, 0);
        lemma_skip(b, p + 1, blank);
        assert(item_meanings(items) =~= seq![]);
    } else {
        let rest = write_items(items, 0);
        assert(write(Doc::Arr { blank, items }) == open + rest);
        lemma_stands_split(b, p, open, rest);
        lemma_stands(b, p, open, 0);
        let q = (p + 1 + items[0].before.len()) as int;
        lemma_items(items, 0, b, p + 1, q);
        lemma_item_parts(items, 0, b, p + 1);
        lemma_skip(b, p + 1, items[0].before);
        assert(item_meanings(items).take(0) =~= seq![]);
    }
}

/// The parts of an item stand one behind the other.
proof fn lemma_item_parts(items: Seq<Item>, k: int, b: Seq<u8>, s: int)
    requires
        0 <= k < items.len(),
        are_writable_items(items),
        stands(b, s, write_items(items, k)),
    ensures
        ({
            let i = items[k];
            let q = (s + i.before.len()) as int;
            let r = (q + write(i.value).len()) as int;
            let next = (r + i.after.len()) as int;
            &&& is_white(i.before) && is_white(i.after) && is_writable(i.value)
            &&& stands(b, s, i.before)
            &&& no_space_at(b, q)
            &&& b[q] != 93
            &&& stands(b, q, write(i.value))
            &&& value_ends(b, r)
            &&& stands(b, r, i.after)
            &&& json::skip(b, r) == next
            &&& k + 1 < items.len() ==> json::byte_at(b, next, 44)
            &&& k + 1 == items.len() ==> json::byte_at(b, next, 93)
            &&& stands(b, next + 1, write_items(items, k + 1))
            &&& s + write_items(items, k).len() == next + 1 + write_items(items, k + 1).len()
            &&& q < next + 1
        }),
{
    let i = items[k];
    let mark: Seq<u8> = if k + 1 < items.len() {
        seq![44u8]
    } else {
        seq![93u8]
    };
    let more = write_items(items, k + 1);
    let w = write(i.value);
    assert(write_items(items, k) == i.before + (w + (i.after + (mark + more))));
    lemma_stands_split(b, s, i.before, w + (i.after + (mark + more)));
    let q = (s + i.before.len()) as int;
    lemma_stands_split(b, q, w, i.after + (mark + more));
    let r = (q + w.len()) as int;
    lemma_stands_split(b, r, i.after, mark + more);
    let next = (r + i.after.len()) as int;
    lemma_stands_split(b, next, mark, more);
    lemma_stands(b, next, mark, 0);
    lemma_first_byte(i.value);
    lemma_stands(b, q, w, 0);
    lemma_skip(b, r, i.after);
    if i.after.len() > 0 {
        lemma_stands(b, r, i.after, 0);
    }
}

/// Written items are read as what they mean, from the white space before the first of them or
/// from behind it.
proof fn lemma_items(items: Seq<Item>, k: int, b: Seq<u8>, s: int, p: int)
    requires
        0 <= k < items.len(),
        are_writable_items(items),
        stands(b, s, write_items(items, k)),
        p == s || p == s + items[k].before.len(),
    ensures
        json::elements(b, p, item_meanings(items).take(k)) == ok(
            item_meanings(items),
            (s + write_items(items, k).len()) as int,
        ),
    decreases items, 1int, items.len() - k,
{
    let all = item_meanings(items);
    let i = items[k];
    let q = (s + i.before.len()) as int;
    let r = (q + write(i.value).len()) as int;
    let next = (r + i.after.len()) as int;
    lemma_item_parts(items, k, b, s);
    lemma_value(i.value, b, q);
    lemma_space_before(b, s, i.before);
    let v = meaning(i.value);
    assert(all[k] == v);
    assert(all.take(k).push(v) =~= all.take(k + 1));
    if k + 1 < items.len() {
        lemma_items(items, k + 1, b, next + 1, next + 1);
        lemma_first_byte(i.value);
        lemma_next_element(
            b,
            p,
            all.take(k),
            v,
            r,
            next,
            all,
            (s + write_items(items, k).len()) as int,
        );
    } else {
        assert(write_items(items, k + 1).len() == 0);
        lemma_last_element(b, p, all.take(k), v, r, next);
        assert(all.take(k + 1) =~= all);
    }
}

proof fn lemma_object(blank: Seq<u8>, members: Seq<Member>, b: Seq<u8>, p: int)
    requires
        is_white(blank),
        are_writable_members(members),
        stands(b, p, write(Doc::Obj { blank, members })),
    ensures
        b[p] == 123,
        json::object_at(b, p) == ok(
            Json::Obj(member_meanings(members)),
            (p + write(Doc::Obj { blank, members }).len()) as int,
        ),
    decreases members, 2int, 0int,
{
    let open = seq![123u8];
    if members.len() == 0 {
        let close = seq![125u8];
        assert(write(Doc::Obj { blank, members }) == open + (blank + close));
        lemma_stands_split(b, p, open, blank + close);
        lemma_stands(b, p, open, 0);
        lemma_stands_split(b, p + 1, blank, close);
        lemma_stands(b, (p + 1 + blank.len()) as int, close, 0);
        lemma_skip(b, p + 1, blank);
        assert(member_meanings(members) =~= seq![]);
    } else {
        let rest = write_members(members, 0);
        assert(write(Doc::Obj { blank, members }) == open + rest);
        lemma_stands_split(b, p, open, rest);
        lemma_stands(b, p, open, 0);
        let q = (p + 1 + members[0].before.len()) as int;
        lemma_member_parts(members, 0, b, p + 1);
        lemma_members(members, 0, b, p + 1, q);
        assert(member_meanings(members).take(0) =~= seq![]);
    }
}

/// The parts of a member stand one behind the other.
proof fn lemma_member_parts(members: Seq<Member>, k: int, b: Seq<u8>, s: int)
    requires
        0 <= k < members.len(),
        are_writable_members(members),
        stands(b, s, write_members(members, k)),
    ensures
        ({
            let m = members[k];
            let q = (s + m.before.len()) as int;
            let e = (q + write_string(m.key).len()) as int;
            let colon = (e + m.middle.len()) as int;
            let v = (colon + 1 + m.between.len()) as int;
            let r = (v + write(m.value).len()) as int;
            let next = (r + m.after.len()) as int;
            &&& is_writable(m.value)
            &&& json::skip(b, s) == q
            &&& json::skip(b, q) == q
            &&& b[q] == 34
            &&& q < b.len()
            &&& json::string_at(b, q) == ok(letters(m.key), e)
            &&& json::skip(b, e) == colon
            &&& json::byte_at(b, colon, 58)
            &&& is_white(m.between)
            &&& stands(b, colon + 1, m.between)
            &&& no_space_at(b, v)
            &&& stands(b, v, write(m.value))
            &&& value_ends(b, r)
            &&& json::skip(b, r) == next
            &&& k + 1 < members.len() ==> json::byte_at(b, next, 44)
            &&& k + 1 == members.len() ==> json::byte_at(b, next, 125)
            &&& stands(b, next + 1, write_members(members, k + 1))
            &&& s + write_members(members, k).len() == next + 1 + write_members(members, k + 1).len()
            &&& s <= q <= colon < next
        }),
{
    let m = members[k];
    let none: Seq<u8> = seq![];
    let mark: Seq<u8> = if k + 1 < members.len() {
        seq![44u8]
    } else {
        seq![125u8]
    };
    let more = write_members(members, k + 1);
    let name = write_string(m.key);
    let w = write(m.value);
    let after = m.after + (mark + more);
    let value = m.between + (w + after);
    assert(write_members(members, k) == m.before + (name + (m.middle + (seq![58u8] + value))));
    lemma_stands_split(b, s, m.before, name + (m.middle + (seq![58u8] + value)));
    let q = (s + m.before.len()) as int;
    lemma_stands_split(b, q, name, m.middle + (seq![58u8] + value));
    let e = (q + name.len()) as int;
    lemma_stands_split(b, e, m.middle, seq![58u8] + value);
    let colon = (e + m.middle.len()) as int;
    lemma_stands_split(b, colon, seq![58u8], value);
    lemma_stands(b, colon, seq![58u8], 0);
    lemma_stands_split(b, colon + 1, m.between, w + after);
    let v = (colon + 1 + m.between.len()) as int;
    lemma_stands_split(b, v, w, after);
    let r = (v + w.len()) as int;
    lemma_stands_split(b, r, m.after, mark + more);
    let next = (r + m.after.len()) as int;
    lemma_stands_split(b, next, mark, more);
    lemma_stands(b, next, mark, 0);
    lemma_first_byte(m.value);
    lemma_stands(b, v, w, 0);
    lemma_skip(b, r, m.after);
    if m.after.len() > 0 {
        lemma_stands(b, r, m.after, 0);
    }
    lemma_string(m.key, b, q);
    lemma_skip(b, e, m.middle);
    lemma_skip(b, s, m.before);
    assert(b.subrange(q, q) =~= none);
    lemma_skip(b, q, none);
}

/// Written members are read as what they mean, from the white space before the first of them or
/// from behind it.
proof fn lemma_members(members: Seq<Member>, k: int, b: Seq<u8>, s: int, p: int)
    requires
        0 <= k < members.len(),
        are_writable_members(members),
        stands(b, s, write_members(members, k)),
        p == s || p == s + members[k].before.len(),
    ensures
        json::members(b, p, member_meanings(members).take(k)) == ok(
            member_meanings(members),
            (s + write_members(members, k).len()) as int,
        ),
    decreases members, 1int, members.len() - k,
{
    let all = member_meanings(members);
    let m = members[k];
    let q = (s + m.before.len()) as int;
    let e = (q + write_string(m.key).len()) as int;
    let colon = (e + m.middle.len()) as int;
    let v = (colon + 1 + m.between.len()) as int;
    let r = (v + write(m.value).len()) as int;
    let next = (r + m.after.len()) as int;
    lemma_member_parts(members, k, b, s);
    lemma_value(m.value, b, v);
    lemma_space_before(b, colon + 1, m.between);
    lemma_key_is_new(members, k);
    let pair = (letters(m.key), meaning(m.value));
    assert(all[k] == pair);
    assert(all.take(k).push(pair) =~= all.take(k + 1));
    if k + 1 < members.len() {
        lemma_members(members, k + 1, b, next + 1, next + 1);
        lemma_next_member(
            b,
            p,
            all.take(k),
            pair.0,
            e,
            colon,
            pair.1,
            r,
            next,
            all,
            (s + write_members(members, k).len()) as int,
        );
    } else {
        assert(write_members(members, k + 1).len() == 0);
        lemma_last_member(b, p, all.take(k), pair.0, e, colon, pair.1, r, next);
        assert(all.take(k + 1) =~= all);
    }
}

/// Reading gives what was written: a document, with white space before and behind it, is read as
/// the value that it stands for, whichever way its strings, numbers and containers were written.
pub proof fn lemma_documents_are_read(before: Seq<u8>, d: Doc, after: Seq<u8>)
    requires
        is_white(before),
        is_white(after),
        is_writable(d),
    ensures
        json::document(before + write(d) + after) == Ok::<Json, Seq<char>>(meaning(d)),
{
    let w = write(d);
    let b = before + w + after;
    let p = before.len() as int;
    let r = (p + w.len()) as int;
    assert(b.subrange(0, p) =~= before);
    assert(b.subrange(p, r) =~= w);
    assert(b.subrange(r, (r + after.len()) as int) =~= after);
    lemma_first_byte(d);
    lemma_stands(b, p, w, 0);
    lemma_skip(b, 0, before);
    lemma_skip(b, r, after);
    if after.len() > 0 {
        lemma_stands(b, r, after, 0);
    }
    lemma_value(d, b, p);
}

/// Nothing but white space may stand behind a document: what follows another way is refused.
pub proof fn lemma_trailing_data_is_refused(d: Doc, after: Seq<u8>)
    requires
        is_writable(d),
        after.len() > 0,
        after[0] == 44 || after[0] == 93 || after[0] == 125,
    ensures
        json::document(write(d) + after) is Err,
{
    let w = write(d);
    let b = w + after;
    let r = w.len() as int;
    let none: Seq<u8> = seq![];
    assert(b.subrange(0, r) =~= w);
    assert(b.subrange(0, 0) =~= none);
    assert(b.subrange(r, r) =~= none);
    lemma_first_byte(d);
    lemma_stands(b, 0, w, 0);
    lemma_skip(b, 0, none);
    assert(b[r] == after[0]);
    lemma_skip(b, r, none);
    lemma_value(d, b, 0);
}

/// How the writer writes a character: a quotation mark, a backslash and the control characters
/// with a letter of their own as one-letter escapes, the other control characters as escapes with
/// lower-case digits, and all other characters as they are.
pub open spec fn letter_of(c: char) -> Letter {
    if c == '/' {
        Letter::Plain(c)
    } else if short_letter(c) is Some {
        Letter::Short(c)
    } else if (c as u32) < 0x20 {
        Letter::Code { c, upper: false }
    } else {
        Letter::Plain(c)
    }
}

proof fn lemma_escape(c: char)
    ensures
        encode_utf8(json::escape(c)) == write_letter(letter_of(c)),
        is_letter(letter_of(c)),
        letter_char(letter_of(c)) == c,
{
    let e = json::escape(c);
    let w = write_letter(letter_of(c));
    if letter_of(c) is Plain {
        text::lemma_encode_one(c);
    } else {
        assert(e.len() == w.len());
        if letter_of(c) is Code {
            let n = c as int;
            assert(n < 32);
            assert(n / 4096 == 0 && n / 256 % 16 == 0 && n / 16 % 16 == n / 16);
        }
        assert forall|i: int| 0 <= i < e.len() implies (#[trigger] w[i]) < 0x80 && e[i] == w[i] as char by {
            if letter_of(c) is Code {
                let n = c as int;
                assert(n / 16 < 2 && n % 16 < 16);
            }
        }
        text::lemma_encode_ascii(e, w);
    }
}

/// A text in quotation marks is written letter by letter.
pub proof fn lemma_strings_are_written(s: Seq<char>)
    ensures
        encode_utf8(json::quote(s)) == write_string(s.map_values(|c: char| letter_of(c))),
        are_letters(s.map_values(|c: char| letter_of(c))),
        letters(s.map_values(|c: char| letter_of(c))) == s,
{
    let all = s.map_values(|c: char| letter_of(c));
    assert forall|i: int| 0 <= i < all.len() implies is_letter(#[trigger] all[i]) && letter_char(
        all[i],
    ) == s[i] by {
        lemma_escape(s[i]);
    }
    assert(letters(all) =~= s);
    lemma_escaped_letters(s);
    let q = seq!['"'];
    text::lemma_encode_ascii(q, seq![34u8]);
    text::lemma_encode_concat(q, json::escape_all(s));
    text::lemma_encode_concat(q + json::escape_all(s), q);
    assert(seq![34u8] + write_letters(all, 0) + seq![34u8] =~= write_string(all));
}

proof fn lemma_letters_snoc(all: Seq<Letter>, k: int)
    requires
        0 <= k < all.len(),
    ensures
        write_letters(all, k) == write_letters(all.drop_last(), k) + write_letter(all.last()),
    decreases all.len() - k,
{
    let front = all.drop_last();
    if k + 1 < all.len() {
        lemma_letters_snoc(all, k + 1);
        assert(front[k] == all[k]);
        let w = write_letter(all[k]);
        assert(w + (write_letters(front, k + 1) + write_letter(all.last())) =~= w + write_letters(
            front,
            k + 1,
        ) + write_letter(all.last()));
    } else {
        let none: Seq<u8> = seq![];
        assert(write_letters(all, k + 1) =~= none);
        assert(write_letters(front, k) =~= none);
        assert(write_letter(all[k]) + none =~= none + write_letter(all.last()));
    }
}

proof fn lemma_escaped_letters(s: Seq<char>)
    ensures
        encode_utf8(json::escape_all(s)) == write_letters(
            s.map_values(|c: char| letter_of(c)),
            0,
        ),
    decreases s.len(),
{
    let all = s.map_values(|c: char| letter_of(c));
    if s.len() > 0 {
        let front = s.drop_last();
        lemma_escaped_letters(front);
        lemma_escape(s.last());
        text::lemma_encode_concat(json::escape_all(front), json::escape(s.last()));
        assert(front.map_values(|c: char| letter_of(c)) =~= all.drop_last());
        lemma_letters_snoc(all, 0);
    } else {
        assert(encode_utf8(json::escape_all(s)) =~= seq![]);
    }
}

}
