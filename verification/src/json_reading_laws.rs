//! Which JSON texts are read: only those that are the writing of a document.

use crate::json;
use crate::json::Json;
use crate::json_laws;
use crate::json_laws::{
    are_digits, are_letters, are_writable_items, are_writable_members, code_of, is_code, is_letter,
    is_white, is_writable, is_writable_number, item_meanings, letter_char, letters, meaning,
    member_meanings, write_exponent, write_items, write_letter, write_letters,
    write_members, write_number, write_string, Doc, Exponent, Item, Letter, Member, Number,
};
use crate::text;
use vstd::prelude::*;
use vstd::utf8::*;

verus! {

broadcast use vstd::seq::group_seq_axioms;

/// The bytes from `p` to `q` are white space, and none follows.
proof fn lemma_skipped(b: Seq<u8>, p: int)
    requires
        0 <= p <= b.len(),
    ensures
        p <= json::skip(b, p) <= b.len(),
        is_white(b.subrange(p, json::skip(b, p))),
        json::skip(b, json::skip(b, p)) == json::skip(b, p),
    decreases b.len() - p,
{
    let q = json::skip(b, p);
    if p < b.len() && json::is_space(b[p]) {
        lemma_skipped(b, p + 1);
        let w = b.subrange(p, q);
        let v = b.subrange(p + 1, q);
        assert forall|i: int| 0 <= i < w.len() implies {
            ||| #[trigger] w[i] == 32
            ||| w[i] == 9
            ||| w[i] == 10
            ||| w[i] == 13
        } by {
            if i > 0 {
                assert(w[i] == v[i - 1]);
            }
        }
    }
}

proof fn lemma_cut(b: Seq<u8>, p: int, q: int, r: int)
    requires
        0 <= p <= q <= r <= b.len(),
    ensures
        b.subrange(p, r) == b.subrange(p, q) + b.subrange(q, r),
{
    assert(b.subrange(p, r) =~= b.subrange(p, q) + b.subrange(q, r));
}

proof fn read_letter(b: Seq<u8>, p: int) -> (l: Letter)
    requires
        0 <= p < b.len(),
        b[p] != 34,
        json::string_char(b, p) is Ok,
    ensures
        ({
            let (c, q) = json::string_char(b, p)->Ok_0;
            &&& is_letter(l)
            &&& letter_char(l) == c
            &&& p < q <= b.len()
            &&& b.subrange(p, q) == write_letter(l)
        }),
{
    let (c, q) = json::string_char(b, p)->Ok_0;
    if b[p] != 92 {
        text::lemma_char_at_width(b, p);
        let w = encode_scalar(c as u32);
        assert(b.subrange(p, q)[0] == b[p]);
        if c == '"' || c == '\\' {
            text::lemma_encode_one(c);
            text::lemma_encode_ascii(seq![c], seq![c as u8]);
            assert(w[0] == c as u8);
        }
        Letter::Plain(c)
    } else if b[p + 1] == 117 {
        json_laws::lemma_codes_are_read(b, p + 2);
        let d = b.subrange(p + 2, p + 6);
        if 0xd800 <= code_of(d) <= 0xdbff {
            json_laws::lemma_codes_are_read(b, p + 8);
            let e = b.subrange(p + 8, p + 12);
            let l = Letter::Pair { high: d, low: e };
            assert(b.subrange(p, q) =~= write_letter(l));
            l
        } else {
            let l = Letter::Escape { digits: d };
            assert(b.subrange(p, q) =~= write_letter(l));
            l
        }
    } else {
        let l = Letter::Short(c);
        assert(b.subrange(p, q) =~= write_letter(l));
        l
    }
}

proof fn lemma_letters_shift(l: Letter, rest: Seq<Letter>, k: int)
    requires
        0 <= k <= rest.len(),
    ensures
        write_letters(seq![l] + rest, k + 1) == write_letters(rest, k),
    decreases rest.len() - k,
{
    if k < rest.len() {
        lemma_letters_shift(l, rest, k + 1);
        assert((seq![l] + rest)[k + 1] == rest[k]);
    }
}

proof fn read_letters(b: Seq<u8>, p: int, done: Seq<char>) -> (s: Seq<Letter>)
    requires
        0 <= p <= b.len(),
        json::string_rest(b, p, done) is Ok,
    ensures
        ({
            let (all, q) = json::string_rest(b, p, done)->Ok_0;
            &&& are_letters(s)
            &&& all == done + letters(s)
            &&& p < q <= b.len()
            &&& b.subrange(p, q) == write_letters(s, 0) + seq![34u8]
        }),
    decreases b.len() - p,
{
    let (all, q) = json::string_rest(b, p, done)->Ok_0;
    if b[p] == 34 {
        let s: Seq<Letter> = seq![];
        assert(done + letters(s) =~= done);
        assert(b.subrange(p, q) =~= write_letters(s, 0) + seq![34u8]);
        s
    } else {
        let (c, m) = json::string_char(b, p)->Ok_0;
        let l = read_letter(b, p);
        let rest = read_letters(b, m, done.push(c));
        let s = seq![l] + rest;
        assert forall|i: int| 0 <= i < s.len() implies is_letter(#[trigger] s[i]) by {
            if i > 0 {
                assert(s[i] == rest[i - 1]);
            }
        }
        assert(done + letters(s) =~= done.push(c) + letters(rest));
        lemma_letters_shift(l, rest, 0);
        assert(s[0] == l);
        assert(write_letters(s, 0) == write_letter(l) + write_letters(rest, 0));
        lemma_cut(b, p, m, q);
        assert(write_letter(l) + (write_letters(rest, 0) + seq![34u8]) =~= write_letter(l)
            + write_letters(rest, 0) + seq![34u8]);
        s
    }
}

proof fn read_string(b: Seq<u8>, p: int) -> (s: Seq<Letter>)
    requires
        0 <= p <= b.len(),
        json::string_at(b, p) is Ok,
    ensures
        ({
            let (all, q) = json::string_at(b, p)->Ok_0;
            &&& are_letters(s)
            &&& all == letters(s)
            &&& p < q <= b.len()
            &&& b.subrange(p, q) == write_string(s)
        }),
{
    let none: Seq<char> = seq![];
    let (all, q) = json::string_at(b, p)->Ok_0;
    let s = read_letters(b, p + 1, none);
    assert(none + letters(s) =~= letters(s));
    lemma_cut(b, p, p + 1, q);
    assert(b.subrange(p, p + 1) =~= seq![34u8]);
    s
}

proof fn lemma_digits_between(b: Seq<u8>, p: int)
    requires
        0 <= p <= b.len(),
    ensures
        p <= json::digits_end(b, p) <= b.len(),
        are_digits(b.subrange(p, json::digits_end(b, p))),
    decreases b.len() - p,
{
    let q = json::digits_end(b, p);
    if p < b.len() && 48 <= b[p] <= 57 {
        lemma_digits_between(b, p + 1);
        let d = b.subrange(p, q);
        let e = b.subrange(p + 1, q);
        assert forall|i: int| 0 <= i < d.len() implies 48 <= #[trigger] d[i] <= 57 by {
            if i > 0 {
                assert(d[i] == e[i - 1]);
            }
        }
    }
}

proof fn read_exponent(w: Seq<u8>, p: int) -> (e: Exponent)
    requires
        0 <= p < w.len(),
        json::is_exponent(w, p),
    ensures
        are_digits(e.digits),
        e.digits.len() > 0,
        w.subrange(p, w.len() as int) == write_exponent(e),
{
    let signed = json::byte_at(w, p + 1, 43) || json::byte_at(w, p + 1, 45);
    let start = if signed {
        p + 2
    } else {
        p + 1
    };
    lemma_digits_between(w, start);
    let digits = w.subrange(start, w.len() as int);
    let sign = if signed {
        Some(w[p + 1] == 45)
    } else {
        None
    };
    let e = Exponent { upper: w[p] == 69, sign, digits };
    assert(w.subrange(p, w.len() as int) =~= write_exponent(e));
    e
}

proof fn read_number(w: Seq<u8>) -> (n: Number)
    requires
        json::is_number(w),
        w.len() > 0,
        w[0] == 45 || 48 <= w[0] <= 57,
    ensures
        is_writable_number(n),
        write_number(n) == w,
{
    let len = w.len() as int;
    let minus = w[0] == 45;
    let start: int = if minus {
        1
    } else {
        0
    };
    let whole_end = json::digits_end(w, start);
    lemma_digits_between(w, start);
    let whole = w.subrange(start, whole_end);
    let pointed = json::byte_at(w, whole_end, 46);
    let mantissa = if pointed {
        json::digits_end(w, whole_end + 1)
    } else {
        whole_end
    };
    if pointed {
        lemma_digits_between(w, whole_end + 1);
    }
    let part = if pointed {
        Some(w.subrange(whole_end + 1, mantissa))
    } else {
        None
    };
    let exponent = if mantissa == len {
        None
    } else {
        Some(read_exponent(w, mantissa))
    };
    let n = Number { minus, whole, part, exponent };
    let none: Seq<u8> = seq![];
    let sign: Seq<u8> = if minus {
        seq![45u8]
    } else {
        none
    };
    let behind: Seq<u8> = match part {
        Some(d) => seq![46u8] + d,
        None => none,
    };
    let tail: Seq<u8> = match exponent {
        Some(e) => write_exponent(e),
        None => none,
    };
    assert(w.subrange(0, start) =~= sign);
    assert(w.subrange(whole_end, mantissa) =~= behind);
    assert(w.subrange(mantissa, len) =~= tail);
    lemma_cut(w, 0, start, len);
    lemma_cut(w, start, whole_end, len);
    lemma_cut(w, whole_end, mantissa, len);
    assert(w.subrange(0, len) =~= w);
    assert(write_number(n) == sign + (whole + (behind + tail)));
    if !minus {
        assert(json::digits_end(w, 0) >= 1) by {
            lemma_digits_between(w, 1);
        }
    }
    n
}

proof fn lemma_items_shift(x: Item, rest: Seq<Item>, k: int)
    requires
        0 <= k <= rest.len(),
    ensures
        write_items(seq![x] + rest, k + 1) == write_items(rest, k),
    decreases rest.len() - k,
{
    if k < rest.len() {
        lemma_items_shift(x, rest, k + 1);
        assert((seq![x] + rest)[k + 1] == rest[k]);
    }
}

proof fn lemma_items_cons(x: Item, rest: Seq<Item>)
    requires
        is_white(x.before),
        is_white(x.after),
        is_writable(x.value),
        are_writable_items(rest),
    ensures
        are_writable_items(seq![x] + rest),
        item_meanings(seq![x] + rest) == seq![meaning(x.value)] + item_meanings(rest),
        write_items(seq![x] + rest, 0) == x.before + (json_laws::write(x.value) + (x.after + (
        if rest.len() > 0 {
            seq![44u8]
        } else {
            seq![93u8]
        } + write_items(rest, 0)))),
{
    let all = seq![x] + rest;
    assert forall|i: int| 0 <= i < all.len() implies is_white((#[trigger] all[i]).before)
        && is_white(all[i].after) && is_writable(all[i].value) by {
        if i > 0 {
            assert(all[i] == rest[i - 1]);
        }
    }
    lemma_items_shift(x, rest, 0);
    assert(all[0] == x);
    assert(item_meanings(all) =~= seq![meaning(x.value)] + item_meanings(rest));
}

proof fn lemma_members_shift(x: Member, rest: Seq<Member>, k: int)
    requires
        0 <= k <= rest.len(),
    ensures
        write_members(seq![x] + rest, k + 1) == write_members(rest, k),
    decreases rest.len() - k,
{
    if k < rest.len() {
        lemma_members_shift(x, rest, k + 1);
        assert((seq![x] + rest)[k + 1] == rest[k]);
    }
}

proof fn lemma_members_cons(x: Member, rest: Seq<Member>)
    requires
        is_white(x.before),
        is_white(x.middle),
        is_white(x.between),
        is_white(x.after),
        are_letters(x.key),
        is_writable(x.value),
        are_writable_members(rest),
        forall|i: int| 0 <= i < rest.len() ==> letters((#[trigger] rest[i]).key) != letters(x.key),
    ensures
        are_writable_members(seq![x] + rest),
        member_meanings(seq![x] + rest) == seq![(letters(x.key), meaning(x.value))]
            + member_meanings(rest),
        write_members(seq![x] + rest, 0) == x.before + (write_string(x.key) + (x.middle + (seq![58u8]
            + (x.between + (json_laws::write(x.value) + (x.after + (if rest.len() > 0 {
            seq![44u8]
        } else {
            seq![125u8]
        } + write_members(rest, 0)))))))),
{
    let all = seq![x] + rest;
    assert forall|i: int| 0 <= i < all.len() implies is_white((#[trigger] all[i]).before)
        && is_white(all[i].middle) && is_white(all[i].between) && is_white(all[i].after)
        && are_letters(all[i].key) && is_writable(all[i].value) by {
        if i > 0 {
            assert(all[i] == rest[i - 1]);
        }
    }
    assert forall|i: int, j: int| 0 <= i < j < all.len() implies letters((#[trigger] all[i]).key)
        != letters((#[trigger] all[j]).key) by {
        assert(all[j] == rest[j - 1]);
        if i > 0 {
            assert(all[i] == rest[i - 1]);
        }
    }
    lemma_members_shift(x, rest, 0);
    assert(all[0] == x);
    assert(member_meanings(all) =~= seq![(letters(x.key), meaning(x.value))] + member_meanings(
        rest,
    ));
}

proof fn lemma_number_stands(b: Seq<u8>, p: int)
    requires
        0 <= p <= b.len(),
    ensures
        p <= json::number_end(b, p) <= b.len(),
    decreases b.len() - p,
{
    if p < b.len() && json::is_number_byte(b[p]) {
        lemma_number_stands(b, p + 1);
    }
}

/// The bytes from `p` to `q` are the writing of a document that stands for `v`.
spec fn is_written(b: Seq<u8>, p: int, q: int, d: Doc, v: Json) -> bool {
    &&& 0 <= p < q <= b.len()
    &&& is_writable(d)
    &&& meaning(d) == v
    &&& b.subrange(p, q) == json_laws::write(d)
}

proof fn read_word(b: Seq<u8>, p: int) -> (d: Doc)
    requires
        0 <= p < b.len(),
        json::word_value(b, p) is Ok,
    ensures
        ({
            let (v, q) = json::word_value(b, p)->Ok_0;
            is_written(b, p, q, d, v)
        }),
{
    let (v, q) = json::word_value(b, p)->Ok_0;
    if v == Json::Null {
        assert(b.subrange(p, q) =~= json_laws::write(Doc::Null));
        Doc::Null
    } else if v == Json::Bool(true) {
        assert(b.subrange(p, q) =~= json_laws::write(Doc::True));
        Doc::True
    } else {
        assert(b.subrange(p, q) =~= json_laws::write(Doc::False));
        Doc::False
    }
}

proof fn read_digits(b: Seq<u8>, p: int) -> (d: Doc)
    requires
        0 <= p < b.len(),
        b[p] == 45 || 48 <= b[p] <= 57,
        json::number_at(b, p) is Ok,
    ensures
        ({
            let (v, q) = json::number_at(b, p)->Ok_0;
            is_written(b, p, q, d, v)
        }),
{
    let q = json::number_end(b, p);
    lemma_number_stands(b, p);
    lemma_number_stands(b, p + 1);
    let w = b.subrange(p, q);
    assert(w[0] == b[p]);
    let n = read_number(w);
    Doc::Num(n)
}

#[verifier::spinoff_prover]
proof fn read_value(b: Seq<u8>, p: int) -> (d: Doc)
    requires
        0 <= p <= b.len(),
        json::value_at(b, p) is Ok,
    ensures
        ({
            let (v, q) = json::value_at(b, p)->Ok_0;
            is_written(b, json::skip(b, p), q, d, v)
        }),
    decreases b.len() - p, 2int,
{
    let s = json::skip(b, p);
    lemma_skipped(b, p);
    let (v, q) = json::value_at(b, p)->Ok_0;
    if b[s] == 123 {
        read_object(b, s)
    } else if b[s] == 91 {
        read_array(b, s)
    } else if b[s] == 34 {
        let l = read_string(b, s);
        Doc::Str(l)
    } else if b[s] == 116 || b[s] == 102 || b[s] == 110 {
        read_word(b, s)
    } else {
        read_digits(b, s)
    }
}

proof fn read_array(b: Seq<u8>, p: int) -> (d: Doc)
    requires
        0 <= p < b.len(),
        b[p] == 91,
        json::array_at(b, p) is Ok,
    ensures
        ({
            let (v, q) = json::array_at(b, p)->Ok_0;
            is_written(b, p, q, d, v)
        }),
    decreases b.len() - p, 1int,
{
    let (v, r) = json::array_at(b, p)->Ok_0;
    let q = json::skip(b, p + 1);
    let open = seq![91u8];
    lemma_skipped(b, p + 1);
    assert(b.subrange(p, p + 1) =~= open);
    if json::byte_at(b, q, 93) {
        let items: Seq<Item> = seq![];
        let blank = b.subrange(p + 1, q);
        let d = Doc::Arr { blank, items };
        assert(item_meanings(items) =~= seq![]);
        assert(b.subrange(p, r) =~= open + (blank + seq![93u8]));
        d
    } else {
        let none: Seq<Json> = seq![];
        let white = b.subrange(p + 1, q);
        let items = read_elements(b, q, none);
        let first = items[0];
        let rest = items.skip(1);
        assert(items =~= seq![first] + rest);
        assert forall|i: int| 0 <= i < rest.len() implies is_white((#[trigger] rest[i]).before)
            && is_white(rest[i].after) && is_writable(rest[i].value) by {
            assert(rest[i] == items[i + 1]);
        }
        assert(is_white(items[0].before));
        let before = white + first.before;
        assert forall|i: int| 0 <= i < before.len() implies {
            ||| #[trigger] before[i] == 32
            ||| before[i] == 9
            ||| before[i] == 10
            ||| before[i] == 13
        } by {
            if i < white.len() {
                assert(before[i] == white[i]);
            } else {
                assert(before[i] == first.before[i - white.len()]);
            }
        }
        let x = Item { before, value: first.value, after: first.after };
        lemma_items_cons(first, rest);
        lemma_items_cons(x, rest);
        let all = seq![x] + rest;
        let none_blank: Seq<u8> = seq![];
        let d = Doc::Arr { blank: none_blank, items: all };
        assert(none + item_meanings(items) =~= item_meanings(items));
        let tail = json_laws::write(x.value) + (x.after + (if rest.len() > 0 {
            seq![44u8]
        } else {
            seq![93u8]
        } + write_items(rest, 0)));
        assert(write_items(items, 0) == first.before + tail);
        assert(write_items(all, 0) == before + tail);
        assert(before + tail =~= white + (first.before + tail));
        lemma_cut(b, p, p + 1, r);
        lemma_cut(b, p + 1, q, r);
        assert(b.subrange(p, r) == open + write_items(all, 0));
        d
    }
}

proof fn read_elements(b: Seq<u8>, p: int, done: Seq<Json>) -> (items: Seq<Item>)
    requires
        0 <= p <= b.len(),
        json::elements(b, p, done) is Ok,
    ensures
        ({
            let (all, q) = json::elements(b, p, done)->Ok_0;
            &&& items.len() > 0
            &&& are_writable_items(items)
            &&& all == done + item_meanings(items)
            &&& p < q <= b.len()
            &&& b.subrange(p, q) == write_items(items, 0)
        }),
    decreases b.len() - p, 3int,
{
    let (all, q) = json::elements(b, p, done)->Ok_0;
    let s = json::skip(b, p);
    lemma_skipped(b, p);
    let value = read_value(b, p);
    let (v, r) = json::value_at(b, p)->Ok_0;
    let next = json::skip(b, r);
    lemma_skipped(b, r);
    let x = Item { before: b.subrange(p, s), value, after: b.subrange(r, next) };
    let more = json::byte_at(b, next, 44) && p < next;
    let rest: Seq<Item> = if more {
        read_elements(b, next + 1, done.push(v))
    } else {
        seq![]
    };
    lemma_items_cons(x, rest);
    let items = seq![x] + rest;
    let mark: Seq<u8> = if more {
        seq![44u8]
    } else {
        seq![93u8]
    };
    assert(b.subrange(next, next + 1) =~= mark);
    assert(b.subrange(next + 1, q) =~= write_items(rest, 0));
    lemma_cut(b, p, s, q);
    lemma_cut(b, s, r, q);
    lemma_cut(b, r, next, q);
    lemma_cut(b, next, next + 1, q);
    assert(done + (seq![v] + item_meanings(rest)) =~= done.push(v) + item_meanings(rest));
    if !more {
        assert(done.push(v) + item_meanings(rest) =~= done.push(v));
    }
    items
}

proof fn read_object(b: Seq<u8>, p: int) -> (d: Doc)
    requires
        0 <= p < b.len(),
        b[p] == 123,
        json::object_at(b, p) is Ok,
    ensures
        ({
            let (v, q) = json::object_at(b, p)->Ok_0;
            is_written(b, p, q, d, v)
        }),
    decreases b.len() - p, 1int,
{
    let (v, r) = json::object_at(b, p)->Ok_0;
    let q = json::skip(b, p + 1);
    let open = seq![123u8];
    lemma_skipped(b, p + 1);
    assert(b.subrange(p, p + 1) =~= open);
    if json::byte_at(b, q, 125) {
        let members: Seq<Member> = seq![];
        let blank = b.subrange(p + 1, q);
        let d = Doc::Obj { blank, members };
        assert(member_meanings(members) =~= seq![]);
        assert(b.subrange(p, r) =~= open + (blank + seq![125u8]));
        d
    } else {
        let none: Seq<(Seq<char>, Json)> = seq![];
        let white = b.subrange(p + 1, q);
        let members = read_members(b, q, none);
        let first = members[0];
        let rest = members.skip(1);
        assert(members =~= seq![first] + rest);
        assert(is_white(members[0].before));
        assert forall|i: int| 0 <= i < rest.len() implies is_white((#[trigger] rest[i]).before)
            && is_white(rest[i].middle) && is_white(rest[i].between) && is_white(rest[i].after)
            && are_letters(rest[i].key) && is_writable(rest[i].value) by {
            assert(rest[i] == members[i + 1]);
        }
        assert forall|i: int, j: int| 0 <= i < j < rest.len() implies letters(
            (#[trigger] rest[i]).key,
        ) != letters((#[trigger] rest[j]).key) by {
            assert(rest[i] == members[i + 1] && rest[j] == members[j + 1]);
        }
        assert forall|i: int| 0 <= i < rest.len() implies letters((#[trigger] rest[i]).key)
            != letters(first.key) by {
            assert(rest[i] == members[i + 1]);
            assert(letters(members[0].key) != letters(members[i + 1].key));
        }
        let before = white + first.before;
        assert forall|i: int| 0 <= i < before.len() implies {
            ||| #[trigger] before[i] == 32
            ||| before[i] == 9
            ||| before[i] == 10
            ||| before[i] == 13
        } by {
            if i < white.len() {
                assert(before[i] == white[i]);
            } else {
                assert(before[i] == first.before[i - white.len()]);
            }
        }
        let x = Member { before, ..first };
        lemma_members_cons(first, rest);
        lemma_members_cons(x, rest);
        let all = seq![x] + rest;
        let none_blank: Seq<u8> = seq![];
        let d = Doc::Obj { blank: none_blank, members: all };
        assert(none + member_meanings(members) =~= member_meanings(members));
        let tail = write_string(x.key) + (x.middle + (seq![58u8] + (x.between + (json_laws::write(
            x.value,
        ) + (x.after + (if rest.len() > 0 {
            seq![44u8]
        } else {
            seq![125u8]
        } + write_members(rest, 0)))))));
        assert(write_members(members, 0) == first.before + tail);
        assert(write_members(all, 0) == before + tail);
        assert(before + tail =~= white + (first.before + tail));
        lemma_cut(b, p, p + 1, r);
        lemma_cut(b, p + 1, q, r);
        assert(b.subrange(p, r) == open + write_members(all, 0));
        d
    }
}

proof fn lemma_member_cut(
    b: Seq<u8>,
    p: int,
    s: int,
    k: int,
    colon: int,
    from: int,
    r: int,
    next: int,
    q: int,
)
    requires
        0 <= p <= s <= k <= colon < from <= r <= next < q <= b.len(),
    ensures
        b.subrange(p, q) == b.subrange(p, s) + (b.subrange(s, k) + (b.subrange(k, colon) + (
        b.subrange(colon, colon + 1) + (b.subrange(colon + 1, from) + (b.subrange(from, r) + (
        b.subrange(r, next) + (b.subrange(next, next + 1) + b.subrange(next + 1, q)))))))),
{
    lemma_cut(b, p, s, q);
    lemma_cut(b, s, k, q);
    lemma_cut(b, k, colon, q);
    lemma_cut(b, colon, colon + 1, q);
    lemma_cut(b, colon + 1, from, q);
    lemma_cut(b, from, r, q);
    lemma_cut(b, r, next, q);
    lemma_cut(b, next, next + 1, q);
}

/// What the first step of reading members finds, and where it goes on.
proof fn lemma_member_step(b: Seq<u8>, p: int, done: Seq<(Seq<char>, Json)>)
    requires
        0 <= p <= b.len(),
        json::members(b, p, done) is Ok,
    ensures
        json::string_at(b, json::skip(b, p)) is Ok,
        ({
            let (name, k) = json::string_at(b, json::skip(b, p))->Ok_0;
            let colon = json::skip(b, k);
            &&& json::key_place(done, name) is None
            &&& json::byte_at(b, colon, 58)
            &&& json::value_at(b, colon + 1) is Ok
            &&& ({
                let (v, r) = json::value_at(b, colon + 1)->Ok_0;
                let next = json::skip(b, r);
                if json::byte_at(b, next, 44) && p < next {
                    json::members(b, p, done) == json::members(b, next + 1, done.push((name, v)))
                } else {
                    &&& json::byte_at(b, next, 125)
                    &&& json::members(b, p, done)->Ok_0 == (done.push((name, v)), next + 1)
                }
            })
        }),
{
}

/// The members behind a first one, if there are any, and what stands before them.
spec fn goes_on(
    b: Seq<u8>,
    p: int,
    done: Seq<(Seq<char>, Json)>,
    members: Seq<Member>,
    all: Seq<(Seq<char>, Json)>,
    q: int,
) -> bool {
    &&& are_writable_members(members)
    &&& forall|i: int, j: int|
        0 <= i < done.len() && 0 <= j < members.len() ==> (#[trigger] done[i]).0 != letters(
            (#[trigger] members[j]).key,
        )
    &&& all == done + member_meanings(members)
    &&& 0 <= p <= q <= b.len()
    &&& b.subrange(p, q) == write_members(members, 0)
}

#[verifier::spinoff_prover]
proof fn lemma_goes_on(
    b: Seq<u8>,
    p: int,
    q: int,
    done: Seq<(Seq<char>, Json)>,
    all: Seq<(Seq<char>, Json)>,
    x: Member,
    rest: Seq<Member>,
    next: int,
)
    requires
        ({
            let s = p + x.before.len();
            let k = s + write_string(x.key).len();
            let colon = k + x.middle.len();
            let from = colon + 1 + x.between.len();
            let r = from + json_laws::write(x.value).len();
            &&& next == r + x.after.len()
            &&& 0 <= p
            &&& next < q <= b.len()
            &&& b.subrange(p, s) == x.before
            &&& b.subrange(s, k) == write_string(x.key)
            &&& b.subrange(k, colon) == x.middle
            &&& b[colon] == 58
            &&& b.subrange(colon + 1, from) == x.between
            &&& b.subrange(from, r) == json_laws::write(x.value)
            &&& b.subrange(r, next) == x.after
        }),
        b[next] == (if rest.len() > 0 {
            44u8
        } else {
            125u8
        }),
        is_white(x.before),
        is_white(x.middle),
        is_white(x.between),
        is_white(x.after),
        are_letters(x.key),
        is_writable(x.value),
        forall|i: int| 0 <= i < done.len() ==> (#[trigger] done[i]).0 != letters(x.key),
        goes_on(b, next + 1, done.push((letters(x.key), meaning(x.value))), rest, all, q),
    ensures
        goes_on(b, p, done, seq![x] + rest, all, q),
{
    let s = (p + x.before.len()) as int;
    let k = (s + write_string(x.key).len()) as int;
    let colon = (k + x.middle.len()) as int;
    let from = (colon + 1 + x.between.len()) as int;
    let r = (from + json_laws::write(x.value).len()) as int;
    let pair = (letters(x.key), meaning(x.value));
    let longer = done.push(pair);
    assert forall|i: int| 0 <= i < rest.len() implies letters((#[trigger] rest[i]).key) != letters(
        x.key,
    ) by {
        assert(longer[done.len() as int].0 == letters(x.key));
    }
    lemma_members_cons(x, rest);
    let members = seq![x] + rest;
    assert forall|i: int, j: int| 0 <= i < done.len() && 0 <= j < members.len() implies (
    #[trigger] done[i]).0 != letters((#[trigger] members[j]).key) by {
        if j > 0 {
            assert(members[j] == rest[j - 1]);
            assert(longer[i] == done[i]);
        }
    }
    let mark: Seq<u8> = if rest.len() > 0 {
        seq![44u8]
    } else {
        seq![125u8]
    };
    assert(b.subrange(next, next + 1) =~= mark);
    assert(b.subrange(colon, colon + 1) =~= seq![58u8]);
    lemma_member_cut(b, p, s, k, colon, from, r, next, q);
    assert(done + (seq![pair] + member_meanings(rest)) =~= longer + member_meanings(rest));
}

#[verifier::spinoff_prover]
proof fn read_members(b: Seq<u8>, p: int, done: Seq<(Seq<char>, Json)>) -> (members: Seq<Member>)
    requires
        0 <= p <= b.len(),
        json::members(b, p, done) is Ok,
    ensures
        ({
            let (all, q) = json::members(b, p, done)->Ok_0;
            &&& members.len() > 0
            &&& are_writable_members(members)
            &&& forall|i: int, j: int|
                0 <= i < done.len() && 0 <= j < members.len() ==> (#[trigger] done[i]).0 != letters(
                    (#[trigger] members[j]).key,
                )
            &&& all == done + member_meanings(members)
            &&& p < q <= b.len()
            &&& b.subrange(p, q) == write_members(members, 0)
        }),
    decreases b.len() - p, 3int,
{
    let (all, q) = json::members(b, p, done)->Ok_0;
    let s = json::skip(b, p);
    lemma_member_step(b, p, done);
    lemma_skipped(b, p);
    let key = read_string(b, s);
    let (name, k) = json::string_at(b, s)->Ok_0;
    json_laws::lemma_first_member_counts(done, name);
    let colon = json::skip(b, k);
    lemma_skipped(b, k);
    let from = json::skip(b, colon + 1);
    lemma_skipped(b, colon + 1);
    let value = read_value(b, colon + 1);
    let (v, r) = json::value_at(b, colon + 1)->Ok_0;
    let next = json::skip(b, r);
    lemma_skipped(b, r);
    let x = Member {
        before: b.subrange(p, s),
        key,
        middle: b.subrange(k, colon),
        between: b.subrange(colon + 1, from),
        value,
        after: b.subrange(r, next),
    };
    let more = json::byte_at(b, next, 44) && p < next;
    let longer = done.push((name, v));
    let rest: Seq<Member> = if more {
        read_members(b, next + 1, longer)
    } else {
        seq![]
    };
    assert forall|i: int| 0 <= i < done.len() implies (#[trigger] done[i]).0 != letters(x.key) by {
    }
    if !more {
        assert(longer + member_meanings(rest) =~= longer);
        assert(b.subrange(next + 1, q) =~= write_members(rest, 0));
    }
    assert(goes_on(b, next + 1, longer, rest, all, q));
    lemma_goes_on(b, p, q, done, all, x, rest, next);
    seq![x] + rest
}

/// The bytes are the writing of a document, with white space before and behind it.
pub open spec fn is_text_of(b: Seq<u8>, before: Seq<u8>, d: Doc, after: Seq<u8>) -> bool {
    &&& is_white(before)
    &&& is_white(after)
    &&& is_writable(d)
    &&& b == before + json_laws::write(d) + after
}

/// A text is read as a value exactly if it is the writing of a document that stands for that value,
/// with nothing but white space before and behind it. Every other text is refused.
pub proof fn lemma_which_texts_are_read(b: Seq<u8>, v: Json)
    ensures
        json::document(b) == Ok::<Json, Seq<char>>(v) <==> exists|
            before: Seq<u8>,
            d: Doc,
            after: Seq<u8>,
        | #[trigger]
            is_text_of(b, before, d, after) && meaning(d) == v,
{
    if json::document(b) == Ok::<Json, Seq<char>>(v) {
        let p = json::skip(b, 0);
        lemma_skipped(b, 0);
        let d = read_value(b, p);
        let (w, r) = json::value_at(b, p)->Ok_0;
        lemma_skipped(b, r);
        let before = b.subrange(0, p);
        let after = b.subrange(r, b.len() as int);
        lemma_cut(b, 0, p, r);
        lemma_cut(b, 0, r, b.len() as int);
        assert(b.subrange(0, b.len() as int) =~= b);
        assert(is_text_of(b, before, d, after));
    }
    if exists|before: Seq<u8>, d: Doc, after: Seq<u8>| #[trigger]
        is_text_of(b, before, d, after) && meaning(d) == v {
        let (before, d, after) = choose|before: Seq<u8>, d: Doc, after: Seq<u8>| #[trigger]
            is_text_of(b, before, d, after) && meaning(d) == v;
        json_laws::lemma_documents_are_read(before, d, after);
    }
}

}
