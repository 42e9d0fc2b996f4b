//! What the built-in patterns find: numbers, e-mail addresses and tokens, said in bytes.

use crate::engine;
use crate::matching;
use crate::pattern_laws;
use crate::pattern_laws::{Amount, Pat, SetChar};
use crate::rule_laws;
use crate::rules;
use crate::rules::{CustomRange, Rule};
use crate::text;
use vstd::prelude::*;
use vstd::utf8::*;

verus! {

broadcast use vstd::seq::group_seq_axioms;

spec fn plain(c: char) -> SetChar {
    SetChar { c, escaped: false }
}

spec fn single(c: char) -> (SetChar, Option<SetChar>) {
    (plain(c), None)
}

spec fn range(lo: char, hi: char) -> (SetChar, Option<SetChar>) {
    (plain(lo), Some(plain(hi)))
}

/// An ASCII character stands at a place exactly if its byte stands there.
proof fn lemma_ascii_at(b: Seq<u8>, i: int, c: char)
    requires
        c <= '\u{7f}',
    ensures
        text::char_at(b, i) == Some(c) <==> 0 <= i < b.len() && b[i] == c as u8,
        text::width(c) == 1,
{
    assert(encode_scalar(c as u32) =~= seq![c as u8]) by {
        text::lemma_encode_one(c);
        text::lemma_encode_ascii(seq![c], seq![c as u8]);
    }
    if text::char_at(b, i) == Some(c) {
        text::lemma_char_at_width(b, i);
        assert(b.subrange(i, i + 1)[0] == c as u8);
    }
    if 0 <= i < b.len() && b[i] == c as u8 {
        let front = b.take(i);
        let back = b.skip(i + 1);
        assert(b =~= front + encode_scalar(c as u32) + back);
        text::lemma_char_at_encoded(front, c, back);
    }
}

proof fn lemma_small_char(c: char)
    requires
        c <= '\u{7f}',
    ensures
        (c as u8) as char == c,
        (c as u8) as int == c as int,
{
}

/// A pattern stands for one byte that passes the test.
spec fn is_byte_test(p: Pat, test: spec_fn(u8) -> bool) -> bool {
    forall|b: Seq<u8>, i: int, j: int| #[trigger]
        pattern_laws::means(p, b, i, j) <==> 0 <= i < b.len() && j == i + 1 && test(b[i])
}

proof fn lemma_byte_test(p: Pat, test: spec_fn(u8) -> bool, b: Seq<u8>, i: int, j: int)
    requires
        p is Plain || p is Escape || p is OneOf,
        forall|c: char|
            !(c <= '\u{7f}') ==> !(#[trigger] stands_for(p, c)),
        forall|c: char| c <= '\u{7f}' ==> (#[trigger] stands_for(p, c) <==> test(c as u8)),
        forall|x: u8| #[trigger] test(x) ==> x < 0x80,
    ensures
        pattern_laws::means(p, b, i, j) <==> 0 <= i < b.len() && j == i + 1 && test(b[i]),
{
    match text::char_at(b, i) {
        Some(c) => {
            if c <= '\u{7f}' {
                lemma_ascii_at(b, i, c);
                assert(stands_for(p, c) <==> test(c as u8));
            } else {
                assert(!stands_for(p, c));
                if 0 <= i < b.len() && b[i] < 0x80 {
                    lemma_ascii_at(b, i, b[i] as char);
                }
            }
        },
        None => {
            if 0 <= i < b.len() && b[i] < 0x80 {
                lemma_ascii_at(b, i, b[i] as char);
            }
        },
    }
}

/// The pattern for a single character stands for `c`.
spec fn stands_for(p: Pat, c: char) -> bool {
    match p {
        Pat::Plain(l) => c == l,
        Pat::Escape(e) => pattern_laws::escape_means(e, c),
        Pat::OneOf { negated, parts, dash } => if negated {
            !pattern_laws::set_means(parts, dash, c)
        } else {
            pattern_laws::set_means(parts, dash, c)
        },
        _ => false,
    }
}

/// A byte test so many times over is so many bytes that pass it.
proof fn lemma_run(p: Pat, test: spec_fn(u8) -> bool, n: int, b: Seq<u8>, i: int, j: int)
    requires
        is_byte_test(p, test),
        n >= 0,
    ensures
        pattern_laws::means_times(p, n, b, i, j) <==> j == i + n && (n > 0 ==> 0 <= i && j
            <= b.len()) && forall|k: int| i <= k < j ==> test(#[trigger] b[k]),
    decreases n,
{
    if n > 0 {
        if pattern_laws::means_times(p, n, b, i, j) {
            let m = choose|m: int| #[trigger]
                pattern_laws::spot(m) && pattern_laws::means_times(p, n - 1, b, i, m)
                    && pattern_laws::means(p, b, m, j);
            lemma_run(p, test, n - 1, b, i, m);
        }
        if j == i + n && 0 <= i && j <= b.len() && (forall|k: int|
            i <= k < j ==> test(#[trigger] b[k])) {
            lemma_run(p, test, n - 1, b, i, j - 1);
            assert(test(b[j - 1]));
            assert(pattern_laws::means(p, b, j - 1, j));
            assert(pattern_laws::spot(j - 1));
        }
    }
}

/// All bytes from `i` to `j` pass the test, and they lie in the text.
pub open spec fn all_bytes(b: Seq<u8>, i: int, j: int, test: spec_fn(u8) -> bool) -> bool {
    0 <= i <= j <= b.len() && forall|k: int| i <= k < j ==> test(#[trigger] b[k])
}

/// The digits from `0` to `9`.
pub open spec fn digit_byte() -> spec_fn(u8) -> bool {
    |x: u8| 48 <= x <= 57
}

/// What may stand before the `@` of an e-mail address: letters, digits and `._%+-`.
pub open spec fn local_byte() -> spec_fn(u8) -> bool {
    |x: u8|
        97 <= x <= 122 || 65 <= x <= 90 || 48 <= x <= 57 || x == 46 || x == 95 || x == 37 || x == 43
            || x == 45
}

/// What may stand behind the `@` of an e-mail address: letters, digits, points and hyphens.
pub open spec fn domain_byte() -> spec_fn(u8) -> bool {
    |x: u8| 97 <= x <= 122 || 65 <= x <= 90 || 48 <= x <= 57 || x == 46 || x == 45
}

/// What the body of a token is written in: digits and the letters from `a` to `v`.
pub open spec fn body_byte() -> spec_fn(u8) -> bool {
    |x: u8| 48 <= x <= 57 || 97 <= x <= 118
}

spec fn digit_set() -> Pat {
    Pat::OneOf { negated: false, parts: seq![range('0', '9')], dash: false }
}

spec fn number_pattern() -> Seq<Seq<Pat>> {
    seq![
        seq![
            Pat::Times { of: Box::new(digit_set()), amount: Amount::AtLeast(4), lazy: false },
        ],
    ]
}

proof fn lemma_digit_set()
    ensures
        is_byte_test(digit_set(), digit_byte()),
        pattern_laws::is_writable(digit_set()),
        pattern_laws::write(digit_set()) == seq!['[', '0', '-', '9', ']'],
{
    let p = digit_set();
    let parts = seq![range('0', '9')];
    assert forall|c: char| (#[trigger] stands_for(p, c)) <==> '0' <= c <= '9' by {
        if '0' <= c <= '9' {
            assert(pattern_laws::set_char(parts[0].0) <= c);
        }
    }
    assert forall|c: char| c <= '\u{7f}' implies (#[trigger] stands_for(p, c) <==> digit_byte()(
        c as u8,
    )) by {
        lemma_small_char(c);
    }
    assert forall|b: Seq<u8>, i: int, j: int| #[trigger]
        pattern_laws::means(p, b, i, j) <==> 0 <= i < b.len() && j == i + 1 && digit_byte()(
            b[i],
        ) by {
        lemma_byte_test(p, digit_byte(), b, i, j);
    }
    reveal_with_fuel(pattern_laws::write_parts, 3);
    assert(pattern_laws::write(p) =~= seq!['[', '0', '-', '9', ']']);
}

proof fn lemma_small_numbers()
    ensures
        text::dec(4) == seq!['4'],
        text::dec(24) == seq!['2', '4'],
{
    reveal_with_fuel(text::dec, 3);
    assert(text::dec(4) =~= seq!['4']);
    assert(text::dec(24) =~= seq!['2', '4']);
}

proof fn lemma_one_line(ps: Seq<Pat>)
    requires
        pattern_laws::is_writable_seq(ps),
    ensures
        pattern_laws::are_writable(seq![ps]),
        pattern_laws::write_pattern(seq![ps]) == pattern_laws::write_seq(ps, 0),
        forall|b: Seq<u8>, i: int, j: int| #[trigger]
            pattern_laws::means_one_of(seq![ps], b, i, j) <==> pattern_laws::means_seq(
                ps,
                ps.len() as int,
                b,
                i,
                j,
            ),
{
    let all = seq![ps];
    let none: Seq<char> = seq![];
    assert(all[0] == ps);
    assert(pattern_laws::write_alts(all, 1) =~= none);
    assert(pattern_laws::write_alts(all, 0) =~= none + (pattern_laws::write_seq(ps, 0) + none));
    assert(pattern_laws::write_alts(all, 0) =~= pattern_laws::write_seq(ps, 0));
    assert forall|k: int| 0 <= k < all.len() implies pattern_laws::is_writable_seq(
        #[trigger] all[k],
    ) by {}
    assert forall|b: Seq<u8>, i: int, j: int| #[trigger]
        pattern_laws::means_one_of(all, b, i, j) <==> pattern_laws::means_seq(
            ps,
            ps.len() as int,
            b,
            i,
            j,
        ) by {
        if pattern_laws::means_seq(ps, ps.len() as int, b, i, j) {
            assert(pattern_laws::spot(0));
        }
    }
}

proof fn lemma_number_text()
    ensures
        pattern_laws::are_writable(number_pattern()),
        pattern_laws::write_pattern(number_pattern()) == "[0-9]{4,}"@,
{
    let ps = number_pattern()[0];
    lemma_digit_set();
    lemma_small_numbers();
    assert(pattern_laws::is_writable(ps[0]));
    assert(pattern_laws::is_writable_seq(ps));
    lemma_one_line(ps);
    assert(number_pattern() =~= seq![ps]);
    reveal_strlit("[0-9]{4,}");
    assert(pattern_laws::write_seq(ps, 1) =~= seq![]);
    assert(pattern_laws::write(ps[0]) =~= seq!['[', '0', '-', '9', ']', '{', '4', ',', '}']);
    assert(pattern_laws::write_seq(ps, 0) =~= "[0-9]{4,}"@);
}

/// The pattern of numbers matches runs of four or more digits, and nothing else.
pub proof fn lemma_numbers(b: Seq<u8>, i: int, j: int)
    ensures
        engine::pattern("[0-9]{4,}"@) is Ok,
        matching::matches(engine::pattern("[0-9]{4,}"@)->Ok_0, b, i, j) <==> j - i >= 4 && all_bytes(
            b,
            i,
            j,
            digit_byte(),
        ),
{
    let ps = number_pattern()[0];
    let p = digit_set();
    lemma_number_text();
    lemma_digit_set();
    pattern_laws::lemma_patterns_mean_what_they_say(number_pattern(), b, i, j);
    assert(pattern_laws::is_writable_seq(ps));
    lemma_one_line(ps);
    assert(number_pattern() =~= seq![ps]);
    assert(pattern_laws::means_one_of(number_pattern(), b, i, j) <==> pattern_laws::means_seq(
        ps,
        1,
        b,
        i,
        j,
    ));
    if pattern_laws::means_seq(ps, 1, b, i, j) {
        let m = choose|m: int| #[trigger]
            pattern_laws::spot(m) && pattern_laws::means_seq(ps, 0, b, i, m) && pattern_laws::means(
                ps[0],
                b,
                m,
                j,
            );
        let n = choose|n: int| #[trigger]
            pattern_laws::spot(n) && pattern_laws::allows(Amount::AtLeast(4), n)
                && pattern_laws::means_times(p, n, b, i, j);
        lemma_run(p, digit_byte(), n, b, i, j);
    }
    if j - i >= 4 && all_bytes(b, i, j, digit_byte()) {
        let n = j - i;
        lemma_run(p, digit_byte(), n, b, i, j);
        assert(pattern_laws::spot(n) && pattern_laws::allows(Amount::AtLeast(4), n));
        assert(pattern_laws::means(ps[0], b, i, j));
        assert(pattern_laws::spot(i) && pattern_laws::means_seq(ps, 0, b, i, i));
    }
}

proof fn lemma_byte_set(p: Pat, test: spec_fn(u8) -> bool)
    requires
        p is Plain || p is Escape || p is OneOf,
        forall|c: char| !(c <= '\u{7f}') ==> !(#[trigger] stands_for(p, c)),
        forall|c: char| c <= '\u{7f}' ==> (#[trigger] stands_for(p, c) <==> test(c as u8)),
        forall|x: u8| #[trigger] test(x) ==> x < 0x80,
    ensures
        is_byte_test(p, test),
{
    assert forall|b: Seq<u8>, i: int, j: int| #[trigger]
        pattern_laws::means(p, b, i, j) <==> 0 <= i < b.len() && j == i + 1 && test(b[i]) by {
        lemma_byte_test(p, test, b, i, j);
    }
}

spec fn local_parts() -> Seq<(SetChar, Option<SetChar>)> {
    seq![
        range('a', 'z'),
        range('A', 'Z'),
        range('0', '9'),
        single('.'),
        single('_'),
        single('%'),
        single('+'),
    ]
}

spec fn domain_parts() -> Seq<(SetChar, Option<SetChar>)> {
    seq![range('a', 'z'), range('A', 'Z'), range('0', '9'), single('.')]
}

spec fn body_parts() -> Seq<(SetChar, Option<SetChar>)> {
    seq![range('0', '9'), range('a', 'v')]
}

spec fn local_set() -> Pat {
    Pat::OneOf { negated: false, parts: local_parts(), dash: true }
}

spec fn domain_set() -> Pat {
    Pat::OneOf { negated: false, parts: domain_parts(), dash: true }
}

spec fn body_set() -> Pat {
    Pat::OneOf { negated: false, parts: body_parts(), dash: false }
}

proof fn lemma_local_char(c: char)
    ensures
        stands_for(local_set(), c) <==> ('a' <= c <= 'z' || 'A' <= c <= 'Z' || '0' <= c <= '9' || c
            == '.' || c == '_' || c == '%' || c == '+' || c == '-'),
        c <= '\u{7f}' ==> (stands_for(local_set(), c) <==> local_byte()(c as u8)),
{
    let parts = local_parts();
    if 'a' <= c <= 'z' {
        assert(pattern_laws::set_char(parts[0].0) <= c);
    } else if 'A' <= c <= 'Z' {
        assert(pattern_laws::set_char(parts[1].0) <= c);
    } else if '0' <= c <= '9' {
        assert(pattern_laws::set_char(parts[2].0) <= c);
    } else if c == '.' {
        assert(pattern_laws::set_char(parts[3].0) <= c);
    } else if c == '_' {
        assert(pattern_laws::set_char(parts[4].0) <= c);
    } else if c == '%' {
        assert(pattern_laws::set_char(parts[5].0) <= c);
    } else if c == '+' {
        assert(pattern_laws::set_char(parts[6].0) <= c);
    }
}

proof fn lemma_domain_char(c: char)
    ensures
        stands_for(domain_set(), c) <==> ('a' <= c <= 'z' || 'A' <= c <= 'Z' || '0' <= c <= '9' || c
            == '.' || c == '-'),
        c <= '\u{7f}' ==> (stands_for(domain_set(), c) <==> domain_byte()(c as u8)),
{
    let parts = domain_parts();
    if 'a' <= c <= 'z' {
        assert(pattern_laws::set_char(parts[0].0) <= c);
    } else if 'A' <= c <= 'Z' {
        assert(pattern_laws::set_char(parts[1].0) <= c);
    } else if '0' <= c <= '9' {
        assert(pattern_laws::set_char(parts[2].0) <= c);
    } else if c == '.' {
        assert(pattern_laws::set_char(parts[3].0) <= c);
    }
}

proof fn lemma_body_char(c: char)
    ensures
        stands_for(body_set(), c) <==> ('0' <= c <= '9' || 'a' <= c <= 'v'),
        c <= '\u{7f}' ==> (stands_for(body_set(), c) <==> body_byte()(c as u8)),
{
    let parts = body_parts();
    if '0' <= c <= '9' {
        assert(pattern_laws::set_char(parts[0].0) <= c);
    } else if 'a' <= c <= 'v' {
        assert(pattern_laws::set_char(parts[1].0) <= c);
    }
}

proof fn lemma_local_set()
    ensures
        is_byte_test(local_set(), local_byte()),
        pattern_laws::is_writable(local_set()),
        pattern_laws::write(local_set()) == seq![
            '[', 'a', '-', 'z', 'A', '-', 'Z', '0', '-', '9', '.', '_', '%', '+', '-', ']',
        ],
{
    assert forall|c: char| !(c <= '\u{7f}') implies !(#[trigger] stands_for(local_set(), c)) by {
        lemma_local_char(c);
    }
    assert forall|c: char| c <= '\u{7f}' implies (#[trigger] stands_for(local_set(), c)
        <==> local_byte()(c as u8)) by {
        lemma_local_char(c);
    }
    lemma_byte_set(local_set(), local_byte());
    reveal_with_fuel(pattern_laws::write_parts, 9);
    assert(pattern_laws::write(local_set()) =~= seq![
        '[', 'a', '-', 'z', 'A', '-', 'Z', '0', '-', '9', '.', '_', '%', '+', '-', ']',
    ]);
}

proof fn lemma_domain_set()
    ensures
        is_byte_test(domain_set(), domain_byte()),
        pattern_laws::is_writable(domain_set()),
        pattern_laws::write(domain_set()) == seq![
            '[', 'a', '-', 'z', 'A', '-', 'Z', '0', '-', '9', '.', '-', ']',
        ],
{
    assert forall|c: char| !(c <= '\u{7f}') implies !(#[trigger] stands_for(domain_set(), c)) by {
        lemma_domain_char(c);
    }
    assert forall|c: char| c <= '\u{7f}' implies (#[trigger] stands_for(domain_set(), c)
        <==> domain_byte()(c as u8)) by {
        lemma_domain_char(c);
    }
    lemma_byte_set(domain_set(), domain_byte());
    reveal_with_fuel(pattern_laws::write_parts, 6);
    assert(pattern_laws::write(domain_set()) =~= seq![
        '[', 'a', '-', 'z', 'A', '-', 'Z', '0', '-', '9', '.', '-', ']',
    ]);
}

proof fn lemma_body_set()
    ensures
        is_byte_test(body_set(), body_byte()),
        pattern_laws::is_writable(body_set()),
        pattern_laws::write(body_set()) == seq!['[', '0', '-', '9', 'a', '-', 'v', ']'],
{
    assert forall|c: char| !(c <= '\u{7f}') implies !(#[trigger] stands_for(body_set(), c)) by {
        lemma_body_char(c);
    }
    assert forall|c: char| c <= '\u{7f}' implies (#[trigger] stands_for(body_set(), c)
        <==> body_byte()(c as u8)) by {
        lemma_body_char(c);
    }
    lemma_byte_set(body_set(), body_byte());
    reveal_with_fuel(pattern_laws::write_parts, 4);
    assert(pattern_laws::write(body_set()) =~= seq!['[', '0', '-', '9', 'a', '-', 'v', ']']);
}

/// A set of bytes one or more times over is one or more of these bytes.
proof fn lemma_some_of(p: Pat, test: spec_fn(u8) -> bool, b: Seq<u8>, i: int, j: int)
    requires
        is_byte_test(p, test),
    ensures
        pattern_laws::means(
            Pat::Times { of: Box::new(p), amount: Amount::Plus, lazy: false },
            b,
            i,
            j,
        ) <==> i < j && all_bytes(b, i, j, test),
{
    let t = Pat::Times { of: Box::new(p), amount: Amount::Plus, lazy: false };
    if pattern_laws::means(t, b, i, j) {
        let n = choose|n: int| #[trigger]
            pattern_laws::spot(n) && pattern_laws::allows(Amount::Plus, n)
                && pattern_laws::means_times(p, n, b, i, j);
        lemma_run(p, test, n, b, i, j);
    }
    if i < j && all_bytes(b, i, j, test) {
        lemma_run(p, test, j - i, b, i, j);
        assert(pattern_laws::spot(j - i) && pattern_laws::allows(Amount::Plus, j - i));
    }
}

proof fn lemma_literal_byte(l: char, b: Seq<u8>, i: int, j: int)
    requires
        l <= '\u{7f}',
    ensures
        pattern_laws::means(Pat::Plain(l), b, i, j) <==> 0 <= i < b.len() && j == i + 1 && b[i]
            == l as u8,
{
    match text::char_at(b, i) {
        Some(c) => {
            lemma_ascii_at(b, i, l);
        },
        None => {
            lemma_ascii_at(b, i, l);
        },
    }
}

spec fn email_line() -> Seq<Pat> {
    seq![
        Pat::Times { of: Box::new(local_set()), amount: Amount::Plus, lazy: false },
        Pat::Plain('@'),
        Pat::Times { of: Box::new(domain_set()), amount: Amount::Plus, lazy: false },
    ]
}

proof fn lemma_email_text()
    ensures
        pattern_laws::is_writable_seq(email_line()),
        pattern_laws::write_seq(email_line(), 0) == "[a-zA-Z0-9._%+-]+@[a-zA-Z0-9.-]+"@,
{
    let ps = email_line();
    lemma_local_set();
    lemma_domain_set();
    assert(pattern_laws::is_writable(ps[0]));
    assert(pattern_laws::is_writable(ps[1]));
    assert(pattern_laws::is_writable(ps[2]));
    assert(pattern_laws::is_writable_seq(ps));
    let a = pattern_laws::write(ps[0]);
    let c = pattern_laws::write(ps[2]);
    assert(a =~= seq![
        '[', 'a', '-', 'z', 'A', '-', 'Z', '0', '-', '9', '.', '_', '%', '+', '-', ']', '+',
    ]);
    assert(c =~= seq!['[', 'a', '-', 'z', 'A', '-', 'Z', '0', '-', '9', '.', '-', ']', '+']);
    assert(pattern_laws::write_seq(ps, 3) =~= seq![]);
    assert(pattern_laws::write_seq(ps, 2) =~= c);
    assert(pattern_laws::write(ps[1]) =~= seq!['@']);
    assert(pattern_laws::write_seq(ps, 1) =~= seq!['@'] + c);
    assert(pattern_laws::write_seq(ps, 0) =~= a + (seq!['@'] + c));
    reveal_strlit("[a-zA-Z0-9._%+-]+@[a-zA-Z0-9.-]+");
    assert(a + (seq!['@'] + c) =~= "[a-zA-Z0-9._%+-]+@[a-zA-Z0-9.-]+"@);
}

/// An at sign stands at `m`, with bytes of a local part from `i` on before it and bytes of a
/// domain up to `j` behind it, at least one of each.
pub open spec fn is_address_around(b: Seq<u8>, i: int, m: int, j: int) -> bool {
    &&& i < m < j - 1
    &&& all_bytes(b, i, m, local_byte())
    &&& b[m] == 64
    &&& all_bytes(b, m + 1, j, domain_byte())
}

/// The pattern of e-mail addresses matches a local part, an at sign and a domain.
pub proof fn lemma_addresses(b: Seq<u8>, i: int, j: int)
    ensures
        engine::pattern("[a-zA-Z0-9._%+-]+@[a-zA-Z0-9.-]+"@) is Ok,
        matching::matches(
            engine::pattern("[a-zA-Z0-9._%+-]+@[a-zA-Z0-9.-]+"@)->Ok_0,
            b,
            i,
            j,
        ) <==> exists|m: int| #[trigger] is_address_around(b, i, m, j),
{
    let ps = email_line();
    let all = seq![ps];
    lemma_email_text();
    lemma_one_line(ps);
    lemma_local_set();
    lemma_domain_set();
    pattern_laws::lemma_patterns_mean_what_they_say(all, b, i, j);
    assert(pattern_laws::means_one_of(all, b, i, j) <==> pattern_laws::means_seq(ps, 3, b, i, j));
    if pattern_laws::means_seq(ps, 3, b, i, j) {
        let x = choose|x: int| #[trigger]
            pattern_laws::spot(x) && pattern_laws::means_seq(ps, 2, b, i, x) && pattern_laws::means(
                ps[2],
                b,
                x,
                j,
            );
        let y = choose|y: int| #[trigger]
            pattern_laws::spot(y) && pattern_laws::means_seq(ps, 1, b, i, y) && pattern_laws::means(
                ps[1],
                b,
                y,
                x,
            );
        let z = choose|z: int| #[trigger]
            pattern_laws::spot(z) && pattern_laws::means_seq(ps, 0, b, i, z) && pattern_laws::means(
                ps[0],
                b,
                z,
                y,
            );
        assert(z == i);
        lemma_some_of(local_set(), local_byte(), b, i, y);
        lemma_some_of(domain_set(), domain_byte(), b, x, j);
        lemma_literal_byte('@', b, y, x);
        assert(is_address_around(b, i, y, j));
    }
    if exists|m: int| #[trigger] is_address_around(b, i, m, j) {
        let m = choose|m: int| #[trigger] is_address_around(b, i, m, j);
        lemma_some_of(local_set(), local_byte(), b, i, m);
        lemma_some_of(domain_set(), domain_byte(), b, m + 1, j);
        lemma_literal_byte('@', b, m, m + 1);
        assert(pattern_laws::spot(i) && pattern_laws::means_seq(ps, 0, b, i, i));
        assert(pattern_laws::means_seq(ps, 1, b, i, m));
        assert(pattern_laws::spot(m));
        assert(pattern_laws::means_seq(ps, 2, b, i, m + 1));
        assert(pattern_laws::spot(m + 1));
        assert(pattern_laws::means_seq(ps, 3, b, i, j));
    }
}

spec fn token_line() -> Seq<Pat> {
    seq![
        Pat::Plain('T'),
        Pat::Plain('O'),
        Pat::Plain('K'),
        Pat::Escape('.'),
        Pat::Times { of: Box::new(body_set()), amount: Amount::Exactly(24), lazy: false },
    ]
}

proof fn lemma_step(ps: Seq<Pat>, k: int, w: Seq<char>, rest: Seq<char>)
    requires
        0 <= k < ps.len(),
        pattern_laws::write(ps[k]) == w,
        pattern_laws::write_seq(ps, k + 1) == rest,
    ensures
        pattern_laws::write_seq(ps, k) == w + rest,
{
}

proof fn lemma_body_text()
    ensures
        pattern_laws::is_writable(token_line()[4]),
        pattern_laws::write(token_line()[4]) == seq![
            '[', '0', '-', '9', 'a', '-', 'v', ']', '{', '2', '4', '}',
        ],
{
    lemma_body_set();
    lemma_small_numbers();
    assert(pattern_laws::write(token_line()[4]) =~= seq![
        '[', '0', '-', '9', 'a', '-', 'v', ']', '{', '2', '4', '}',
    ]);
}

proof fn lemma_token_line_is_writable()
    ensures
        pattern_laws::is_writable_seq(token_line()),
{
    let ps = token_line();
    lemma_body_text();
    assert(pattern_laws::is_writable(ps[0]));
    assert(pattern_laws::is_writable(ps[1]));
    assert(pattern_laws::is_writable(ps[2]));
    assert(pattern_laws::is_writable(ps[3]));
}

proof fn lemma_token_text()
    ensures
        pattern_laws::is_writable_seq(token_line()),
        pattern_laws::write_seq(token_line(), 0) == "TOK\\.[0-9a-v]{24}"@,
{
    let ps = token_line();
    let c = seq!['[', '0', '-', '9', 'a', '-', 'v', ']', '{', '2', '4', '}'];
    let none: Seq<char> = seq![];
    lemma_token_line_is_writable();
    lemma_body_text();
    assert(pattern_laws::write_seq(ps, 5) =~= none);
    lemma_step(ps, 4, c, none);
    lemma_step(ps, 3, seq!['\\', '.'], c + none);
    lemma_step(ps, 2, seq!['K'], seq!['\\', '.'] + (c + none));
    lemma_step(ps, 1, seq!['O'], seq!['K'] + (seq!['\\', '.'] + (c + none)));
    lemma_step(ps, 0, seq!['T'], seq!['O'] + (seq!['K'] + (seq!['\\', '.'] + (c + none))));
    lemma_token_letters();
}

proof fn lemma_token_letters()
    ensures
        ({
            let c = seq!['[', '0', '-', '9', 'a', '-', 'v', ']', '{', '2', '4', '}'];
            let none: Seq<char> = seq![];
            seq!['T'] + (seq!['O'] + (seq!['K'] + (seq!['\\', '.'] + (c + none))))
                == "TOK\\.[0-9a-v]{24}"@
        }),
{
    let c = seq!['[', '0', '-', '9', 'a', '-', 'v', ']', '{', '2', '4', '}'];
    let none: Seq<char> = seq![];
    reveal_strlit("TOK\\.[0-9a-v]{24}");
    assert(seq!['T'] + (seq!['O'] + (seq!['K'] + (seq!['\\', '.'] + (c + none))))
        =~= "TOK\\.[0-9a-v]{24}"@);
}

/// The bytes from `i` to `j` are a token: `TOK.` and 24 digits or letters from `a` to `v`.
pub open spec fn is_token(b: Seq<u8>, i: int, j: int) -> bool {
    &&& 0 <= i && j == i + 28 && j <= b.len()
    &&& b[i] == 84 && b[i + 1] == 79 && b[i + 2] == 75 && b[i + 3] == 46
    &&& all_bytes(b, i + 4, j, body_byte())
}

proof fn lemma_point(b: Seq<u8>, i: int, j: int)
    ensures
        pattern_laws::means(Pat::Escape('.'), b, i, j) <==> 0 <= i < b.len() && j == i + 1 && b[i]
            == 46,
{
    lemma_ascii_at(b, i, '.');
}

proof fn lemma_body(b: Seq<u8>, i: int, j: int)
    ensures
        pattern_laws::means(
            Pat::Times { of: Box::new(body_set()), amount: Amount::Exactly(24), lazy: false },
            b,
            i,
            j,
        ) <==> j == i + 24 && all_bytes(b, i, j, body_byte()),
{
    let p = body_set();
    let a = Amount::Exactly(24);
    lemma_body_set();
    lemma_run(p, body_byte(), 24, b, i, j);
    if j == i + 24 && all_bytes(b, i, j, body_byte()) {
        assert(pattern_laws::spot(24) && pattern_laws::allows(a, 24));
    }
}

/// The pattern of tokens matches tokens, and nothing else.
pub proof fn lemma_tokens(b: Seq<u8>, i: int, j: int)
    ensures
        engine::pattern("TOK\\.[0-9a-v]{24}"@) is Ok,
        matching::matches(engine::pattern("TOK\\.[0-9a-v]{24}"@)->Ok_0, b, i, j) <==> is_token(
            b,
            i,
            j,
        ),
{
    let ps = token_line();
    let all = seq![ps];
    lemma_token_text();
    lemma_one_line(ps);
    pattern_laws::lemma_patterns_mean_what_they_say(all, b, i, j);
    assert(pattern_laws::means_one_of(all, b, i, j) <==> pattern_laws::means_seq(ps, 5, b, i, j));
    lemma_literal_byte('T', b, i, i + 1);
    lemma_literal_byte('O', b, i + 1, i + 2);
    lemma_literal_byte('K', b, i + 2, i + 3);
    lemma_point(b, i + 3, i + 4);
    lemma_body(b, i + 4, j);
    if pattern_laws::means_seq(ps, 5, b, i, j) {
        lemma_token_places(b, i, j);
    }
    if is_token(b, i, j) {
        assert(pattern_laws::spot(i) && pattern_laws::means_seq(ps, 0, b, i, i));
        assert(pattern_laws::means_seq(ps, 1, b, i, i + 1));
        assert(pattern_laws::spot(i + 1));
        assert(pattern_laws::means_seq(ps, 2, b, i, i + 2));
        assert(pattern_laws::spot(i + 2));
        assert(pattern_laws::means_seq(ps, 3, b, i, i + 3));
        assert(pattern_laws::spot(i + 3));
        assert(pattern_laws::means_seq(ps, 4, b, i, i + 4));
        assert(pattern_laws::spot(i + 4));
        assert(pattern_laws::means_seq(ps, 5, b, i, j));
    }
}

proof fn lemma_token_places(b: Seq<u8>, i: int, j: int)
    requires
        pattern_laws::means_seq(token_line(), 5, b, i, j),
    ensures
        is_token(b, i, j),
{
    let ps = token_line();
    let v = choose|v: int| #[trigger]
        pattern_laws::spot(v) && pattern_laws::means_seq(ps, 4, b, i, v) && pattern_laws::means(
            ps[4],
            b,
            v,
            j,
        );
    let w = choose|w: int| #[trigger]
        pattern_laws::spot(w) && pattern_laws::means_seq(ps, 3, b, i, w) && pattern_laws::means(
            ps[3],
            b,
            w,
            v,
        );
    let x = choose|x: int| #[trigger]
        pattern_laws::spot(x) && pattern_laws::means_seq(ps, 2, b, i, x) && pattern_laws::means(
            ps[2],
            b,
            x,
            w,
        );
    let y = choose|y: int| #[trigger]
        pattern_laws::spot(y) && pattern_laws::means_seq(ps, 1, b, i, y) && pattern_laws::means(
            ps[1],
            b,
            y,
            x,
        );
    let z = choose|z: int| #[trigger]
        pattern_laws::spot(z) && pattern_laws::means_seq(ps, 0, b, i, z) && pattern_laws::means(
            ps[0],
            b,
            z,
            y,
        );
    assert(z == i);
    lemma_literal_byte('T', b, i, y);
    lemma_literal_byte('O', b, y, x);
    lemma_literal_byte('K', b, x, w);
    lemma_point(b, w, v);
    lemma_body(b, v, j);
}

/// There are candidates exactly if every enabled rule is a range rule or has a pattern that is
/// accepted, and every custom range is one of whole characters of the text and not empty. The
/// patterns of numbers and e-mail addresses are accepted.
pub proof fn lemma_candidates_exist(s: Seq<char>, list: Seq<Rule>, custom: Seq<CustomRange>)
    ensures
        rules::candidates(s, list, custom) is Ok <==> {
            &&& forall|i: int|
                0 <= i < list.len() && (#[trigger] list[i]).enabled ==> list[i].kind@ == "range"@
                    || list[i].kind@ == "email"@ || list[i].kind@ == "number"@ || (list[i].kind@
                    == "pattern"@ && engine::pattern(list[i].pattern@) is Ok)
            &&& forall|k: int|
                0 <= k < custom.len() ==> rule_laws::is_custom_fragment(s, #[trigger] custom[k])
        },
{
    rule_laws::lemma_when_candidates_are_found(s, list, custom);
    lemma_tokens(seq![], 0, 0);
    lemma_numbers(seq![], 0, 0);
    lemma_addresses(seq![], 0, 0);
    rule_laws::lemma_kinds_differ();
}

/// The bytes from `start` to `end` are no part of a longer word: no digit or letter up to `v`, in
/// either case, and no point stands before them, and no such digit or letter behind them.
pub open spec fn is_isolated(b: Seq<u8>, start: int, end: int) -> bool {
    &&& start == 0 || !(rule_laws::is_token_letter(b[start - 1]) || b[start - 1] == 46)
    &&& end == b.len() || !rule_laws::is_token_letter(b[end])
}

/// What is protected is a token that is no part of a longer word.
pub proof fn lemma_protected_ranges_are_tokens(
    s: Seq<char>,
    list: Seq<Rule>,
    custom: Seq<CustomRange>,
    start: int,
    end: int,
)
    requires
        rules::candidates(s, list, custom) is Ok,
        rules::candidates(s, list, custom)->Ok_0.1.contains((start, end)),
    ensures
        is_token(encode_utf8(s), start, end),
        is_isolated(encode_utf8(s), start, end),
{
    let b = encode_utf8(s);
    let t = engine::pattern("TOK\\.[0-9a-v]{24}"@)->Ok_0;
    rule_laws::lemma_what_is_protected(s, list, custom, start, end);
    lemma_token_text();
    lemma_one_line(token_line());
    pattern_laws::lemma_patterns_are_read_well(seq![token_line()]);
    pattern_laws::lemma_scan_hits(engine::program(t), b, 0, (start, end));
    matching::lemma_found_is_a_match(t, b, start, end);
    lemma_tokens(b, start, end);
}

proof fn lemma_tokens_do_not_overlap(b: Seq<u8>, i: int, k: int)
    requires
        is_token(b, i, i + 28),
        is_token(b, k, k + 28),
        k <= i < k + 28,
    ensures
        i == k,
{
    if i > k + 3 {
        assert(body_byte()(b[i]));
    }
}

/// Every token that is no part of a longer word is protected, unless the search for it reaches
/// the limit on the number of steps.
pub proof fn lemma_tokens_are_protected(
    s: Seq<char>,
    list: Seq<Rule>,
    custom: Seq<CustomRange>,
    start: int,
    end: int,
)
    requires
        rules::candidates(s, list, custom) is Ok,
        is_token(encode_utf8(s), start, end),
        is_isolated(encode_utf8(s), start, end),
        !(engine::outcome(
            engine::program(engine::pattern("TOK\\.[0-9a-v]{24}"@)->Ok_0),
            encode_utf8(s),
            start,
        ) is OverBudget),
    ensures
        rules::candidates(s, list, custom)->Ok_0.1.contains((start, end)),
{
    let b = encode_utf8(s);
    let t = engine::pattern("TOK\\.[0-9a-v]{24}"@)->Ok_0;
    let p = engine::program(t);
    let hits = engine::scan(p, b, 0);
    rule_laws::lemma_what_is_protected(s, list, custom, start, end);
    lemma_token_text();
    lemma_one_line(token_line());
    pattern_laws::lemma_patterns_are_read_well(seq![token_line()]);
    lemma_tokens(b, start, end);
    lemma_tokens(b, start, start);
    lemma_ascii_at(b, start, 'T');
    encode_utf8_valid_utf8(s);
    text::lemma_char_at_boundary(b, start);
    match engine::match_end(p, b, start) {
        Some(e) => {
            matching::lemma_found_is_a_match(t, b, start, e);
            lemma_tokens(b, start, e);
        },
        None => {},
    }
    matching::lemma_scan_covers_matches(t, s, start, end);
    let k = choose|k: int| 0 <= k < hits.len() && (#[trigger] hits[k]).0 <= start < hits[k].1;
    let hit = hits[k];
    assert(hits.contains(hit));
    pattern_laws::lemma_scan_hits(p, b, 0, hit);
    matching::lemma_found_is_a_match(t, b, hit.0, hit.1);
    lemma_tokens(b, hit.0, hit.1);
    lemma_tokens_do_not_overlap(b, start, hit.0);
}

/// What a rule for numbers proposes is a run of four or more digits.
pub proof fn lemma_number_rules_propose_numbers(
    s: Seq<char>,
    list: Seq<Rule>,
    i: int,
    c: rules::Span,
)
    requires
        rules::candidates(s, list, seq![]) is Ok,
        forall|i: int, j: int|
            0 <= i < j < list.len() ==> (#[trigger] list[i]).id@ != (#[trigger] list[j]).id@,
        0 <= i < list.len(),
        list[i].kind@ == "number"@,
        c.rule_id == list[i].id@,
        rules::candidates(s, list, seq![])->Ok_0.0.contains(c),
    ensures
        list[i].enabled,
        c.end - c.start >= 4,
        all_bytes(encode_utf8(s), c.start, c.end, digit_byte()),
{
    let b = encode_utf8(s);
    let none: Seq<CustomRange> = seq![];
    rule_laws::lemma_candidates_have_a_source(s, list, none, c);
    let k = choose|k: int|
        0 <= k < list.len() && (#[trigger] list[k]).enabled && list[k].id@ == c.rule_id
            && rule_laws::pattern_of(list[k]) is Some && engine::scan(
            engine::program(engine::pattern(rule_laws::pattern_of(list[k])->0)->Ok_0),
            b,
            0,
        ).contains((c.start, c.end));
    if k < i {
        assert(list[k].id@ != list[i].id@);
    } else if i < k {
        assert(list[i].id@ != list[k].id@);
    }
    rule_laws::lemma_kinds_differ();
    let t = engine::pattern("[0-9]{4,}"@)->Ok_0;
    lemma_number_text();
    pattern_laws::lemma_patterns_are_read_well(number_pattern());
    pattern_laws::lemma_scan_hits(engine::program(t), b, 0, (c.start, c.end));
    matching::lemma_found_is_a_match(t, b, c.start, c.end);
    lemma_numbers(b, c.start, c.end);
}

/// What a rule for e-mail addresses proposes is an address.
pub proof fn lemma_email_rules_propose_addresses(
    s: Seq<char>,
    list: Seq<Rule>,
    i: int,
    c: rules::Span,
)
    requires
        rules::candidates(s, list, seq![]) is Ok,
        forall|i: int, j: int|
            0 <= i < j < list.len() ==> (#[trigger] list[i]).id@ != (#[trigger] list[j]).id@,
        0 <= i < list.len(),
        list[i].kind@ == "email"@,
        c.rule_id == list[i].id@,
        rules::candidates(s, list, seq![])->Ok_0.0.contains(c),
    ensures
        list[i].enabled,
        exists|m: int| #[trigger] is_address_around(encode_utf8(s), c.start, m, c.end),
{
    let b = encode_utf8(s);
    let none: Seq<CustomRange> = seq![];
    rule_laws::lemma_candidates_have_a_source(s, list, none, c);
    let k = choose|k: int|
        0 <= k < list.len() && (#[trigger] list[k]).enabled && list[k].id@ == c.rule_id
            && rule_laws::pattern_of(list[k]) is Some && engine::scan(
            engine::program(engine::pattern(rule_laws::pattern_of(list[k])->0)->Ok_0),
            b,
            0,
        ).contains((c.start, c.end));
    if k < i {
        assert(list[k].id@ != list[i].id@);
    } else if i < k {
        assert(list[i].id@ != list[k].id@);
    }
    rule_laws::lemma_kinds_differ();
    let t = engine::pattern("[a-zA-Z0-9._%+-]+@[a-zA-Z0-9.-]+"@)->Ok_0;
    lemma_email_text();
    lemma_one_line(email_line());
    pattern_laws::lemma_patterns_are_read_well(seq![email_line()]);
    pattern_laws::lemma_scan_hits(engine::program(t), b, 0, (c.start, c.end));
    matching::lemma_found_is_a_match(t, b, c.start, c.end);
    lemma_addresses(b, c.start, c.end);
}

}
