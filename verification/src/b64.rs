//! Base64 without padding, in an alphabet of letters, digits, `*` and `~` that can stand in tokens.

use crate::text;
use vstd::prelude::*;
use vstd::string::*;

verus! {

broadcast use vstd::seq::group_seq_axioms;

/// The character of a digit below 64.
pub open spec fn symbol(d: int) -> char {
    if d < 26 {
        (65 + d) as char
    } else if d < 52 {
        (71 + d) as char
    } else if d < 62 {
        (d - 4) as char
    } else if d == 62 {
        '*'
    } else {
        '~'
    }
}

/// The digit that a character stands for.
pub open spec fn symbol_value(c: char) -> Option<int> {
    if 'A' <= c <= 'Z' {
        Some(c as int - 65)
    } else if 'a' <= c <= 'z' {
        Some(c as int - 71)
    } else if '0' <= c <= '9' {
        Some(c as int + 4)
    } else if c == '*' {
        Some(62)
    } else if c == '~' {
        Some(63)
    } else {
        None
    }
}

/// The digits of bytes: three bytes make four digits; what is left makes one digit more
/// than it has bytes, filled up with zero bits.
pub open spec fn digits(b: Seq<u8>) -> Seq<int>
    decreases b.len(),
{
    if b.len() == 0 {
        seq![]
    } else if b.len() == 1 {
        seq![b[0] as int / 4, (b[0] as int % 4) * 16]
    } else if b.len() == 2 {
        seq![
            b[0] as int / 4,
            (b[0] as int % 4) * 16 + b[1] as int / 16,
            (b[1] as int % 16) * 4,
        ]
    } else {
        seq![
            b[0] as int / 4,
            (b[0] as int % 4) * 16 + b[1] as int / 16,
            (b[1] as int % 16) * 4 + b[2] as int / 64,
            b[2] as int % 64,
        ] + digits(b.skip(3))
    }
}

/// The text of bytes.
pub open spec fn encoded(b: Seq<u8>) -> Seq<char> {
    digits(b).map_values(|d: int| symbol(d))
}

/// The bytes of digits; a single digit at the end and bits beyond the last byte are refused.
pub open spec fn bytes_of(v: Seq<int>) -> Option<Seq<u8>>
    decreases v.len(),
{
    if v.len() == 0 {
        Some(seq![])
    } else if v.len() == 1 {
        None
    } else if v.len() == 2 {
        if v[1] % 16 == 0 {
            Some(seq![(v[0] * 4 + v[1] / 16) as u8])
        } else {
            None
        }
    } else if v.len() == 3 {
        if v[2] % 4 == 0 {
            Some(seq![(v[0] * 4 + v[1] / 16) as u8, ((v[1] % 16) * 16 + v[2] / 4) as u8])
        } else {
            None
        }
    } else {
        match bytes_of(v.skip(4)) {
            Some(rest) => Some(
                seq![
                    (v[0] * 4 + v[1] / 16) as u8,
                    ((v[1] % 16) * 16 + v[2] / 4) as u8,
                    ((v[2] % 4) * 64 + v[3]) as u8,
                ] + rest,
            ),
            None => None,
        }
    }
}

/// Every character stands for a digit.
pub open spec fn in_alphabet(s: Seq<char>) -> bool {
    forall|i: int| 0 <= i < s.len() ==> symbol_value(#[trigger] s[i]) is Some
}

/// The digits that a text stands for.
pub open spec fn values(s: Seq<char>) -> Seq<int> {
    s.map_values(|c: char| symbol_value(c)->0)
}

/// The bytes of a text, if it is the text of any.
pub open spec fn decoded(s: Seq<char>) -> Option<Seq<u8>> {
    if in_alphabet(s) {
        bytes_of(values(s))
    } else {
        None
    }
}

fn symbol_of(d: u32) -> (r: char)
    requires
        d < 64,
    ensures
        r == symbol(d as int),
{
    if d < 26 {
        (65u8 + d as u8) as char
    } else if d < 52 {
        (71u8 + d as u8) as char
    } else if d < 62 {
        (d as u8 - 4u8) as char
    } else if d == 62 {
        '*'
    } else {
        '~'
    }
}

fn value_of(c: char) -> (r: Option<u32>)
    ensures
        match symbol_value(c) {
            Some(v) => r is Some && r->0 == v && 0 <= v < 64,
            None => r is None,
        },
{
    if 'A' <= c && c <= 'Z' {
        Some(c as u32 - 65)
    } else if 'a' <= c && c <= 'z' {
        Some(c as u32 - 71)
    } else if '0' <= c && c <= '9' {
        Some(c as u32 + 4)
    } else if c == '*' {
        Some(62)
    } else if c == '~' {
        Some(63)
    } else {
        None
    }
}

/// Whether a character is in the alphabet.
pub fn is_symbol(c: char) -> (r: bool)
    ensures
        r == (symbol_value(c) is Some),
{
    value_of(c).is_some()
}

/// Encodes bytes as text.
pub fn encode(input: &[u8]) -> (r: String)
    ensures
        r@ == encoded(input@),
{
    let ghost f = |d: int| symbol(d);
    let mut out: String = String::new();
    let mut i: usize = 0;
    assert(input@.skip(0) =~= input@);
    assert(out@ + encoded(input@) =~= encoded(input@));
    while input.len() - i >= 3
        invariant
            0 <= i <= input@.len(),
            f == (|d: int| symbol(d)),
            out@ + encoded(input@.skip(i as int)) == encoded(input@),
        decreases input@.len() - i,
    {
        let ghost done = out@;
        let ghost rest = input@.skip(i as int);
        let b0: u32 = input[i] as u32;
        let b1: u32 = input[i + 1] as u32;
        let b2: u32 = input[i + 2] as u32;
        out.push(symbol_of(b0 / 4));
        out.push(symbol_of((b0 % 4) * 16 + b1 / 16));
        out.push(symbol_of((b1 % 16) * 4 + b2 / 64));
        out.push(symbol_of(b2 % 64));
        i = i + 3;
        proof {
            assert(rest.skip(3) =~= input@.skip(i as int));
            let four = seq![
                b0 as int / 4,
                (b0 as int % 4) * 16 + b1 as int / 16,
                (b1 as int % 16) * 4 + b2 as int / 64,
                b2 as int % 64,
            ];
            assert(digits(rest) == four + digits(rest.skip(3)));
            assert(out@ =~= done + four.map_values(f));
            assert(encoded(rest) =~= four.map_values(f) + encoded(rest.skip(3)));
        }
    }
    let ghost done = out@;
    let ghost rest = input@.skip(i as int);
    if input.len() - i == 1 {
        let b0: u32 = input[i] as u32;
        out.push(symbol_of(b0 / 4));
        out.push(symbol_of((b0 % 4) * 16));
    } else if input.len() - i == 2 {
        let b0: u32 = input[i] as u32;
        let b1: u32 = input[i + 1] as u32;
        out.push(symbol_of(b0 / 4));
        out.push(symbol_of((b0 % 4) * 16 + b1 / 16));
        out.push(symbol_of((b1 % 16) * 4));
    }
    assert(out@ =~= done + encoded(rest));
    out
}

/// Decodes a text that `encode` can give; anything else is refused.
pub fn decode(input: &str) -> (r: Option<Vec<u8>>)
    ensures
        match decoded(input@) {
            Some(b) => r is Some && r->0@ == b,
            None => r is None,
        },
{
    let chars: Vec<char> = text::chars_of(input);
    let ghost all = values(input@);
    let mut vals: Vec<u32> = Vec::new();
    let mut k: usize = 0;
    while k < chars.len()
        invariant
            0 <= k <= chars@.len(),
            chars@ == input@,
            all == values(input@),
            vals@.len() == k,
            forall|j: int| 0 <= j < k ==> symbol_value(#[trigger] input@[j]) is Some,
            forall|j: int| 0 <= j < k ==> #[trigger] vals@[j] == all[j] && 0 <= all[j] < 64,
        decreases chars@.len() - k,
    {
        match value_of(chars[k]) {
            Some(v) => {
                vals.push(v);
            },
            None => {
                assert(symbol_value(input@[k as int]) is None);
                return None;
            },
        }
        k = k + 1;
    }
    let mut out: Vec<u8> = Vec::new();
    let mut i: usize = 0;
    assert(all.skip(0) =~= all);
    proof {
        lemma_prefixed_nothing(bytes_of(all));
    }
    while i < vals.len()
        invariant
            0 <= i <= vals@.len(),
            in_alphabet(input@),
            all == values(input@),
            vals@.len() == all.len(),
            forall|j: int| 0 <= j < all.len() ==> #[trigger] vals@[j] == all[j] && 0 <= all[j] < 64,
            bytes_of(all) == prefixed(out@, bytes_of(all.skip(i as int))),
        decreases vals@.len() - i,
    {
        let chunk: usize = vals.len() - i;
        let ghost rest = all.skip(i as int);
        let ghost done = out@;
        if chunk == 1 {
            return None;
        }
        let n0: u32 = vals[i];
        let n1: u32 = vals[i + 1];
        assert(rest[0] == n0 && rest[1] == n1);
        let first: u8 = (n0 * 4 + n1 / 16) as u8;
        if chunk == 2 {
            if n1 % 16 != 0 {
                return None;
            }
            out.push(first);
            assert(done + seq![first] =~= out@);
            return Some(out);
        }
        let n2: u32 = vals[i + 2];
        assert(rest[2] == n2);
        let second: u8 = ((n1 % 16) * 16 + n2 / 4) as u8;
        if chunk == 3 {
            if n2 % 4 != 0 {
                return None;
            }
            out.push(first);
            out.push(second);
            assert(done + seq![first, second] =~= out@);
            return Some(out);
        }
        let n3: u32 = vals[i + 3];
        assert(rest[3] == n3);
        let third: u8 = ((n2 % 4) * 64 + n3) as u8;
        out.push(first);
        out.push(second);
        out.push(third);
        i = i + 4;
        proof {
            assert(rest.skip(4) =~= all.skip(i as int));
            lemma_prefixed_twice(done, seq![first, second, third], bytes_of(rest.skip(4)));
            assert(done + seq![first, second, third] =~= out@);
        }
    }
    proof {
        assert(all.skip(i as int) =~= Seq::empty());
        assert(out@ + Seq::<u8>::empty() =~= out@);
    }
    Some(out)
}

/// Bytes put before the result of a decoding.
spec fn prefixed(front: Seq<u8>, r: Option<Seq<u8>>) -> Option<Seq<u8>> {
    match r {
        Some(b) => Some(front + b),
        None => None,
    }
}

proof fn lemma_prefixed_nothing(r: Option<Seq<u8>>)
    ensures
        prefixed(Seq::empty(), r) == r,
{
    if let Some(b) = r {
        assert(Seq::<u8>::empty() + b =~= b);
    }
}

proof fn lemma_prefixed_twice(a: Seq<u8>, b: Seq<u8>, r: Option<Seq<u8>>)
    ensures
        prefixed(a, prefixed(b, r)) == prefixed(a + b, r),
{
    if let Some(c) = r {
        assert(a + (b + c) =~= (a + b) + c);
    }
}

proof fn lemma_digits_bounded(b: Seq<u8>)
    ensures
        forall|i: int| 0 <= i < digits(b).len() ==> 0 <= #[trigger] digits(b)[i] < 64,
        digits(b).len() == b.len() / 3 * 4 + (if b.len() % 3 == 0 {
            0nat
        } else {
            b.len() % 3 + 1
        }),
    decreases b.len(),
{
    if b.len() >= 3 {
        lemma_digits_bounded(b.skip(3));
        let rest = digits(b.skip(3));
        let all = digits(b);
        assert forall|i: int| 0 <= i < all.len() implies 0 <= #[trigger] all[i] < 64 by {
            if i >= 4 {
                assert(all[i] == rest[i - 4]);
            }
        }
    }
}

proof fn lemma_bytes_of_digits(b: Seq<u8>)
    ensures
        bytes_of(digits(b)) == Some(b),
    decreases b.len(),
{
    if b.len() == 0 {
        assert(b =~= Seq::empty());
    } else if b.len() == 1 {
        assert(bytes_of(digits(b))->0 =~= b);
    } else if b.len() == 2 {
        assert(bytes_of(digits(b))->0 =~= b);
    } else {
        lemma_bytes_of_digits(b.skip(3));
        assert(digits(b).skip(4) =~= digits(b.skip(3)));
        assert(bytes_of(digits(b))->0 =~= b);
    }
}

proof fn lemma_digits_of_bytes(v: Seq<int>)
    requires
        forall|i: int| 0 <= i < v.len() ==> 0 <= #[trigger] v[i] < 64,
        bytes_of(v) is Some,
    ensures
        digits(bytes_of(v)->0) == v,
    decreases v.len(),
{
    let b = bytes_of(v)->0;
    if v.len() == 0 {
        assert(digits(b) =~= v);
    } else if v.len() <= 3 {
        assert(digits(b) =~= v);
    } else {
        let rest = v.skip(4);
        lemma_digits_of_bytes(rest);
        assert(b.skip(3) =~= bytes_of(rest)->0);
        assert(digits(b) =~= v);
    }
}

/// The length of the text of `n` bytes.
pub open spec fn encoded_len(n: nat) -> nat {
    n / 3 * 4 + (if n % 3 == 0 {
        0nat
    } else {
        n % 3 + 1
    })
}

/// Decoding gives back what was encoded; the text is in the alphabet and of the right length.
pub proof fn lemma_decode_inverts_encode(b: Seq<u8>)
    ensures
        decoded(encoded(b)) == Some(b),
        in_alphabet(encoded(b)),
        encoded(b).len() == encoded_len(b.len()),
{
    lemma_digits_bounded(b);
    lemma_bytes_of_digits(b);
    let s = encoded(b);
    assert forall|i: int| 0 <= i < s.len() implies symbol_value(#[trigger] s[i]) == Some(
        digits(b)[i],
    ) by {
        assert(0 <= digits(b)[i] < 64);
    }
    assert(values(s) =~= digits(b));
}

/// A text that can be decoded is the text of what it decodes to: no two texts give the same bytes.
pub proof fn lemma_encode_inverts_decode(s: Seq<char>)
    requires
        decoded(s) is Some,
    ensures
        encoded(decoded(s)->0) == s,
{
    let v = values(s);
    assert forall|i: int| 0 <= i < v.len() implies 0 <= #[trigger] v[i] < 64 by {
        assert(symbol_value(s[i]) is Some);
    }
    lemma_digits_of_bytes(v);
    assert forall|i: int| 0 <= i < s.len() implies symbol(v[i]) == #[trigger] s[i] by {
        assert(symbol_value(s[i]) is Some);
    }
    assert(encoded(decoded(s)->0) =~= s);
}

}
