//! Laws of texts: their order, decimal notation, and what masking does to a text.

use crate::masking;
use crate::text;
use vstd::prelude::*;
use vstd::utf8::*;

verus! {

broadcast use vstd::seq::group_seq_axioms;

/// The texts agree up to place `k`, and there the first one ends or has the smaller character.
pub open spec fn differs_first_at(a: Seq<char>, b: Seq<char>, k: int) -> bool {
    &&& 0 <= k <= a.len() && k < b.len()
    &&& forall|i: int| 0 <= i < k ==> #[trigger] a[i] == b[i]
    &&& k == a.len() || a[k] < b[k]
}

/// One text comes before another exactly if it is a proper front part of it, or has the smaller
/// character at the first place where the two differ.
pub proof fn lemma_first_difference_decides(a: Seq<char>, b: Seq<char>)
    ensures
        text::text_before(a, b) <==> exists|k: int| #[trigger] differs_first_at(a, b, k),
    decreases a.len(),
{
    if b.len() == 0 {
    } else if a.len() == 0 {
        assert(differs_first_at(a, b, 0));
    } else if a[0] != b[0] {
        if a[0] < b[0] {
            assert(differs_first_at(a, b, 0));
        }
    } else {
        let x = a.drop_first();
        let y = b.drop_first();
        lemma_first_difference_decides(x, y);
        if text::text_before(x, y) {
            let k = choose|k: int| #[trigger] differs_first_at(x, y, k);
            assert forall|i: int| 0 <= i < k + 1 implies #[trigger] a[i] == b[i] by {
                if i > 0 {
                    assert(x[i - 1] == y[i - 1]);
                }
            }
            assert(differs_first_at(a, b, k + 1));
        }
        if exists|k: int| #[trigger] differs_first_at(a, b, k) {
            let k = choose|k: int| #[trigger] differs_first_at(a, b, k);
            assert(k > 0);
            assert forall|i: int| 0 <= i < k - 1 implies #[trigger] x[i] == y[i] by {
                assert(a[i + 1] == b[i + 1]);
            }
            assert(differs_first_at(x, y, k - 1));
        }
    }
}

/// The decimal notation of a number consists of digits, has no zero in front unless it is that of
/// zero, and its last digit is the remainder of a division by ten; different numbers have
/// different notations.
pub proof fn lemma_decimal_notation(n: nat, m: nat)
    ensures
        text::dec(n).len() > 0,
        forall|i: int| 0 <= i < text::dec(n).len() ==> '0' <= #[trigger] text::dec(n)[i] <= '9',
        n > 0 ==> text::dec(n)[0] != '0',
        n == 0 ==> text::dec(n) == seq!['0'],
        text::dec(n).last() as int == 48 + n % 10,
        n >= 10 ==> text::dec(n).drop_last() == text::dec(n / 10),
        text::dec(n) == text::dec(m) ==> n == m,
    decreases n,
{
    text::lemma_dec_reads_back(n);
    text::lemma_dec_reads_back(m);
    assert forall|i: int| 0 <= i < text::dec(n).len() implies '0' <= #[trigger] text::dec(n)[i]
        <= '9' by {
        assert(text::is_digit(text::dec(n)[i]));
    }
    if n >= 10 {
        lemma_decimal_notation(n / 10, n / 10);
        assert(text::dec(n).drop_last() =~= text::dec(n / 10));
        assert(text::dec(n)[0] == text::dec(n / 10)[0]);
    }
}

/// A text is blank exactly if each of its characters is a blank, a control character from the
/// tabulator to the carriage return, a next-line character, or one of the spaces and separators
/// of Unicode.
pub proof fn lemma_what_is_blank(c: char)
    ensures
        text::is_blank(seq![c]) <==> {
            ||| c == '\t'
            ||| c == '\n'
            ||| c == '\u{b}'
            ||| c == '\u{c}'
            ||| c == '\r'
            ||| c == ' '
            ||| c == '\u{85}'
            ||| c == '\u{a0}'
            ||| c == '\u{1680}'
            ||| '\u{2000}' <= c <= '\u{200a}'
            ||| c == '\u{2028}'
            ||| c == '\u{2029}'
            ||| c == '\u{202f}'
            ||| c == '\u{205f}'
            ||| c == '\u{3000}'
        },
{
    assert(text::is_blank(seq![c]) <==> text::is_white_space(c)) by {
        if text::is_blank(seq![c]) {
            assert(text::is_white_space(seq![c][0]));
        }
    }
}

/// The gaps with the fills between them: the first gap, the first fill, the second gap and so on,
/// up to the gap behind the `n`-th fill.
pub open spec fn weave(gaps: Seq<Seq<char>>, fills: Seq<Seq<char>>, n: int) -> Seq<char>
    decreases n,
{
    if n <= 0 {
        gaps[0]
    } else {
        weave(gaps, fills, n - 1) + fills[n - 1] + gaps[n]
    }
}

/// The fragments of a text.
pub open spec fn fragments(s: Seq<char>, cuts: Seq<(int, int)>) -> Seq<Seq<char>> {
    Seq::new(cuts.len(), |k: int| text::slice_of(s, cuts[k].0, cuts[k].1))
}

spec fn gaps_of(s: Seq<char>, cuts: Seq<(int, int)>) -> Seq<Seq<char>> {
    Seq::new(
        cuts.len() + 1,
        |k: int|
            text::slice_of(
                s,
                if k == 0 {
                    0
                } else {
                    cuts[k - 1].1
                },
                masking::cut_start(s, cuts, k),
            ),
    )
}

proof fn lemma_woven_so_far(
    s: Seq<char>,
    cuts: Seq<(int, int)>,
    tokens: Seq<Seq<char>>,
    k: int,
)
    requires
        0 <= k <= cuts.len(),
    ensures
        weave(gaps_of(s, cuts), tokens, k) + masking::masked_from(s, cuts, tokens, k)
            == masking::masked_text(s, cuts, tokens),
    decreases k,
{
    let gaps = gaps_of(s, cuts);
    if k > 0 {
        lemma_woven_so_far(s, cuts, tokens, k - 1);
        let front = weave(gaps, tokens, k - 1);
        let rest = masking::masked_from(s, cuts, tokens, k);
        assert(masking::masked_from(s, cuts, tokens, k - 1) == tokens[k - 1] + gaps[k] + rest);
        assert(front + (tokens[k - 1] + gaps[k] + rest) =~= front + tokens[k - 1] + gaps[k] + rest);
    }
}

proof fn lemma_own_fragments(s: Seq<char>, cuts: Seq<(int, int)>, k: int)
    requires
        masking::lie_apart(s, cuts),
        0 <= k <= cuts.len(),
    ensures
        masking::masked_from(s, cuts, fragments(s, cuts), k) == text::slice_of(
            s,
            masking::cut_start(s, cuts, k),
            encode_utf8(s).len() as int,
        ),
    decreases cuts.len() - k,
{
    let end = encode_utf8(s).len() as int;
    encode_utf8_valid_utf8(s);
    is_char_boundary_start_end_of_seq(encode_utf8(s));
    if k < cuts.len() {
        lemma_own_fragments(s, cuts, k + 1);
        let (a, b) = cuts[k];
        let c = masking::cut_start(s, cuts, k + 1);
        assert(text::is_text_range(s, a, b));
        if k + 1 < cuts.len() {
            assert(text::is_text_range(s, cuts[k + 1].0, cuts[k + 1].1));
            assert(cuts[k].1 <= cuts[k + 1].0);
        }
        masking::lemma_slice_in_two(s, b, c, end);
        masking::lemma_slice_in_two(s, a, b, end);
        let x = text::slice_of(s, a, b);
        let y = text::slice_of(s, b, c);
        let z = text::slice_of(s, c, end);
        assert(x + y + z =~= x + (y + z));
    } else {
        assert(encode_utf8(s).subrange(end, end) =~= seq![]);
        let none: Seq<char> = seq![];
        encode_utf8_decode_utf8(none);
        assert(encode_utf8(none) =~= seq![]);
        assert(text::slice_of(s, end, end) =~= none);
    }
}

/// Masking replaces the fragments and nothing else: there are gaps such that the text is the gaps
/// with its fragments between them, and the masked text is the same gaps with the tokens between
/// them, each token in the place of its fragment.
pub proof fn lemma_masking_weaves(s: Seq<char>, cuts: Seq<(int, int)>, tokens: Seq<Seq<char>>)
    requires
        masking::lie_apart(s, cuts),
        tokens.len() == cuts.len(),
    ensures
        exists|gaps: Seq<Seq<char>>|
            gaps.len() == cuts.len() + 1 && s == #[trigger] weave(
                gaps,
                fragments(s, cuts),
                cuts.len() as int,
            ) && masking::masked_text(s, cuts, tokens) == weave(gaps, tokens, cuts.len() as int),
        masking::masked_text(s, cuts, fragments(s, cuts)) == s,
{
    let gaps = gaps_of(s, cuts);
    let n = cuts.len() as int;
    let none: Seq<char> = seq![];
    lemma_woven_so_far(s, cuts, tokens, n);
    lemma_woven_so_far(s, cuts, fragments(s, cuts), n);
    assert(masking::masked_from(s, cuts, tokens, n) == none);
    assert(weave(gaps, tokens, n) + none =~= weave(gaps, tokens, n));
    assert(masking::masked_from(s, cuts, fragments(s, cuts), n) == none);
    assert(weave(gaps, fragments(s, cuts), n) + none =~= weave(gaps, fragments(s, cuts), n));
    lemma_own_fragments(s, cuts, 0);
    let end = encode_utf8(s).len() as int;
    encode_utf8_valid_utf8(s);
    is_char_boundary_start_end_of_seq(encode_utf8(s));
    if cuts.len() > 0 {
        assert(text::is_text_range(s, cuts[0].0, cuts[0].1));
    }
    masking::lemma_slice_in_two(s, 0, masking::cut_start(s, cuts, 0), end);
    assert(encode_utf8(s).subrange(0, end) =~= encode_utf8(s));
    encode_utf8_decode_utf8(s);
    assert(masking::masked_text(s, cuts, fragments(s, cuts)) == s);
}

}
