//! Texts in which fragments are replaced by tokens.

use crate::text;
use vstd::prelude::*;
use vstd::utf8::*;

verus! {

broadcast use vstd::seq::group_seq_axioms;

/// Fragments of the text, from left to right, of which no two meet or start in the same place.
/// A fragment may be empty.
pub open spec fn lie_apart(s: Seq<char>, cuts: Seq<(int, int)>) -> bool {
    &&& forall|i: int|
        0 <= i < cuts.len() ==> text::is_text_range(s, (#[trigger] cuts[i]).0, cuts[i].1)
    &&& forall|i: int, j: int|
        0 <= i < j < cuts.len() ==> (#[trigger] cuts[i]).1 <= (#[trigger] cuts[j]).0 && cuts[i].0
            < cuts[j].0
}

/// Where fragment `k` starts, or where the text ends if there is none.
pub open spec fn cut_start(s: Seq<char>, cuts: Seq<(int, int)>, k: int) -> int {
    if k < cuts.len() {
        cuts[k].0
    } else {
        encode_utf8(s).len() as int
    }
}

/// The text from fragment `k` on, with every fragment replaced by its token.
pub open spec fn masked_from(
    s: Seq<char>,
    cuts: Seq<(int, int)>,
    tokens: Seq<Seq<char>>,
    k: int,
) -> Seq<char>
    decreases cuts.len() - k,
{
    if !(0 <= k < cuts.len()) {
        seq![]
    } else {
        tokens[k] + text::slice_of(s, cuts[k].1, cut_start(s, cuts, k + 1)) + masked_from(
            s,
            cuts,
            tokens,
            k + 1,
        )
    }
}

/// The text as it is up to fragment `k`, and with every fragment replaced from there on.
pub open spec fn half_masked(
    s: Seq<char>,
    cuts: Seq<(int, int)>,
    tokens: Seq<Seq<char>>,
    k: int,
) -> Seq<char> {
    text::slice_of(s, 0, cut_start(s, cuts, k)) + masked_from(s, cuts, tokens, k)
}

/// The text with every fragment replaced by its token and all the rest left as it is.
pub open spec fn masked_text(
    s: Seq<char>,
    cuts: Seq<(int, int)>,
    tokens: Seq<Seq<char>>,
) -> Seq<char> {
    half_masked(s, cuts, tokens, 0)
}

/// With no fragment replaced yet, the text is as it was.
pub proof fn lemma_nothing_masked(s: Seq<char>, cuts: Seq<(int, int)>, tokens: Seq<Seq<char>>)
    ensures
        half_masked(s, cuts, tokens, cuts.len() as int) == s,
{
    encode_utf8_decode_utf8(s);
    assert(encode_utf8(s).subrange(0, encode_utf8(s).len() as int) =~= encode_utf8(s));
    assert(s + Seq::<char>::empty() =~= s);
}

/// Replacing one more fragment, from right to left.
pub proof fn lemma_mask_step(
    s: Seq<char>,
    cuts: Seq<(int, int)>,
    tokens: Seq<Seq<char>>,
    k: int,
)
    requires
        lie_apart(s, cuts),
        0 <= k < cuts.len(),
    ensures
        text::is_text_range(half_masked(s, cuts, tokens, k + 1), cuts[k].0, cuts[k].1),
        text::replaced(half_masked(s, cuts, tokens, k + 1), cuts[k].0, cuts[k].1, tokens[k])
            == half_masked(s, cuts, tokens, k),
{
    encode_utf8_valid_utf8(s);
    is_char_boundary_start_end_of_seq(encode_utf8(s));
    let next = cut_start(s, cuts, k + 1);
    let rest = masked_from(s, cuts, tokens, k + 1);
    assert(text::is_text_range(s, cuts[k].0, cuts[k].1));
    if k + 1 < cuts.len() {
        assert(text::is_text_range(s, cuts[k + 1].0, cuts[k + 1].1));
        assert(cuts[k].1 <= cuts[k + 1].0);
    }
    text::lemma_slices_of_front(s, next, rest, cuts[k].0, cuts[k].1);
    assert(text::replaced(half_masked(s, cuts, tokens, k + 1), cuts[k].0, cuts[k].1, tokens[k])
        =~= half_masked(s, cuts, tokens, k));
}

/// A part of a text is made of two parts that meet.
pub proof fn lemma_slice_in_two(s: Seq<char>, a: int, b: int, c: int)
    requires
        text::is_text_range(s, a, b),
        text::is_text_range(s, b, c),
    ensures
        text::slice_of(s, a, c) == text::slice_of(s, a, b) + text::slice_of(s, b, c),
{
    let e = encode_utf8(s);
    text::lemma_text_range(s, a, b);
    text::lemma_text_range(s, b, c);
    text::lemma_text_range(s, a, c);
    let both = text::slice_of(s, a, b) + text::slice_of(s, b, c);
    text::lemma_encode_concat(text::slice_of(s, a, b), text::slice_of(s, b, c));
    assert(encode_utf8(both) =~= e.subrange(a, c));
    text::lemma_encoding_is_injective(both, text::slice_of(s, a, c));
}

proof fn lemma_part_stays(
    s: Seq<char>,
    cuts: Seq<(int, int)>,
    tokens: Seq<Seq<char>>,
    a: int,
    b: int,
    k: int,
    low: int,
) -> (r: (Seq<char>, Seq<char>))
    requires
        lie_apart(s, cuts),
        text::is_text_range(s, a, b),
        0 <= k <= cuts.len(),
        text::is_text_range(s, low, cut_start(s, cuts, k)),
        low <= a,
        forall|i: int| k <= i < cuts.len() ==> (#[trigger] cuts[i]).1 <= a || b <= cuts[i].0,
    ensures
        text::slice_of(s, low, cut_start(s, cuts, k)) + masked_from(s, cuts, tokens, k) == r.0
            + text::slice_of(s, a, b) + r.1,
    decreases cuts.len() - k,
{
    let here = cut_start(s, cuts, k);
    let rest = masked_from(s, cuts, tokens, k);
    let part = text::slice_of(s, a, b);
    if b <= here {
        lemma_slice_in_two(s, low, a, here);
        lemma_slice_in_two(s, a, b, here);
        let front = text::slice_of(s, low, a);
        let back = text::slice_of(s, b, here) + rest;
        assert(text::slice_of(s, low, here) + rest =~= front + part + back);
        (front, back)
    } else {
        assert(cuts[k].1 <= a);
        let next = cut_start(s, cuts, k + 1);
        assert(text::is_text_range(s, cuts[k].1, next)) by {
            encode_utf8_valid_utf8(s);
            is_char_boundary_start_end_of_seq(encode_utf8(s));
            assert(text::is_text_range(s, cuts[k].0, cuts[k].1));
            if k + 1 < cuts.len() {
                assert(text::is_text_range(s, cuts[k + 1].0, cuts[k + 1].1));
                assert(cuts[k].1 <= cuts[k + 1].0);
            }
        }
        let (f, back) = lemma_part_stays(s, cuts, tokens, a, b, k + 1, cuts[k].1);
        let front = text::slice_of(s, low, here) + tokens[k] + f;
        assert(text::slice_of(s, low, here) + rest =~= text::slice_of(s, low, here) + tokens[k] + (
        text::slice_of(s, cuts[k].1, next) + masked_from(s, cuts, tokens, k + 1)));
        assert(text::slice_of(s, low, here) + tokens[k] + (f + part + back) =~= front + part
            + back);
        (front, back)
    }
}

/// A part of the text that no fragment meets stands in the masked text as it was.
pub proof fn lemma_untouched_part_stays(
    s: Seq<char>,
    cuts: Seq<(int, int)>,
    tokens: Seq<Seq<char>>,
    a: int,
    b: int,
)
    requires
        lie_apart(s, cuts),
        text::is_text_range(s, a, b),
        forall|i: int| 0 <= i < cuts.len() ==> (#[trigger] cuts[i]).1 <= a || b <= cuts[i].0,
    ensures
        exists|front: Seq<char>, back: Seq<char>|
            masked_text(s, cuts, tokens) == #[trigger] (front + text::slice_of(s, a, b) + back),
{
    assert(text::is_text_range(s, 0, cut_start(s, cuts, 0))) by {
        encode_utf8_valid_utf8(s);
        is_char_boundary_start_end_of_seq(encode_utf8(s));
        if cuts.len() > 0 {
            assert(text::is_text_range(s, cuts[0].0, cuts[0].1));
        }
    }
    let (front, back) = lemma_part_stays(s, cuts, tokens, a, b, 0, 0);
    assert(masked_text(s, cuts, tokens) == front + text::slice_of(s, a, b) + back);
}

}
