//! Laws of which fragments are masked.

use crate::b64;
use crate::crypto;
use crate::masking;
use crate::redaction;
use crate::redaction::Hit;
use crate::sorting;
use crate::state::{MaskRule, MatchKind};
use crate::text;
use vstd::prelude::*;
use vstd::utf8::*;

verus! {

broadcast use vstd::seq::group_seq_axioms;

/// The order of the ranking, as a function.
spec fn winning() -> spec_fn((i32, Hit), (i32, Hit)) -> bool {
    |a: (i32, Hit), b: (i32, Hit)| redaction::wins(a, b)
}

/// Where the hits start and end.
pub open spec fn cuts(list: Seq<Hit>) -> Seq<(int, int)> {
    list.map_values(|h: Hit| (h.start, h.end))
}

proof fn lemma_unshielded(list: Seq<Hit>, shield: Seq<(int, int)>, h: Hit)
    ensures
        redaction::unshielded(list, shield).contains(h) <==> list.contains(h) && !redaction::meets(
            h,
            shield,
        ),
    decreases list.len(),
{
    if list.len() > 0 {
        let front = list.drop_last();
        let kept = redaction::unshielded(front, shield);
        lemma_unshielded(front, shield, h);
        assert(list =~= front.push(list.last()));
        assert(list.contains(h) <==> front.contains(h) || h == list.last()) by {
            if list.contains(h) {
                let i = choose|i: int| 0 <= i < list.len() && list[i] == h;
                if i < front.len() {
                    assert(front[i] == h);
                }
            }
            if front.contains(h) {
                let i = choose|i: int| 0 <= i < front.len() && front[i] == h;
                assert(list[i] == h);
            }
            if h == list.last() {
                assert(list[list.len() - 1] == h);
            }
        }
        let longer = kept.push(list.last());
        assert(longer.contains(h) <==> kept.contains(h) || h == list.last()) by {
            if longer.contains(h) {
                let i = choose|i: int| 0 <= i < longer.len() && longer[i] == h;
                if i < kept.len() {
                    assert(kept[i] == h);
                }
            }
            if kept.contains(h) {
                let i = choose|i: int| 0 <= i < kept.len() && kept[i] == h;
                assert(longer[i] == h);
            }
            if h == list.last() {
                assert(longer[kept.len() as int] == h);
            }
        }
    }
}

/// A hit stands in the ranking exactly if it was proposed and meets no protected range.
proof fn lemma_ranking_holds(
    rules: Seq<MaskRule>,
    list: Seq<Hit>,
    shield: Seq<(int, int)>,
    h: Hit,
)
    ensures
        (exists|k: int|
            0 <= k < redaction::ranking_of(rules, list, shield).len()
                && #[trigger] redaction::ranking_of(rules, list, shield)[k]
                == redaction::with_priority(rules, h)) <==> list.contains(h) && !redaction::meets(
            h,
            shield,
        ),
        forall|k: int|
            0 <= k < redaction::ranking_of(rules, list, shield).len()
                ==> #[trigger] redaction::ranking_of(rules, list, shield)[k]
                == redaction::with_priority(
                rules,
                redaction::ranking_of(rules, list, shield)[k].1,
            ),
{
    let free = redaction::unshielded(list, shield);
    let pairs = redaction::with_priorities(rules, free);
    let ranking = redaction::ranking_of(rules, list, shield);
    let x = redaction::with_priority(rules, h);
    assert(ranking == sorting::sorted(pairs, winning()));
    lemma_unshielded(list, shield, h);
    sorting::lemma_sorted_contains(pairs, winning(), x);
    if exists|k: int| 0 <= k < ranking.len() && #[trigger] ranking[k] == x {
        let k = choose|k: int| 0 <= k < ranking.len() && #[trigger] ranking[k] == x;
        assert(ranking.contains(x));
        let i = choose|i: int| 0 <= i < pairs.len() && pairs[i] == x;
        assert(free[i] == h);
    }
    if free.contains(h) {
        let i = choose|i: int| 0 <= i < free.len() && free[i] == h;
        assert(pairs[i] == x);
        assert(ranking.contains(x));
        let k = choose|k: int| 0 <= k < ranking.len() && ranking[k] == x;
        assert(ranking[k] == x);
    }
    assert forall|k: int| 0 <= k < ranking.len() implies #[trigger] ranking[k]
        == redaction::with_priority(rules, ranking[k].1) by {
        let y = ranking[k];
        assert(ranking.contains(y));
        sorting::lemma_sorted_contains(pairs, winning(), y);
        let i = choose|i: int| 0 <= i < pairs.len() && pairs[i] == y;
        assert(pairs[i] == redaction::with_priority(rules, free[i]));
    }
}

proof fn lemma_first_overlap(list: Seq<Hit>, h: Hit)
    ensures
        match redaction::first_overlap(list, h) {
            Some(x) => redaction::overlap(x, h) && exists|i: int|
                0 <= i < list.len() && #[trigger] list[i] == x,
            None => forall|i: int|
                0 <= i < list.len() ==> !redaction::overlap(#[trigger] list[i], h),
        },
    decreases list.len(),
{
    if list.len() > 0 {
        let front = list.drop_last();
        lemma_first_overlap(front, h);
        match redaction::first_overlap(front, h) {
            Some(x) => {
                let i = choose|i: int| 0 <= i < front.len() && #[trigger] front[i] == x;
                assert(list[i] == x);
            },
            None => {
                assert forall|i: int| 0 <= i < list.len() && i < front.len() implies
                    !redaction::overlap(#[trigger] list[i], h) by {
                    assert(front[i] == list[i]);
                }
                assert(list[list.len() - 1] == list.last());
            },
        }
    }
}

/// Among the first `n` hits of a ranking, no two winners overlap, and each winner stands in
/// the ranking.
proof fn lemma_winners(ranking: Seq<(i32, Hit)>, n: int)
    requires
        0 <= n <= ranking.len(),
    ensures
        forall|i: int, j: int|
            0 <= i < j < redaction::winners(ranking, n).len() ==> !redaction::overlap(
                #[trigger] redaction::winners(ranking, n)[i],
                #[trigger] redaction::winners(ranking, n)[j],
            ),
        forall|i: int|
            0 <= i < redaction::winners(ranking, n).len() ==> exists|k: int|
                0 <= k < n && (#[trigger] ranking[k]).1 == #[trigger] redaction::winners(
                    ranking,
                    n,
                )[i],
    decreases n,
{
    if n > 0 {
        lemma_winners(ranking, n - 1);
        let before = redaction::winners(ranking, n - 1);
        let w = redaction::winners(ranking, n);
        let h = ranking[n - 1].1;
        lemma_first_overlap(before, h);
        assert forall|i: int| 0 <= i < w.len() implies exists|k: int|
            0 <= k < n && (#[trigger] ranking[k]).1 == #[trigger] w[i] by {
            if i < before.len() {
                let k = choose|k: int|
                    0 <= k < n - 1 && (#[trigger] ranking[k]).1 == before[i];
                assert(ranking[k].1 == w[i]);
            } else {
                assert(ranking[n - 1].1 == w[i]);
            }
        }
    }
}

/// What was won stays won.
proof fn lemma_winners_grow(ranking: Seq<(i32, Hit)>, n: int, m: int, i: int)
    requires
        0 <= n <= m <= ranking.len(),
        0 <= i < redaction::winners(ranking, n).len(),
    ensures
        i < redaction::winners(ranking, m).len(),
        redaction::winners(ranking, m)[i] == redaction::winners(ranking, n)[i],
    decreases m - n,
{
    if n < m {
        lemma_winners_grow(ranking, n, m - 1, i);
    }
}

proof fn lemma_losers_grow(ranking: Seq<(i32, Hit)>, n: int, m: int, i: int)
    requires
        0 <= n <= m <= ranking.len(),
        0 <= i < redaction::losers(ranking, n).len(),
    ensures
        i < redaction::losers(ranking, m).len(),
        redaction::losers(ranking, m)[i] == redaction::losers(ranking, n)[i],
    decreases m - n,
{
    if n < m {
        lemma_losers_grow(ranking, n, m - 1, i);
    }
}

/// A hit of the ranking wins or loses.
proof fn lemma_decided(ranking: Seq<(i32, Hit)>, k: int)
    requires
        0 <= k < ranking.len(),
    ensures
        redaction::winners(ranking, ranking.len() as int).contains(ranking[k].1) || exists|i: int|
            0 <= i < redaction::losers(ranking, ranking.len() as int).len() && (
            #[trigger] redaction::losers(ranking, ranking.len() as int)[i]).0 == ranking[k].1,
{
    let m = ranking.len() as int;
    let before = redaction::winners(ranking, k);
    let h = ranking[k].1;
    if redaction::first_overlap(before, h) is Some {
        let i = redaction::losers(ranking, k).len() as int;
        assert(redaction::losers(ranking, k + 1)[i].0 == h);
        lemma_losers_grow(ranking, k + 1, m, i);
        assert(redaction::losers(ranking, m)[i].0 == h);
    } else {
        let i = before.len() as int;
        assert(redaction::winners(ranking, k + 1)[i] == h);
        lemma_winners_grow(ranking, k + 1, m, i);
        assert(redaction::winners(ranking, m)[i] == h);
    }
}

/// What a loser of a ranking lost to: a winner that stands before it.
proof fn lemma_lost_to(ranking: Seq<(i32, Hit)>, n: int, i: int)
    requires
        0 <= n <= ranking.len(),
        0 <= i < redaction::losers(ranking, n).len(),
    ensures
        ({
            let (h, x) = redaction::losers(ranking, n)[i];
            &&& redaction::overlap(x, h)
            &&& exists|w: int|
                0 <= w < redaction::winners(ranking, n).len() && #[trigger] redaction::winners(
                    ranking,
                    n,
                )[w] == x
            &&& exists|a: int, b: int|
                0 <= a < b < n && (#[trigger] ranking[a]).1 == x && (#[trigger] ranking[b]).1 == h
        }),
    decreases n,
{
    if n > 0 {
        let h = ranking[n - 1].1;
        let before = redaction::winners(ranking, n - 1);
        if i < redaction::losers(ranking, n - 1).len() {
            lemma_lost_to(ranking, n - 1, i);
            let (g, x) = redaction::losers(ranking, n - 1)[i];
            let w = choose|w: int| 0 <= w < before.len() && #[trigger] before[w] == x;
            lemma_winners_grow(ranking, n - 1, n, w);
            assert(redaction::winners(ranking, n)[w] == x);
        } else {
            lemma_first_overlap(before, h);
            lemma_winners(ranking, n - 1);
            let x = redaction::first_overlap(before, h)->0;
            let w = choose|w: int| 0 <= w < before.len() && #[trigger] before[w] == x;
            let a = choose|a: int| 0 <= a < n - 1 && (#[trigger] ranking[a]).1 == before[w];
            lemma_winners_grow(ranking, n - 1, n, w);
            assert(redaction::winners(ranking, n)[w] == x);
            assert(ranking[a].1 == x && ranking[n - 1].1 == h);
        }
    }
}

proof fn lemma_winning_order()
    ensures
        sorting::is_weak_order(winning()),
{
    let before = winning();
    assert forall|a: (i32, Hit), b: (i32, Hit)| #[trigger] before(a, b) implies !before(b, a) by {}
    assert forall|a: (i32, Hit), b: (i32, Hit), c: (i32, Hit)|
        !(#[trigger] before(b, a)) && !(#[trigger] before(c, b)) implies !before(c, a) by {}
}

proof fn lemma_decided_once(ranking: Seq<(i32, Hit)>, n: int)
    requires
        0 <= n <= ranking.len(),
    ensures
        redaction::winners(ranking, n).len() + redaction::losers(ranking, n).len() == n,
    decreases n,
{
    if n > 0 {
        lemma_decided_once(ranking, n - 1);
    }
}

proof fn lemma_unshielded_len(list: Seq<Hit>, shield: Seq<(int, int)>)
    ensures
        redaction::unshielded(list, shield).len() <= list.len(),
        shield.len() == 0 ==> redaction::unshielded(list, shield).len() == list.len(),
    decreases list.len(),
{
    if list.len() > 0 {
        lemma_unshielded_len(list.drop_last(), shield);
    }
}

/// Each hit is decided upon once: there are no more decisions than hits, and as many where
/// nothing is protected.
pub proof fn lemma_every_hit_is_decided_once(
    rules: Seq<MaskRule>,
    list: Seq<Hit>,
    shield: Seq<(int, int)>,
)
    ensures
        ({
            let r = redaction::ruling(rules, list, shield);
            &&& r.accepted.len() + r.suppressed.len() <= list.len()
            &&& shield.len() == 0 ==> r.accepted.len() + r.suppressed.len() == list.len()
        }),
{
    let pairs = redaction::with_priorities(rules, redaction::unshielded(list, shield));
    let ranking = redaction::ranking_of(rules, list, shield);
    let m = ranking.len() as int;
    assert(ranking == sorting::sorted(pairs, winning()));
    sorting::lemma_sorted_permutes(pairs, winning());
    lemma_unshielded_len(list, shield);
    lemma_decided_once(ranking, m);
    sorting::lemma_sorted_permutes(
        redaction::winners(ranking, m),
        |a: Hit, b: Hit| a.start < b.start,
    );
}

/// What is decided about the hits is fair: the accepted ones stand from left to right and no
/// two of them overlap; each of them was proposed and has no byte in common with a protected
/// range; each suppressed one overlaps an accepted one that it does not win over: the rule of
/// that one has at least its priority; if the priorities are equal, that one is at least as
/// long; if the lengths are equal too, it starts no later; and if it starts at the same place,
/// its rule comes no later. Every hit that meets no protected range is either accepted or
/// suppressed.
pub proof fn lemma_ruling_is_fair(
    rules: Seq<MaskRule>,
    s: Seq<char>,
    list: Seq<Hit>,
    shield: Seq<(int, int)>,
)
    requires
        redaction::are_hits(rules.len() as int, s, list),
    ensures
        ({
            let r = redaction::ruling(rules, list, shield);
            &&& redaction::are_hits(rules.len() as int, s, r.accepted)
            &&& masking::lie_apart(s, cuts(r.accepted))
            &&& forall|i: int, j: int|
                0 <= i < j < r.accepted.len() ==> (#[trigger] r.accepted[i]).end <= (
                #[trigger] r.accepted[j]).start
            &&& forall|i: int|
                0 <= i < r.accepted.len() ==> list.contains(#[trigger] r.accepted[i])
                    && !redaction::meets(r.accepted[i], shield)
            &&& forall|i: int, k: int|
                0 <= i < r.accepted.len() && 0 <= k < shield.len() ==> (#[trigger] r.accepted[i]).end
                    <= (#[trigger] shield[k]).0 || shield[k].1 <= r.accepted[i].start
            &&& forall|i: int, k: int|
                0 <= i < r.suppressed.len() && 0 <= k < shield.len()
                    ==> (#[trigger] r.suppressed[i]).0.end <= (#[trigger] shield[k]).0
                    || shield[k].1 <= r.suppressed[i].0.start
            &&& forall|i: int|
                0 <= i < r.suppressed.len() ==> {
                    let (h, x) = #[trigger] r.suppressed[i];
                    let high = rules[x.rule].priority;
                    let low = rules[h.rule].priority;
                    let long = x.end - x.start;
                    let short = h.end - h.start;
                    &&& x.start < h.end && h.start < x.end
                    &&& high >= low
                    &&& high == low ==> long >= short
                    &&& high == low && long == short ==> x.start <= h.start
                    &&& high == low && long == short && x.start == h.start ==> x.rule <= h.rule
                }
            &&& forall|i: int|
                0 <= i < r.suppressed.len() ==> {
                    let (h, x) = #[trigger] r.suppressed[i];
                    &&& list.contains(h)
                    &&& !redaction::meets(h, shield)
                    &&& r.accepted.contains(x)
                    &&& redaction::overlap(x, h)
                    &&& !redaction::wins(
                        redaction::with_priority(rules, h),
                        redaction::with_priority(rules, x),
                    )
                }
            &&& forall|h: Hit| #[trigger]
                list.contains(h) && !redaction::meets(h, shield) ==> r.accepted.contains(h)
                    || exists|i: int|
                    0 <= i < r.suppressed.len() && (#[trigger] r.suppressed[i]).0 == h
            &&& forall|h: Hit| #[trigger]
                list.contains(h) && (forall|k: int|
                    0 <= k < shield.len() ==> h.end <= (#[trigger] shield[k]).0 || shield[k].1
                        <= h.start) ==> r.accepted.contains(h) || exists|i: int|
                    0 <= i < r.suppressed.len() && (#[trigger] r.suppressed[i]).0 == h
        }),
{
    let r = redaction::ruling(rules, list, shield);
    let ranking = redaction::ranking_of(rules, list, shield);
    let m = ranking.len() as int;
    let w = redaction::winners(ranking, m);
    let left = |a: Hit, b: Hit| a.start < b.start;
    assert(r.accepted == sorting::sorted(w, left));
    lemma_winners(ranking, m);
    lemma_winning_order();
    sorting::lemma_sorted_in_order(
        redaction::with_priorities(rules, redaction::unshielded(list, shield)),
        winning(),
    );
    assert forall|i: int| 0 <= i < r.accepted.len() implies list.contains(#[trigger] r.accepted[i])
        && !redaction::meets(r.accepted[i], shield) && redaction::is_hit(
        rules.len() as int,
        s,
        r.accepted[i],
    ) by {
        let h = r.accepted[i];
        assert(r.accepted.contains(h));
        sorting::lemma_sorted_contains(w, left, h);
        let a = choose|a: int| 0 <= a < w.len() && w[a] == h;
        let k = choose|k: int| 0 <= k < m && (#[trigger] ranking[k]).1 == w[a];
        lemma_ranking_holds(rules, list, shield, h);
        assert(ranking[k] == redaction::with_priority(rules, h));
        let p = choose|p: int| 0 <= p < list.len() && list[p] == h;
        assert(redaction::is_hit(rules.len() as int, s, list[p]));
    }
    let places = cuts(r.accepted);
    sorting::lemma_sorted_in_order(w, left);
    assert forall|i: int, j: int| 0 <= i < j < places.len() implies (#[trigger] places[i]).1 <= (
    #[trigger] places[j]).0 by {
        let (a, b) = sorting::lemma_sorted_places(w, left, i, j);
        let x = r.accepted[i];
        let y = r.accepted[j];
        assert(!left(y, x));
        if a < b {
            assert(!redaction::overlap(w[a], w[b]));
        } else {
            assert(!redaction::overlap(w[b], w[a]));
        }
        assert(redaction::is_hit(rules.len() as int, s, x));
        assert(redaction::is_hit(rules.len() as int, s, y));
    }
    assert forall|i: int| 0 <= i < places.len() implies (#[trigger] places[i]).0 < places[i].1
        && text::is_text_range(s, places[i].0, places[i].1) by {
        assert(redaction::is_hit(rules.len() as int, s, r.accepted[i]));
    }
    assert forall|i: int| 0 <= i < r.suppressed.len() implies {
        let (h, x) = #[trigger] r.suppressed[i];
        &&& list.contains(h)
        &&& !redaction::meets(h, shield)
        &&& r.accepted.contains(x)
        &&& redaction::overlap(x, h)
        &&& !redaction::wins(
            redaction::with_priority(rules, h),
            redaction::with_priority(rules, x),
        )
    } by {
        lemma_lost_to(ranking, m, i);
        let (h, x) = r.suppressed[i];
        let v = choose|v: int| 0 <= v < w.len() && #[trigger] w[v] == x;
        assert(w.contains(x));
        sorting::lemma_sorted_contains(w, left, x);
        let (a, b) = choose|a: int, b: int|
            0 <= a < b < m && (#[trigger] ranking[a]).1 == x && (#[trigger] ranking[b]).1 == h;
        lemma_ranking_holds(rules, list, shield, h);
        lemma_ranking_holds(rules, list, shield, x);
        assert(ranking[b] == redaction::with_priority(rules, h));
        assert(ranking[a] == redaction::with_priority(rules, x));
        assert(!(winning()(ranking[b], ranking[a])));
    }
    assert forall|i: int, j: int| 0 <= i < j < r.accepted.len() implies (
    #[trigger] r.accepted[i]).end <= (#[trigger] r.accepted[j]).start by {
        assert(places[i].1 <= places[j].0);
    }
    assert forall|h: Hit| #[trigger]
        list.contains(h) && !redaction::meets(h, shield) implies r.accepted.contains(h)
        || exists|i: int|
        0 <= i < r.suppressed.len() && (#[trigger] r.suppressed[i]).0 == h by {
        lemma_ranking_holds(rules, list, shield, h);
        let k = choose|k: int|
            0 <= k < ranking.len() && #[trigger] ranking[k] == redaction::with_priority(rules, h);
        assert(ranking[k].1 == h);
        lemma_decided(ranking, k);
        sorting::lemma_sorted_contains(w, left, h);
        if !w.contains(h) {
            let lost = redaction::losers(ranking, m);
            assert(r.suppressed == lost);
            let i = choose|i: int| 0 <= i < lost.len() && (#[trigger] lost[i]).0 == h;
            assert(r.suppressed[i].0 == h);
        }
    }
}

/// Two tokens in a text have no byte in common.
proof fn lemma_tokens_lie_apart(b: Seq<u8>, p: int, q: int)
    requires
        redaction::token_at(b, p),
        redaction::token_at(b, q),
        p < q,
    ensures
        p + redaction::TOKEN_BYTES <= q,
{
    redaction::lemma_marks();
    let opening = encode_utf8(redaction::OPENING@);
    let closing = encode_utf8(redaction::CLOSING@);
    assert(b.subrange(q, q + 7)[0] == opening[0]);
    assert(b.subrange(q, q + 7)[2] == opening[2]);
    if q < p + 7 {
        assert(b.subrange(p, p + 7)[q - p] == opening[q - p]);
    } else if q < p + 29 {
        assert(b64::symbol_value(b[q] as char) is Some);
    } else if q < p + 32 {
        assert(b.subrange(p + 29, p + 32)[q - p - 29] == closing[q - p - 29]);
        if q == p + 29 {
            assert(b.subrange(p + 29, p + 32)[2] == closing[2]);
        }
    }
}

proof fn lemma_spans_hold(b: Seq<u8>, from: int, p: int)
    requires
        0 <= from <= p,
        redaction::token_at(b, p),
    ensures
        redaction::token_spans(b, from).contains((p, p + redaction::TOKEN_BYTES)),
    decreases b.len() - from,
{
    let spans = redaction::token_spans(b, from);
    let size = redaction::TOKEN_BYTES as int;
    if redaction::token_at(b, from) {
        let rest = redaction::token_spans(b, from + size);
        if from == p {
            assert(spans[0] == (p, p + size));
        } else {
            lemma_tokens_lie_apart(b, from, p);
            lemma_spans_hold(b, from + size, p);
            let k = choose|k: int| 0 <= k < rest.len() && rest[k] == (p, p + size);
            assert(spans[k + 1] == (p, p + size));
        }
    } else {
        lemma_spans_hold(b, from + 1, p);
    }
}

/// A token that stands in a text is one of its protected ranges.
pub proof fn lemma_tokens_are_protected(front: Seq<char>, token_id: Seq<char>, back: Seq<char>)
    requires
        crypto::is_token_id(token_id),
    ensures
        ({
            let b = encode_utf8(front + redaction::token_text(token_id) + back);
            let p = encode_utf8(front).len() as int;
            &&& redaction::token_at(b, p)
            &&& redaction::token_spans(b, 0).contains((p, p + redaction::TOKEN_BYTES))
            &&& encode_utf8(redaction::token_text(token_id)).len() == redaction::TOKEN_BYTES
        }),
{
    redaction::lemma_marks();
    let t = redaction::token_text(token_id);
    let opening = encode_utf8(redaction::OPENING@);
    let closing = encode_utf8(redaction::CLOSING@);
    let id = Seq::new(token_id.len(), |i: int| token_id[i] as u8);
    assert forall|i: int| 0 <= i < token_id.len() implies (#[trigger] id[i]) < 0x80 && token_id[i]
        == id[i] as char by {
        assert(b64::symbol_value(token_id[i]) is Some);
    }
    text::lemma_encode_ascii(token_id, id);
    text::lemma_encode_concat(redaction::OPENING@, token_id);
    text::lemma_encode_concat(redaction::OPENING@ + token_id, redaction::CLOSING@);
    text::lemma_encode_concat(front, t);
    text::lemma_encode_concat(front + t, back);
    let e = encode_utf8(t);
    let f = encode_utf8(front);
    let b = encode_utf8(front + t + back);
    let p = f.len() as int;
    assert(e =~= opening + id + closing);
    assert(b =~= f + e + encode_utf8(back));
    assert(b.subrange(p, p + 7) =~= opening);
    assert(b.subrange(p + 29, p + 32) =~= closing);
    assert forall|i: int| p + 7 <= i < p + 29 implies b64::symbol_value(#[trigger] b[i] as char)
        is Some by {
        assert(b[i] == id[i - p - 7]);
        assert(b64::symbol_value(token_id[i - p - 7]) is Some);
    }
    lemma_spans_hold(b, 0, p);
}

/// Masking a text leaves every token in it as it is, whatever the rules are.
pub proof fn lemma_tokens_stay(
    rules: Seq<MaskRule>,
    front: Seq<char>,
    token_id: Seq<char>,
    back: Seq<char>,
    list: Seq<Hit>,
    tokens: Seq<Seq<char>>,
)
    requires
        crypto::is_token_id(token_id),
        redaction::are_hits(
            rules.len() as int,
            front + redaction::token_text(token_id) + back,
            list,
        ),
    ensures
        ({
            let s = front + redaction::token_text(token_id) + back;
            let r = redaction::ruling(rules, list, redaction::token_spans(encode_utf8(s), 0));
            exists|f: Seq<char>, g: Seq<char>|
                masking::masked_text(s, cuts(r.accepted), tokens) == #[trigger] (f
                    + redaction::token_text(token_id) + g)
        }),
{
    let t = redaction::token_text(token_id);
    let s = front + t + back;
    let b = encode_utf8(s);
    let shield = redaction::token_spans(b, 0);
    let r = redaction::ruling(rules, list, shield);
    let p = encode_utf8(front).len() as int;
    let q = p + redaction::TOKEN_BYTES;
    lemma_tokens_are_protected(front, token_id, back);
    lemma_ruling_is_fair(rules, s, list, shield);
    let k = choose|k: int| 0 <= k < shield.len() && shield[k] == (p, q);
    let places = cuts(r.accepted);
    assert forall|i: int| 0 <= i < places.len() implies (#[trigger] places[i]).1 <= p || q
        <= places[i].0 by {
        let h = r.accepted[i];
        assert(!redaction::meets(h, shield));
        assert(shield[k] == (p, q));
    }
    text::lemma_encode_concat(front, t);
    text::lemma_encode_concat(front + t, back);
    lemma_inner_range(front, t, back);
    masking::lemma_untouched_part_stays(s, places, tokens, p, q);
}

/// A text between two others is a range of the whole.
proof fn lemma_inner_range(front: Seq<char>, t: Seq<char>, back: Seq<char>)
    ensures
        ({
            let s = front + t + back;
            let p = encode_utf8(front).len() as int;
            let q = p + encode_utf8(t).len();
            &&& text::is_text_range(s, p, q)
            &&& text::slice_of(s, p, q) == t
        }),
{
    let s = front + t + back;
    let b = encode_utf8(s);
    let f = encode_utf8(front);
    let e = encode_utf8(t);
    let g = encode_utf8(back);
    let p = f.len() as int;
    let q = (p + e.len()) as int;
    text::lemma_encode_concat(front, t);
    text::lemma_encode_concat(front + t, back);
    text::lemma_encode_concat(t, back);
    text::lemma_join_is_boundary(front, t + back);
    text::lemma_join_is_boundary(front + t, back);
    assert(front + (t + back) =~= s);
    assert(b.subrange(p, q) =~= e);
    encode_utf8_decode_utf8(t);
}

/// The bytes from `p` on are a token: the mark `⟦TKN-`, 22 letters, digits, asterisks or tildes,
/// and the mark `⟧`.
pub open spec fn looks_like_a_token(b: Seq<u8>, p: int) -> bool {
    &&& 0 <= p && p + 32 <= b.len()
    &&& b.subrange(p, p + 7) == seq![0xe2u8, 0x9f, 0xa6, 0x54, 0x4b, 0x4e, 0x2d]
    &&& forall|i: int|
        p + 7 <= i < p + 29 ==> {
            ||| 65 <= #[trigger] b[i] <= 90
            ||| 97 <= b[i] <= 122
            ||| 48 <= b[i] <= 57
            ||| b[i] == 42
            ||| b[i] == 126
        }
    &&& b.subrange(p + 29, p + 32) == seq![0xe2u8, 0x9f, 0xa7]
}

proof fn lemma_token_bytes(b: Seq<u8>, p: int)
    ensures
        redaction::token_at(b, p) == looks_like_a_token(b, p),
{
    redaction::lemma_marks();
    assert forall|x: u8| (#[trigger] b64::symbol_value(x as char) is Some) <==> {
        ||| 65 <= x <= 90
        ||| 97 <= x <= 122
        ||| 48 <= x <= 57
        ||| x == 42
        ||| x == 126
    } by {}
    if redaction::token_at(b, p) {
        assert forall|i: int| p + 7 <= i < p + 29 implies {
            ||| 65 <= #[trigger] b[i] <= 90
            ||| 97 <= b[i] <= 122
            ||| 48 <= b[i] <= 57
            ||| b[i] == 42
            ||| b[i] == 126
        } by {
            assert(b64::symbol_value(b[i] as char) is Some);
        }
    }
}

proof fn lemma_spans_are_tokens(b: Seq<u8>, from: int, i: int)
    requires
        0 <= from,
        0 <= i < redaction::token_spans(b, from).len(),
    ensures
        ({
            let (p, q) = redaction::token_spans(b, from)[i];
            p >= from && q == p + 32 && redaction::token_at(b, p)
        }),
    decreases b.len() - from,
{
    let size = redaction::TOKEN_BYTES as int;
    if redaction::token_at(b, from) {
        if i > 0 {
            lemma_spans_are_tokens(b, from + size, i - 1);
        }
    } else {
        lemma_spans_are_tokens(b, from + 1, i);
    }
}

/// The protected ranges of a text are its tokens and nothing else: each is the 32 bytes of a
/// token, and the bytes of every token are one of them.
pub proof fn lemma_protected_is_what_looks_like_a_token(b: Seq<u8>, p: int, q: int)
    ensures
        redaction::token_spans(b, 0).contains((p, q)) <==> q == p + 32 && looks_like_a_token(b, p),
{
    let spans = redaction::token_spans(b, 0);
    lemma_token_bytes(b, p);
    if spans.contains((p, q)) {
        let i = choose|i: int| 0 <= i < spans.len() && spans[i] == (p, q);
        lemma_spans_are_tokens(b, 0, i);
    }
    if q == p + 32 && looks_like_a_token(b, p) {
        lemma_spans_hold(b, 0, p);
    }
}

proof fn lemma_proposed_by(rules: Seq<MaskRule>, s: Seq<char>, n: int, h: Hit)
    requires
        0 <= n <= rules.len(),
    ensures
        redaction::proposed(rules, s, n).contains(h) <==> 0 <= h.rule < n && h
            == redaction::hit_at(h.rule, s, (h.start, h.end)) && redaction::rule_ranges(
            rules[h.rule],
            s,
        ).contains((h.start, h.end)),
    decreases n,
{
    if n > 0 {
        lemma_proposed_by(rules, s, n - 1, h);
        let front = redaction::proposed(rules, s, n - 1);
        let ranges = redaction::rule_ranges(rules[n - 1], s);
        let more = redaction::hits_at(n - 1, s, ranges);
        let all = redaction::proposed(rules, s, n);
        assert(all == front + more);
        if all.contains(h) {
            let i = choose|i: int| 0 <= i < all.len() && all[i] == h;
            if i < front.len() {
                assert(front[i] == h);
            } else {
                let k = i - front.len();
                assert(more[k] == h);
                assert(ranges[k] == (h.start, h.end));
            }
        }
        if front.contains(h) {
            let i = choose|i: int| 0 <= i < front.len() && front[i] == h;
            assert(all[i] == h);
        }
        if h.rule == n - 1 && h == redaction::hit_at(h.rule, s, (h.start, h.end))
            && ranges.contains((h.start, h.end)) {
            let k = choose|k: int| 0 <= k < ranges.len() && ranges[k] == (h.start, h.end);
            assert(more[k] == h);
            assert(all[front.len() + k] == h);
        }
    }
}

proof fn lemma_not_empty(list: Seq<(int, int)>, r: (int, int))
    ensures
        redaction::not_empty(list).contains(r) <==> list.contains(r) && r.0 < r.1,
    decreases list.len(),
{
    if list.len() > 0 {
        let front = list.drop_last();
        let kept = redaction::not_empty(front);
        lemma_not_empty(front, r);
        assert(list =~= front.push(list.last()));
        assert(list.contains(r) <==> front.contains(r) || r == list.last()) by {
            if list.contains(r) {
                let i = choose|i: int| 0 <= i < list.len() && list[i] == r;
                if i < front.len() {
                    assert(front[i] == r);
                }
            }
            if front.contains(r) {
                let i = choose|i: int| 0 <= i < front.len() && front[i] == r;
                assert(list[i] == r);
            }
            assert(list[list.len() - 1] == list.last());
        }
        let longer = kept.push(list.last());
        assert(longer.contains(r) <==> kept.contains(r) || r == list.last()) by {
            if longer.contains(r) {
                let i = choose|i: int| 0 <= i < longer.len() && longer[i] == r;
                if i < kept.len() {
                    assert(kept[i] == r);
                }
            }
            if kept.contains(r) {
                let i = choose|i: int| 0 <= i < kept.len() && kept[i] == r;
                assert(longer[i] == r);
            }
            assert(longer[kept.len() as int] == list.last());
        }
    }
}

/// A rule with a regular expression proposes each match of it that is not empty, under its own
/// number and with the text that was matched, and nothing else.
pub proof fn lemma_regex_rules_propose_their_matches(
    rules: Seq<MaskRule>,
    s: Seq<char>,
    i: int,
    h: Hit,
)
    requires
        0 <= i < rules.len(),
        rules[i].kind == MatchKind::Regex,
        h.rule == i,
    ensures
        redaction::proposed(rules, s, rules.len() as int).contains(h) <==> {
            &&& redaction::regex_ranges(rules[i].pattern, s) matches Some(found) && found.contains(
                (h.start, h.end),
            )
            &&& h.start < h.end
            &&& h.matched == text::slice_of(s, h.start, h.end)
        },
{
    lemma_proposed_by(rules, s, rules.len() as int, h);
    match redaction::regex_ranges(rules[i].pattern, s) {
        Some(found) => {
            lemma_not_empty(found, (h.start, h.end));
        },
        None => {},
    }
}

/// The bytes of the pattern stand in the text at byte `p`.
pub open spec fn occurs_at(b: Seq<u8>, pattern: Seq<u8>, p: int) -> bool {
    0 <= p && p + pattern.len() <= b.len() && b.subrange(p, (p + pattern.len()) as int) == pattern
}

proof fn lemma_occurrences(b: Seq<u8>, pattern: Seq<u8>, from: int, r: (int, int))
    requires
        0 <= from,
        redaction::occurrences(b, pattern, from).contains(r),
    ensures
        r.0 >= from,
        r.1 == r.0 + pattern.len(),
        pattern.len() > 0,
        occurs_at(b, pattern, r.0),
    decreases b.len() - from,
{
    let all = redaction::occurrences(b, pattern, from);
    let i = choose|i: int| 0 <= i < all.len() && all[i] == r;
    let n = pattern.len() as int;
    if occurs_at(b, pattern, from) {
        if i > 0 {
            let rest = redaction::occurrences(b, pattern, from + n);
            assert(rest[i - 1] == r);
            lemma_occurrences(b, pattern, from + n, r);
        }
    } else {
        lemma_occurrences(b, pattern, from + 1, r);
    }
}

proof fn lemma_occurrences_cover(b: Seq<u8>, pattern: Seq<u8>, from: int, p: int)
    requires
        0 <= from <= p,
        pattern.len() > 0,
        occurs_at(b, pattern, p),
    ensures
        exists|r: (int, int)| #[trigger]
            redaction::occurrences(b, pattern, from).contains(r) && r.0 <= p < r.1,
    decreases b.len() - from,
{
    let all = redaction::occurrences(b, pattern, from);
    let n = pattern.len() as int;
    if occurs_at(b, pattern, from) {
        let rest = redaction::occurrences(b, pattern, from + n);
        if p < from + n {
            assert(all[0] == (from, from + n));
            assert(all.contains((from, from + n)));
        } else {
            lemma_occurrences_cover(b, pattern, from + n, p);
            let r = choose|r: (int, int)| #[trigger] rest.contains(r) && r.0 <= p < r.1;
            let k = choose|k: int| 0 <= k < rest.len() && rest[k] == r;
            assert(all[k + 1] == r);
            assert(all.contains(r));
        }
    } else {
        lemma_occurrences_cover(b, pattern, from + 1, p);
    }
}

/// A rule with a literal pattern proposes only places where the pattern stands, with the
/// pattern as what was matched.
pub proof fn lemma_literal_rules_propose_their_pattern(
    rules: Seq<MaskRule>,
    s: Seq<char>,
    i: int,
    h: Hit,
)
    requires
        0 <= i < rules.len(),
        rules[i].kind == MatchKind::Literal,
        h.rule == i,
        redaction::proposed(rules, s, rules.len() as int).contains(h),
    ensures
        h.matched == rules[i].pattern,
        rules[i].pattern.len() > 0,
        occurs_at(encode_utf8(s), encode_utf8(rules[i].pattern), h.start),
        h.end == h.start + encode_utf8(rules[i].pattern).len(),
{
    lemma_proposed_by(rules, s, rules.len() as int, h);
    let e = encode_utf8(rules[i].pattern);
    lemma_occurrences(encode_utf8(s), e, 0, (h.start, h.end));
    encode_utf8_decode_utf8(rules[i].pattern);
    if rules[i].pattern.len() == 0 {
        assert(e.len() == 0);
    }
}

/// A rule with a literal pattern misses no place where the pattern stands: the place starts
/// inside one that the rule proposes.
pub proof fn lemma_literal_rules_miss_nothing(
    rules: Seq<MaskRule>,
    s: Seq<char>,
    i: int,
    p: int,
)
    requires
        0 <= i < rules.len(),
        rules[i].kind == MatchKind::Literal,
        rules[i].pattern.len() > 0,
        occurs_at(encode_utf8(s), encode_utf8(rules[i].pattern), p),
    ensures
        exists|h: Hit| #[trigger]
            redaction::proposed(rules, s, rules.len() as int).contains(h) && h.rule == i && h.start
                <= p < h.end,
{
    let b = encode_utf8(s);
    let e = encode_utf8(rules[i].pattern);
    if e.len() == 0 {
        encode_utf8_decode_utf8(rules[i].pattern);
        let nothing: Seq<char> = seq![];
        encode_utf8_decode_utf8(nothing);
        assert(encode_utf8(nothing) =~= e);
        text::lemma_encoding_is_injective(nothing, rules[i].pattern);
    }
    lemma_occurrences_cover(b, e, 0, p);
    let r = choose|r: (int, int)| #[trigger]
        redaction::occurrences(b, e, 0).contains(r) && r.0 <= p < r.1;
    let h = redaction::hit_at(i, s, r);
    assert((h.start, h.end) == r);
    lemma_proposed_by(rules, s, rules.len() as int, h);
}

proof fn lemma_first_overlap_is_first(list: Seq<Hit>, h: Hit) -> (a: int)
    requires
        redaction::first_overlap(list, h) is Some,
    ensures
        0 <= a < list.len(),
        list[a] == redaction::first_overlap(list, h)->0,
        redaction::overlap(list[a], h),
        forall|j: int| 0 <= j < a ==> !redaction::overlap(#[trigger] list[j], h),
    decreases list.len(),
{
    let front = list.drop_last();
    if redaction::first_overlap(front, h) is Some {
        let a = lemma_first_overlap_is_first(front, h);
        assert(front[a] == list[a]);
        assert forall|j: int| 0 <= j < a implies !redaction::overlap(#[trigger] list[j], h) by {
            assert(front[j] == list[j]);
        }
        a
    } else {
        lemma_first_overlap(front, h);
        assert forall|j: int| 0 <= j < front.len() implies !redaction::overlap(
            #[trigger] list[j],
            h,
        ) by {
            assert(front[j] == list[j]);
        }
        list.len() - 1
    }
}

/// Where the winners stand in a ranking: in the same order.
spec fn winner_place(ranking: Seq<(i32, Hit)>, n: int, a: int) -> int
    decreases n,
{
    if n <= 0 {
        0
    } else if a < redaction::winners(ranking, n - 1).len() {
        winner_place(ranking, n - 1, a)
    } else {
        n - 1
    }
}

proof fn lemma_winner_place(ranking: Seq<(i32, Hit)>, n: int, a: int)
    requires
        0 <= n <= ranking.len(),
        0 <= a < redaction::winners(ranking, n).len(),
    ensures
        0 <= winner_place(ranking, n, a) < n,
        ranking[winner_place(ranking, n, a)].1 == redaction::winners(ranking, n)[a],
        forall|m: int|
            0 <= m <= n && a < redaction::winners(ranking, m).len() ==> #[trigger] winner_place(
                ranking,
                m,
                a,
            ) == winner_place(ranking, n, a),
        forall|m: int|
            0 <= m <= n && a >= (#[trigger] redaction::winners(ranking, m)).len() ==> winner_place(
                ranking,
                n,
                a,
            ) >= m,
    decreases n,
{
    if n > 0 {
        let before = redaction::winners(ranking, n - 1);
        if a < before.len() {
            lemma_winner_place(ranking, n - 1, a);
        } else {
            assert forall|m: int|
                0 <= m <= n && a < redaction::winners(ranking, m).len() implies #[trigger] winner_place(
                ranking,
                m,
                a,
            ) == winner_place(ranking, n, a) by {
                if m < n {
                    lemma_winners_grow(ranking, m, n - 1, a);
                }
            }
        }
    }
}

proof fn lemma_winners_in_rank_order(ranking: Seq<(i32, Hit)>, n: int, a: int, c: int)
    requires
        0 <= n <= ranking.len(),
        0 <= a < c < redaction::winners(ranking, n).len(),
    ensures
        winner_place(ranking, n, a) < winner_place(ranking, n, c),
    decreases n,
{
    if n > 0 {
        let before = redaction::winners(ranking, n - 1);
        if c < before.len() {
            lemma_winners_in_rank_order(ranking, n - 1, a, c);
        } else {
            lemma_winner_place(ranking, n - 1, a);
        }
    }
}

proof fn lemma_best_winner(ranking: Seq<(i32, Hit)>, n: int, i: int, y: int)
    requires
        0 <= n <= ranking.len(),
        0 <= i < redaction::losers(ranking, n).len(),
        0 <= y < redaction::winners(ranking, n).len(),
        redaction::overlap(
            redaction::winners(ranking, n)[y],
            redaction::losers(ranking, n)[i].0,
        ),
    ensures
        exists|k: int, l: int|
            0 <= k <= l < n && (#[trigger] ranking[k]).1 == redaction::losers(ranking, n)[i].1 && (
            #[trigger] ranking[l]).1 == redaction::winners(ranking, n)[y],
    decreases n,
{
    if n > 0 {
        let before = redaction::winners(ranking, n - 1);
        let h = ranking[n - 1].1;
        if i < redaction::losers(ranking, n - 1).len() {
            if y < before.len() {
                lemma_best_winner(ranking, n - 1, i, y);
            } else {
                lemma_lost_to(ranking, n - 1, i);
                let (g, x) = redaction::losers(ranking, n - 1)[i];
                let (k, b) = choose|k: int, b: int|
                    0 <= k < b < n - 1 && (#[trigger] ranking[k]).1 == x && (
                    #[trigger] ranking[b]).1 == g;
                assert(ranking[n - 1].1 == redaction::winners(ranking, n)[y]);
                assert(ranking[k].1 == x);
            }
        } else {
            let a = lemma_first_overlap_is_first(before, h);
            assert(redaction::winners(ranking, n) == before);
            assert(a <= y);
            lemma_winner_place(ranking, n - 1, a);
            lemma_winner_place(ranking, n - 1, y);
            if a < y {
                lemma_winners_in_rank_order(ranking, n - 1, a, y);
            }
            let k = winner_place(ranking, n - 1, a);
            let l = winner_place(ranking, n - 1, y);
            assert(ranking[k].1 == redaction::losers(ranking, n)[i].1);
            assert(ranking[l].1 == redaction::winners(ranking, n)[y]);
        }
    }
}

/// A suppressed hit is said to give way to the best of the accepted hits that it overlaps: no other
/// of them has a higher priority, or the same priority and more length, or the same of both and a
/// start further left, or all of these the same and a rule that comes sooner.
pub proof fn lemma_the_best_winner_is_named(
    rules: Seq<MaskRule>,
    s: Seq<char>,
    list: Seq<Hit>,
    shield: Seq<(int, int)>,
    i: int,
    y: Hit,
)
    requires
        redaction::are_hits(rules.len() as int, s, list),
        0 <= i < redaction::ruling(rules, list, shield).suppressed.len(),
        redaction::ruling(rules, list, shield).accepted.contains(y),
        ({
            let h = redaction::ruling(rules, list, shield).suppressed[i].0;
            y.start < h.end && h.start < y.end
        }),
    ensures
        ({
            let x = redaction::ruling(rules, list, shield).suppressed[i].1;
            let high = rules[x.rule].priority;
            let low = rules[y.rule].priority;
            let long = x.end - x.start;
            let short = y.end - y.start;
            &&& high >= low
            &&& high == low ==> long >= short
            &&& high == low && long == short ==> x.start <= y.start
            &&& high == low && long == short && x.start == y.start ==> x.rule <= y.rule
        }),
{
    let ranking = redaction::ranking_of(rules, list, shield);
    let m = ranking.len() as int;
    let w = redaction::winners(ranking, m);
    let left = |a: Hit, b: Hit| a.start < b.start;
    let (h, x) = redaction::losers(ranking, m)[i];
    sorting::lemma_sorted_contains(w, left, y);
    let c = choose|c: int| 0 <= c < w.len() && w[c] == y;
    lemma_best_winner(ranking, m, i, c);
    let (k, l) = choose|k: int, l: int|
        0 <= k <= l < m && (#[trigger] ranking[k]).1 == x && (#[trigger] ranking[l]).1 == y;
    lemma_winning_order();
    sorting::lemma_sorted_in_order(
        redaction::with_priorities(rules, redaction::unshielded(list, shield)),
        winning(),
    );
    lemma_ranking_holds(rules, list, shield, x);
    assert(ranking[k] == redaction::with_priority(rules, x));
    assert(ranking[l] == redaction::with_priority(rules, y));
    if k < l {
        assert(!(winning()(ranking[l], ranking[k])));
    }
}

}
