//! Laws of recognition, adjudication and replacement.

use crate::engine;
use crate::engine::Step;
use crate::matching;
use crate::masking;
use crate::rules;
use crate::error::ErrorCode;
use crate::rules::{CustomRange, Loss, Rule, RuleSet, Span};
use crate::sorting;
use crate::text;
use vstd::prelude::*;
use vstd::utf8::*;

verus! {

broadcast use vstd::seq::group_seq_axioms;

/// The span is a fragment of the text that cuts no character and is not empty.
pub open spec fn is_fragment(s: Seq<char>, c: Span) -> bool {
    c.start < c.end && text::is_text_range(s, c.start, c.end)
}

proof fn lemma_free_hits(
    s: Seq<char>,
    hits: Seq<(int, int)>,
    rule_id: Seq<char>,
    protected: Seq<(int, int)>,
)
    requires
        forall|i: int|
            0 <= i < hits.len() ==> (#[trigger] hits[i]).0 < hits[i].1 && text::is_text_range(
                s,
                hits[i].0,
                hits[i].1,
            ),
    ensures
        forall|i: int|
            0 <= i < rules::free_hits(hits, rule_id, protected).len() ==> {
                let c = #[trigger] rules::free_hits(hits, rule_id, protected)[i];
                is_fragment(s, c) && !rules::meets_any(c.start, c.end, protected)
            },
    decreases hits.len(),
{
    if hits.len() > 0 {
        lemma_free_hits(s, hits.drop_last(), rule_id, protected);
        assert(hits.last() == hits[hits.len() - 1]);
        let front = rules::free_hits(hits.drop_last(), rule_id, protected);
        let all = rules::free_hits(hits, rule_id, protected);
        assert forall|i: int| 0 <= i < all.len() implies {
            let c = #[trigger] all[i];
            is_fragment(s, c) && !rules::meets_any(c.start, c.end, protected)
        } by {
            if i < front.len() {
                assert(all[i] == front[i]);
            }
        }
    }
}

proof fn lemma_rules_spans(
    s: Seq<char>,
    list: Seq<Rule>,
    n: int,
    programs: Map<Seq<char>, Option<Seq<Step>>>,
    protected: Seq<(int, int)>,
)
    ensures
        forall|i: int|
            0 <= i < rules::rules_spans(list, n, programs, encode_utf8(s), protected).len() ==> {
                let c = #[trigger] rules::rules_spans(
                    list,
                    n,
                    programs,
                    encode_utf8(s),
                    protected,
                )[i];
                is_fragment(s, c) && !rules::meets_any(c.start, c.end, protected)
            },
    decreases n,
{
    let b = encode_utf8(s);
    if n > 0 {
        lemma_rules_spans(s, list, n - 1, programs, protected);
        let rule = list[n - 1];
        let front = rules::rules_spans(list, n - 1, programs, b, protected);
        let more = rules::rule_spans(rule, programs, b, protected);
        if more.len() > 0 {
            let p = programs[rule.id@]->0;
            matching::lemma_hits_are_apart(p, s, 0);
            lemma_free_hits(s, engine::scan(p, b, 0), rule.id@, protected);
        }
        let all = rules::rules_spans(list, n, programs, b, protected);
        assert forall|i: int| 0 <= i < all.len() implies {
            let c = #[trigger] all[i];
            is_fragment(s, c) && !rules::meets_any(c.start, c.end, protected)
        } by {
            if i < front.len() {
                assert(all[i] == front[i]);
            } else {
                assert(all[i] == more[i - front.len()]);
            }
        }
    }
}

proof fn lemma_custom_spans(
    s: Seq<char>,
    custom: Seq<CustomRange>,
    n: int,
    protected: Seq<(int, int)>,
)
    requires
        rules::custom_spans(custom, n, s, protected) is Ok,
    ensures
        forall|i: int|
            0 <= i < rules::custom_spans(custom, n, s, protected)->Ok_0.len() ==> {
                let c = #[trigger] rules::custom_spans(custom, n, s, protected)->Ok_0[i];
                is_fragment(s, c) && !rules::meets_any(c.start, c.end, protected)
            },
    decreases n,
{
    if n > 0 {
        lemma_custom_spans(s, custom, n - 1, protected);
    }
}

/// Every candidate is a fragment of the text, and none meets a protected token.
pub proof fn lemma_candidates_spare_tokens(
    s: Seq<char>,
    list: Seq<Rule>,
    custom: Seq<CustomRange>,
    i: int,
)
    requires
        rules::candidates(s, list, custom) is Ok,
        0 <= i < rules::candidates(s, list, custom)->Ok_0.0.len(),
    ensures
        ({
            let (found, protected) = rules::candidates(s, list, custom)->Ok_0;
            &&& is_fragment(s, found[i])
            &&& !rules::meets_any(found[i].start, found[i].end, protected)
        }),
{
    let b = encode_utf8(s);
    let m = rules::programs(list, list.len() as int)->Ok_0;
    let token = rules::pattern_program(rules::TOKEN_PATTERN@)->Ok_0;
    let protected = rules::protected_ranges(b, token);
    lemma_rules_spans(s, list, list.len() as int, m, protected);
    lemma_custom_spans(s, custom, custom.len() as int, protected);
    let front = rules::rules_spans(list, list.len() as int, m, b, protected);
    let (found, shield) = rules::candidates(s, list, custom)->Ok_0;
    if i < front.len() {
        assert(found[i] == front[i]);
    } else {
        assert(found[i] == rules::custom_spans(custom, custom.len() as int, s, protected)->Ok_0[i
            - front.len()]);
    }
}

/// The order of adjudication is total: only equal fragments stand side by side.
pub proof fn lemma_ranking_is_total(priority: spec_fn(Seq<char>) -> int)
    ensures
        sorting::is_total_order(rules::ranking(priority)),
{
    let before = rules::ranking(priority);
    assert forall|a: Span, b: Span| #[trigger] before(a, b) implies !before(b, a) by {
        text::lemma_text_before_is_total_order(a.rule_id, b.rule_id, a.rule_id);
    }
    assert forall|a: Span, b: Span, c: Span|
        !(#[trigger] before(b, a)) && !(#[trigger] before(c, b)) implies !before(c, a) by {
        text::lemma_text_before_is_total_order(a.rule_id, b.rule_id, c.rule_id);
        text::lemma_text_before_is_total_order(c.rule_id, a.rule_id, b.rule_id);
        text::lemma_text_before_is_total_order(b.rule_id, c.rule_id, a.rule_id);
        text::lemma_text_before_is_total_order(c.rule_id, b.rule_id, a.rule_id);
    }
    assert forall|a: Span, b: Span| !(#[trigger] before(a, b)) && !before(b, a) implies a == b by {
        text::lemma_text_before_is_total_order(a.rule_id, b.rule_id, a.rule_id);
    }
}

/// The verdict does not depend on the order in which the fragments were found.
pub proof fn lemma_verdict_ignores_order(
    a: Seq<Span>,
    b: Seq<Span>,
    priority: spec_fn(Seq<char>) -> int,
)
    requires
        a.to_multiset() == b.to_multiset(),
    ensures
        rules::verdict(a, priority) == rules::verdict(b, priority),
{
    lemma_ranking_is_total(priority);
    sorting::lemma_sorted_ignores_order(a, b, rules::ranking(priority));
}

proof fn lemma_first_meeting(won: Seq<Span>, c: Span)
    ensures
        match rules::first_meeting(won, c) {
            Some(i) => 0 <= i < won.len() && rules::meets(c, won[i]),
            None => forall|i: int| 0 <= i < won.len() ==> !rules::meets(c, #[trigger] won[i]),
        },
    decreases won.len(),
{
    if won.len() > 0 {
        lemma_first_meeting(won.drop_last(), c);
        assert(won.last() == won[won.len() - 1]);
        match rules::first_meeting(won.drop_last(), c) {
            Some(i) => {
                assert(won.drop_last()[i] == won[i]);
            },
            None => {
                assert forall|i: int|
                    0 <= i < won.len() && rules::first_meeting(won, c) is None implies !rules::meets(
                    c,
                    #[trigger] won[i],
                ) by {
                    if i < won.len() - 1 {
                        assert(won.drop_last()[i] == won[i]);
                    }
                }
            },
        }
    }
}

/// The fragment of a loss.
pub open spec fn loser(l: Loss) -> Span {
    Span { start: l.start, end: l.end, rule_id: l.rule_id }
}

/// The fragment has lost to the winner: the two meet, and it does not rank before it.
pub open spec fn beaten_by(
    ranked: Seq<Span>,
    priority: spec_fn(Seq<char>) -> int,
    l: Loss,
    w: Span,
) -> bool {
    &&& ranked.contains(loser(l))
    &&& rules::meets(loser(l), w)
    &&& !rules::ranking(priority)(loser(l), w)
    &&& l == rules::loss_to(priority, w, loser(l))
}

proof fn lemma_settled(ranked: Seq<Span>, n: int, priority: spec_fn(Seq<char>) -> int)
    requires
        0 <= n <= ranked.len(),
        sorting::in_order(ranked, rules::ranking(priority)),
    ensures
        ({
            let (won, lost) = rules::settled(ranked, n, priority);
            &&& won.len() + lost.len() == n
            &&& forall|i: int| 0 <= i < won.len() ==> ranked.take(n).contains(#[trigger] won[i])
            &&& forall|i: int, j: int|
                0 <= i < j < won.len() ==> !rules::meets(#[trigger] won[j], #[trigger] won[i])
            &&& forall|i: int|
                0 <= i < lost.len() ==> exists|k: int|
                    0 <= k < won.len() && beaten_by(
                        ranked,
                        priority,
                        #[trigger] lost[i],
                        #[trigger] won[k],
                    )
            &&& forall|i: int|
                0 <= i < n ==> won.contains(#[trigger] ranked[i]) || exists|k: int|
                    0 <= k < lost.len() && loser(#[trigger] lost[k]) == ranked[i]
        }),
    decreases n,
{
    if n > 0 {
        lemma_settled(ranked, n - 1, priority);
        let (won, lost) = rules::settled(ranked, n - 1, priority);
        let (won2, lost2) = rules::settled(ranked, n, priority);
        let c = ranked[n - 1];
        let earlier = ranked.take(n - 1);
        lemma_first_meeting(won, c);
        assert forall|x: Span| ranked.take(n - 1).contains(x) implies ranked.take(n).contains(
            x,
        ) by {
            let i = choose|i: int| 0 <= i < n - 1 && earlier[i] == x;
            assert(ranked.take(n)[i] == x);
        }
        assert(ranked.take(n)[n - 1] == c);
        assert(ranked.take(n).contains(c));
        match rules::first_meeting(won, c) {
            Some(w) => {
                let l = rules::loss_to(priority, won[w], c);
                assert(lost2 == lost.push(l));
                assert(won2 == won);
                assert(beaten_by(ranked, priority, l, won[w])) by {
                    assert(loser(l) == c);
                    assert(ranked.contains(c));
                    let i = choose|i: int| 0 <= i < n - 1 && earlier[i] == won[w];
                    assert(ranked.take(n - 1).contains(won[w]));
                    assert(ranked[i] == won[w]);
                }
                assert forall|i: int| 0 <= i < lost2.len() implies exists|k: int|
                    0 <= k < won2.len() && beaten_by(
                        ranked,
                        priority,
                        #[trigger] lost2[i],
                        #[trigger] won2[k],
                    ) by {
                    if i < lost.len() {
                        assert(lost2[i] == lost[i]);
                    } else {
                        assert(beaten_by(ranked, priority, lost2[i], won2[w]));
                    }
                }
                assert forall|i: int| 0 <= i < n implies won2.contains(#[trigger] ranked[i])
                    || exists|k: int|
                    0 <= k < lost2.len() && loser(#[trigger] lost2[k]) == ranked[i] by {
                    if i < n - 1 {
                        if !won.contains(ranked[i]) {
                            let k = choose|k: int|
                                0 <= k < lost.len() && loser(#[trigger] lost[k]) == ranked[i];
                            assert(lost2[k] == lost[k]);
                        }
                    } else {
                        assert(loser(lost2[lost.len() as int]) == ranked[i]);
                    }
                }
            },
            None => {
                assert(won2 == won.push(c));
                assert(lost2 == lost);
                assert forall|i: int| 0 <= i < won2.len() implies ranked.take(n).contains(
                    #[trigger] won2[i],
                ) by {
                    if i < won.len() {
                        assert(won2[i] == won[i]);
                    }
                }
                assert forall|i: int, j: int| 0 <= i < j < won2.len() implies !rules::meets(
                    #[trigger] won2[j],
                    #[trigger] won2[i],
                ) by {
                    assert(won2[i] == won[i]);
                    if j < won.len() {
                        assert(won2[j] == won[j]);
                    }
                }
                assert forall|i: int| 0 <= i < lost2.len() implies exists|k: int|
                    0 <= k < won2.len() && beaten_by(
                        ranked,
                        priority,
                        #[trigger] lost2[i],
                        #[trigger] won2[k],
                    ) by {
                    let k = choose|k: int|
                        0 <= k < won.len() && beaten_by(
                            ranked,
                            priority,
                            #[trigger] lost[i],
                            #[trigger] won[k],
                        );
                    assert(won2[k] == won[k]);
                }
                assert forall|i: int| 0 <= i < n implies won2.contains(#[trigger] ranked[i])
                    || exists|k: int|
                    0 <= k < lost2.len() && loser(#[trigger] lost2[k]) == ranked[i] by {
                    if i < n - 1 {
                        if won.contains(ranked[i]) {
                            let k = choose|k: int| 0 <= k < won.len() && won[k] == ranked[i];
                            assert(won2[k] == ranked[i]);
                        }
                    } else {
                        assert(won2[won.len() as int] == ranked[i]);
                    }
                }
            },
        }
    }
}

/// Of the fragments found each one is selected or suppressed; the selected ones lie apart,
/// from left to right; and a suppressed one meets a selected one that it does not outrank,
/// which the report names.
#[verifier::spinoff_prover]
pub proof fn lemma_verdict_is_fair(all: Seq<Span>, priority: spec_fn(Seq<char>) -> int)
    requires
        forall|i: int| 0 <= i < all.len() ==> (#[trigger] all[i]).start < all[i].end,
    ensures
        ({
            let (won, lost) = rules::verdict(all, priority);
            &&& won.len() + lost.len() == all.len()
            &&& forall|i: int| 0 <= i < won.len() ==> all.contains(#[trigger] won[i])
            &&& forall|i: int, j: int|
                0 <= i < j < won.len() ==> (#[trigger] won[i]).end <= (#[trigger] won[j]).start
            &&& forall|i: int|
                0 <= i < lost.len() ==> exists|k: int|
                    0 <= k < won.len() && beaten_by(
                        all,
                        priority,
                        #[trigger] lost[i],
                        #[trigger] won[k],
                    )
            &&& forall|i: int|
                0 <= i < all.len() ==> won.contains(#[trigger] all[i]) || exists|k: int|
                    0 <= k < lost.len() && loser(#[trigger] lost[k]) == all[i]
        }),
{
    let before = rules::ranking(priority);
    let ranked = sorting::sorted(all, before);
    let n = ranked.len() as int;
    lemma_ranking_is_total(priority);
    sorting::lemma_sorted_in_order(all, before);
    sorting::lemma_sorted_permutes(all, before);
    lemma_settled(ranked, n, priority);
    assert(ranked.take(n) =~= ranked);
    let (w, l) = rules::settled(ranked, n, priority);
    let by_span = |a: Span, b: Span| rules::span_before(a, b);
    let by_loss = |a: Loss, b: Loss| rules::loss_before(a, b);
    let won = sorting::sorted(w, by_span);
    let lost = sorting::sorted(l, by_loss);
    sorting::lemma_sorted_permutes(w, by_span);
    sorting::lemma_sorted_permutes(l, by_loss);
    sorting::lemma_sorted_in_order(w, by_span);
    assert(rules::verdict(all, priority) == (won, lost));
    assert(won.len() + lost.len() == all.len());
    assert forall|x: Span| w.contains(x) == won.contains(x) by {
        sorting::lemma_sorted_contains(w, by_span, x);
    }
    assert forall|x: Loss| l.contains(x) == lost.contains(x) by {
        sorting::lemma_sorted_contains(l, by_loss, x);
    }
    assert forall|x: Span| ranked.contains(x) == all.contains(x) by {
        sorting::lemma_sorted_contains(all, before, x);
    }
    assert forall|i: int| 0 <= i < won.len() implies all.contains(#[trigger] won[i]) by {
        assert(won.contains(won[i]));
        let k = choose|k: int| 0 <= k < w.len() && w[k] == won[i];
        assert(ranked.take(n).contains(w[k]));
    }
    assert forall|i: int, j: int| 0 <= i < j < won.len() implies (#[trigger] won[i]).end <= (
    #[trigger] won[j]).start by {
        lemma_sorted_stays_apart(w, won, i, j);
        let x = choose|x: int| 0 <= x < all.len() && all[x] == won[i];
        let y = choose|y: int| 0 <= y < all.len() && all[y] == won[j];
        assert(all.contains(won[i]) && all.contains(won[j]));
        assert(all[x].start < all[x].end && all[y].start < all[y].end);
        assert(!by_span(won[j], won[i]));
    }
    assert forall|i: int| 0 <= i < lost.len() implies exists|k: int|
        0 <= k < won.len() && beaten_by(all, priority, #[trigger] lost[i], #[trigger] won[k]) by {
        assert(lost.contains(lost[i]));
        let x = choose|x: int| 0 <= x < l.len() && l[x] == lost[i];
        let y = choose|y: int|
            0 <= y < w.len() && beaten_by(ranked, priority, #[trigger] l[x], #[trigger] w[y]);
        assert(won.contains(w[y]));
        let k = choose|k: int| 0 <= k < won.len() && won[k] == w[y];
        assert(beaten_by(all, priority, lost[i], won[k]));
    }
    assert forall|i: int| 0 <= i < all.len() implies won.contains(#[trigger] all[i])
        || exists|k: int| 0 <= k < lost.len() && loser(#[trigger] lost[k]) == all[i] by {
        assert(ranked.contains(all[i]));
        let x = choose|x: int| 0 <= x < ranked.len() && ranked[x] == all[i];
        assert(w.contains(ranked[x]) || exists|k: int|
            0 <= k < l.len() && loser(#[trigger] l[k]) == ranked[x]);
        if !w.contains(ranked[x]) {
            let y = choose|y: int| 0 <= y < l.len() && loser(#[trigger] l[y]) == ranked[x];
            assert(lost.contains(l[y]));
            let k = choose|k: int| 0 <= k < lost.len() && lost[k] == l[y];
            assert(loser(lost[k]) == all[i]);
        }
    }
}

/// Fragments of which no two meet do not meet after sorting either.
proof fn lemma_sorted_stays_apart(w: Seq<Span>, won: Seq<Span>, i: int, j: int)
    requires
        won.to_multiset() == w.to_multiset(),
        0 <= i < j < won.len(),
        forall|a: int, b: int|
            0 <= a < b < w.len() ==> !rules::meets(#[trigger] w[b], #[trigger] w[a]),
    ensures
        won[i] != won[j] || !rules::meets(won[i], won[i]),
        won[i] != won[j] ==> !rules::meets(won[i], won[j]),
{
    vstd::seq_lib::to_multiset_contains(w, won[i]);
    vstd::seq_lib::to_multiset_contains(w, won[j]);
    vstd::seq_lib::to_multiset_contains(won, won[i]);
    vstd::seq_lib::to_multiset_contains(won, won[j]);
    assert(won.contains(won[i]) && won.contains(won[j]));
    let a = choose|a: int| 0 <= a < w.len() && w[a] == won[i];
    let b = choose|b: int| 0 <= b < w.len() && w[b] == won[j];
    if won[i] != won[j] {
        if a < b {
            assert(!rules::meets(w[b], w[a]));
        } else {
            assert(!rules::meets(w[a], w[b]));
        }
    } else {
        lemma_twice(w, won, i, j);
        let x = won[i];
        let (p, q) = choose|p: int, q: int| 0 <= p < q < w.len() && w[p] == x && w[q] == x;
        assert(!rules::meets(w[q], w[p]));
    }
}

/// What occurs twice in a list occurs twice in each list with the same items.
proof fn lemma_twice(w: Seq<Span>, won: Seq<Span>, i: int, j: int)
    requires
        won.to_multiset() == w.to_multiset(),
        0 <= i < j < won.len(),
        won[i] == won[j],
    ensures
        exists|p: int, q: int| 0 <= p < q < w.len() && w[p] == won[i] && w[q] == won[i],
{
    let x = won[i];
    let rest = won.remove(j);
    vstd::seq_lib::to_multiset_remove(won, j);
    assert(rest[i] == x);
    assert(rest.contains(x));
    vstd::seq_lib::to_multiset_contains(rest, x);
    vstd::seq_lib::to_multiset_contains(w, x);
    assert(won.contains(x));
    vstd::seq_lib::to_multiset_contains(won, x);
    let p = choose|p: int| 0 <= p < w.len() && w[p] == x;
    let less = w.remove(p);
    vstd::seq_lib::to_multiset_remove(w, p);
    vstd::seq_lib::to_multiset_contains(less, x);
    let q = choose|q: int| 0 <= q < less.len() && less[q] == x;
    let r = if q < p {
        q
    } else {
        q + 1
    };
    assert(w[r] == x);
    if r < p {
        assert(w[r] == x && w[p] == x);
    } else {
        assert(w[p] == x && w[r] == x);
    }
}

/// Where the spans start and end.
pub open spec fn cuts(selected: Seq<Span>) -> Seq<(int, int)> {
    selected.map_values(|c: Span| (c.start, c.end))
}

/// Replacements at growing places are taken in reverse.
proof fn lemma_right_to_left_reverses(list: Seq<(int, int, Seq<char>)>)
    requires
        forall|i: int, j: int| 0 <= i < j < list.len() ==> (#[trigger] list[i]).0 < (
        #[trigger] list[j]).0,
    ensures
        rules::right_to_left(list) == list.reverse(),
    decreases list.len(),
{
    let before = |a: (int, int, Seq<char>), b: (int, int, Seq<char>)| a.0 > b.0;
    if list.len() > 0 {
        let front = list.drop_last();
        lemma_right_to_left_reverses(front);
        lemma_inserted_in_front(front.reverse(), list.last());
        assert(seq![list.last()] + front.reverse() =~= list.reverse());
    } else {
        assert(list.reverse() =~= list);
    }
}

proof fn lemma_inserted_in_front(
    list: Seq<(int, int, Seq<char>)>,
    x: (int, int, Seq<char>),
)
    requires
        forall|i: int| 0 <= i < list.len() ==> (#[trigger] list[i]).0 < x.0,
    ensures
        sorting::inserted(
            list,
            x,
            |a: (int, int, Seq<char>), b: (int, int, Seq<char>)| a.0 > b.0,
        ) == seq![x] + list,
    decreases list.len(),
{
    let before = |a: (int, int, Seq<char>), b: (int, int, Seq<char>)| a.0 > b.0;
    if list.len() > 0 {
        assert(list.last() == list[list.len() - 1]);
        lemma_inserted_in_front(list.drop_last(), x);
        assert((seq![x] + list.drop_last()).push(list.last()) =~= seq![x] + list);
    } else {
        assert(list.push(x) =~= seq![x] + list);
    }
}

/// After `n` replacements from the right, the text is masked from fragment `len - n` on.
proof fn lemma_spliced_so_far(
    s: Seq<char>,
    selected: Seq<Span>,
    tokens: Seq<Seq<char>>,
    n: int,
)
    requires
        masking::lie_apart(s, cuts(selected)),
        tokens.len() == selected.len(),
        0 <= n <= selected.len(),
    ensures
        ({
            let list = rules::replacements(selected, tokens).reverse();
            &&& rules::spliced(s, list, n) == masking::half_masked(
                s,
                cuts(selected),
                tokens,
                selected.len() - n,
            )
            &&& n < selected.len() ==> text::is_text_range(
                rules::spliced(s, list, n),
                list[n].0,
                list[n].1,
            )
        }),
    decreases n,
{
    let list = rules::replacements(selected, tokens).reverse();
    let k = selected.len() - n;
    if n == 0 {
        masking::lemma_nothing_masked(s, cuts(selected), tokens);
    } else {
        lemma_spliced_so_far(s, selected, tokens, n - 1);
        masking::lemma_mask_step(s, cuts(selected), tokens, k);
        assert(list[n - 1] == (selected[k].start, selected[k].end, tokens[k]));
    }
    if n < selected.len() {
        masking::lemma_mask_step(s, cuts(selected), tokens, k - 1);
        assert(list[n] == (selected[k - 1].start, selected[k - 1].end, tokens[k - 1]));
    }
}

/// Fragments that lie apart, empty ones among them, can all be replaced, whatever the tokens
/// are, and only they change.
pub proof fn lemma_masking_changes_only_fragments(
    s: Seq<char>,
    selected: Seq<Span>,
    tokens: Seq<Seq<char>>,
)
    requires
        masking::lie_apart(s, cuts(selected)),
        tokens.len() == selected.len(),
    ensures
        rules::can_splice(s, rules::right_to_left(rules::replacements(selected, tokens))),
        rules::masked(s, selected, tokens) == masking::masked_text(s, cuts(selected), tokens),
{
    let list = rules::replacements(selected, tokens);
    assert forall|i: int, j: int| 0 <= i < j < list.len() implies (#[trigger] list[i]).0 < (
    #[trigger] list[j]).0 by {
        let places = cuts(selected);
        assert(places[i].0 < places[j].0);
    }
    lemma_right_to_left_reverses(list);
    let steps = list.reverse();
    assert forall|n: int| 0 <= n < steps.len() implies text::is_text_range(
        #[trigger] rules::spliced(s, steps, n),
        steps[n].0,
        steps[n].1,
    ) by {
        lemma_spliced_so_far(s, selected, tokens, n);
    }
    lemma_spliced_so_far(s, selected, tokens, selected.len() as int);
}

/// The fragment gives way to the winner: the two have a byte in common, and the winner has at
/// least its priority; if the priorities are equal, at least its length; if the lengths are equal
/// too, it starts no later; if both start at the same place, its rule id does not come behind.
/// The reason says which of these decided.
pub open spec fn gives_way(priority: spec_fn(Seq<char>) -> int, l: Loss, w: Span) -> bool {
    let high = priority(w.rule_id);
    let low = priority(l.rule_id);
    let long = w.end - w.start;
    let short = l.end - l.start;
    &&& w.start < l.end && l.start < w.end
    &&& l.by_rule_id == w.rule_id
    &&& high >= low
    &&& high == low ==> long >= short
    &&& high == low && long == short ==> w.start <= l.start
    &&& high == low && long == short && w.start == l.start ==> !text::text_before(
        l.rule_id,
        w.rule_id,
    )
    &&& high > low ==> l.reason == "lower_priority"@
    &&& high == low && long > short ==> l.reason == "shorter_match"@
    &&& high == low && long == short ==> l.reason == "stable_order_tie_break"@
}

/// Adjudication goes by priority, then by length, then by place, then by rule id: every
/// suppressed fragment gives way to a selected one. The suppressed ones are listed from left to
/// right, and each of them was found.
pub proof fn lemma_verdict_goes_by_priority(
    all: Seq<Span>,
    priority: spec_fn(Seq<char>) -> int,
    i: int,
)
    requires
        forall|i: int| 0 <= i < all.len() ==> (#[trigger] all[i]).start < all[i].end,
        0 <= i < rules::verdict(all, priority).1.len(),
    ensures
        ({
            let (won, lost) = rules::verdict(all, priority);
            &&& exists|k: int|
                0 <= k < won.len() && gives_way(priority, lost[i], #[trigger] won[k])
            &&& all.contains(
                Span { start: lost[i].start, end: lost[i].end, rule_id: lost[i].rule_id },
            )
            &&& forall|j: int|
                i < j < lost.len() ==> lost[i].start <= (#[trigger] lost[j]).start && (lost[i].start
                    == lost[j].start ==> lost[i].end <= lost[j].end)
        }),
{
    let (won, lost) = rules::verdict(all, priority);
    lemma_verdict_is_fair(all, priority);
    let k = choose|k: int|
        0 <= k < won.len() && beaten_by(all, priority, #[trigger] lost[i], #[trigger] won[k]);
    assert(!rules::ranking(priority)(loser(lost[i]), won[k]));
    text::lemma_text_before_is_total_order(lost[i].rule_id, won[k].rule_id, lost[i].rule_id);
    assert(gives_way(priority, lost[i], won[k]));
    let ranked = sorting::sorted(all, rules::ranking(priority));
    let l = rules::settled(ranked, ranked.len() as int, priority).1;
    let by_loss = |a: Loss, b: Loss| rules::loss_before(a, b);
    sorting::lemma_sorted_in_order(l, by_loss);
    assert forall|j: int| i < j < lost.len() implies lost[i].start <= (#[trigger] lost[j]).start && (
    lost[i].start == lost[j].start ==> lost[i].end <= lost[j].end) by {
        assert(!by_loss(lost[j], lost[i]));
    }
}

/// The pattern that a rule looks for: that of e-mail addresses, that of numbers, or its own; a
/// rule of any other kind has none.
pub open spec fn pattern_of(rule: Rule) -> Option<Seq<char>> {
    if rule.kind@ == "email"@ {
        Some("[a-zA-Z0-9._%+-]+@[a-zA-Z0-9.-]+"@)
    } else if rule.kind@ == "number"@ {
        Some("[0-9]{4,}"@)
    } else if rule.kind@ == "pattern"@ {
        Some(rule.pattern@)
    } else {
        None
    }
}

/// The range has no byte in common with any of the ranges.
pub open spec fn is_clear_of(start: int, end: int, list: Seq<(int, int)>) -> bool {
    forall|k: int| 0 <= k < list.len() ==> end <= (#[trigger] list[k]).0 || list[k].1 <= start
}

proof fn lemma_clear(start: int, end: int, list: Seq<(int, int)>)
    ensures
        is_clear_of(start, end, list) == !rules::meets_any(start, end, list),
{
    if rules::meets_any(start, end, list) {
        let i = choose|i: int|
            0 <= i < list.len() && start < (#[trigger] list[i]).1 && list[i].0 < end;
        assert(!(end <= list[i].0 || list[i].1 <= start));
    }
}

pub proof fn lemma_kinds_differ()
    ensures
        "email"@ != "number"@,
        "email"@ != "pattern"@,
        "email"@ != "range"@,
        "number"@ != "pattern"@,
        "number"@ != "range"@,
        "pattern"@ != "range"@,
{
    reveal_strlit("email");
    reveal_strlit("number");
    reveal_strlit("pattern");
    reveal_strlit("range");
    assert("email"@[0] == 'e' && "number"@[0] == 'n' && "pattern"@[0] == 'p' && "range"@[0] == 'r');
}

proof fn lemma_free_hits_hold(
    hits: Seq<(int, int)>,
    rule_id: Seq<char>,
    protected: Seq<(int, int)>,
    c: Span,
)
    ensures
        rules::free_hits(hits, rule_id, protected).contains(c) <==> c.rule_id == rule_id
            && hits.contains((c.start, c.end)) && is_clear_of(c.start, c.end, protected),
    decreases hits.len(),
{
    let all = rules::free_hits(hits, rule_id, protected);
    if hits.len() > 0 {
        let front = hits.drop_last();
        let last = hits.last();
        let kept = rules::free_hits(front, rule_id, protected);
        let new = Span { start: last.0, end: last.1, rule_id };
        lemma_free_hits_hold(front, rule_id, protected, c);
        lemma_clear(last.0, last.1, protected);
        assert(hits.contains((c.start, c.end)) <==> front.contains((c.start, c.end)) || (
        c.start,
        c.end,
        ) == last) by {
            let r = (c.start, c.end);
            if hits.contains(r) {
                let i = choose|i: int| 0 <= i < hits.len() && hits[i] == r;
                if i < front.len() {
                    assert(front[i] == r);
                }
            }
            if front.contains(r) {
                let i = choose|i: int| 0 <= i < front.len() && front[i] == r;
                assert(hits[i] == r);
            }
            assert(hits[hits.len() - 1] == last);
        }
        let longer = kept.push(new);
        assert(longer.contains(c) <==> kept.contains(c) || c == new) by {
            if longer.contains(c) {
                let i = choose|i: int| 0 <= i < longer.len() && longer[i] == c;
                if i < kept.len() {
                    assert(kept[i] == c);
                }
            }
            if kept.contains(c) {
                let i = choose|i: int| 0 <= i < kept.len() && kept[i] == c;
                assert(longer[i] == c);
            }
            assert(longer[kept.len() as int] == new);
        }
    }
}

proof fn lemma_rules_spans_hold(
    list: Seq<Rule>,
    n: int,
    programs: Map<Seq<char>, Option<Seq<Step>>>,
    b: Seq<u8>,
    protected: Seq<(int, int)>,
    c: Span,
)
    requires
        0 <= n <= list.len(),
    ensures
        rules::rules_spans(list, n, programs, b, protected).contains(c) <==> exists|i: int|
            0 <= i < n && rules::rule_spans(#[trigger] list[i], programs, b, protected).contains(c),
    decreases n,
{
    if n > 0 {
        lemma_rules_spans_hold(list, n - 1, programs, b, protected, c);
        let front = rules::rules_spans(list, n - 1, programs, b, protected);
        let more = rules::rule_spans(list[n - 1], programs, b, protected);
        let all = rules::rules_spans(list, n, programs, b, protected);
        assert(all == front + more);
        if all.contains(c) {
            let k = choose|k: int| 0 <= k < all.len() && all[k] == c;
            if k < front.len() {
                assert(front[k] == c);
                let i = choose|i: int|
                    0 <= i < n - 1 && rules::rule_spans(
                        #[trigger] list[i],
                        programs,
                        b,
                        protected,
                    ).contains(c);
                assert(rules::rule_spans(list[i], programs, b, protected).contains(c));
            } else {
                assert(more[k - front.len()] == c);
                assert(rules::rule_spans(list[n - 1], programs, b, protected).contains(c));
            }
        }
        if exists|i: int|
            0 <= i < n && rules::rule_spans(#[trigger] list[i], programs, b, protected).contains(
                c,
            ) {
            let i = choose|i: int|
                0 <= i < n && rules::rule_spans(#[trigger] list[i], programs, b, protected).contains(
                    c,
                );
            if i == n - 1 {
                let k = choose|k: int| 0 <= k < more.len() && more[k] == c;
                assert(all[front.len() + k] == c);
            } else {
                assert(front.contains(c));
                let k = choose|k: int| 0 <= k < front.len() && front[k] == c;
                assert(all[k] == c);
            }
        }
    }
}

proof fn lemma_custom_spans_hold(
    s: Seq<char>,
    custom: Seq<CustomRange>,
    n: int,
    protected: Seq<(int, int)>,
    c: Span,
)
    requires
        0 <= n <= custom.len(),
        rules::custom_spans(custom, n, s, protected) is Ok,
    ensures
        rules::custom_spans(custom, n, s, protected)->Ok_0.contains(c) <==> is_clear_of(
            c.start,
            c.end,
            protected,
        ) && exists|k: int|
            0 <= k < n && (#[trigger] custom[k]).start == c.start && custom[k].end == c.end
                && custom[k].rule_id@ == c.rule_id,
    decreases n,
{
    if n > 0 {
        lemma_custom_spans_hold(s, custom, n - 1, protected, c);
        let kept = rules::custom_spans(custom, n - 1, s, protected)->Ok_0;
        let new = custom[n - 1]@;
        let longer = kept.push(new);
        lemma_clear(new.start, new.end, protected);
        assert(longer.contains(c) <==> kept.contains(c) || c == new) by {
            if longer.contains(c) {
                let i = choose|i: int| 0 <= i < longer.len() && longer[i] == c;
                if i < kept.len() {
                    assert(kept[i] == c);
                }
            }
            if kept.contains(c) {
                let i = choose|i: int| 0 <= i < kept.len() && kept[i] == c;
                assert(longer[i] == c);
            }
            assert(longer[kept.len() as int] == new);
        }
        if c == new {
            assert(custom[n - 1].start == c.start && custom[n - 1].end == c.end
                && custom[n - 1].rule_id@ == c.rule_id);
        }
    }
}

/// The programs of rules with distinct ids: each enabled rule has that of its own pattern.
proof fn lemma_programs_hold(list: Seq<Rule>, n: int, i: int)
    requires
        0 <= i < n <= list.len(),
        rules::programs(list, n) is Ok,
        list[i].enabled,
        forall|j: int| i < j < n ==> (#[trigger] list[j]).id@ != list[i].id@,
    ensures
        ({
            let m = rules::programs(list, n)->Ok_0;
            &&& m.dom().contains(list[i].id@)
            &&& match pattern_of(list[i]) {
                Some(p) => engine::pattern(p) is Ok && m[list[i].id@] == Some(
                    engine::program(engine::pattern(p)->Ok_0),
                ),
                None => list[i].kind@ == "range"@ && m[list[i].id@] is None,
            }
        }),
    decreases n,
{
    lemma_kinds_differ();
    if i < n - 1 {
        lemma_programs_hold(list, n - 1, i);
        assert(list[n - 1].id@ != list[i].id@);
    }
}

proof fn lemma_candidates_hold(
    s: Seq<char>,
    list: Seq<Rule>,
    custom: Seq<CustomRange>,
    c: Span,
)
    requires
        rules::candidates(s, list, custom) is Ok,
    ensures
        ({
            let m = rules::programs(list, list.len() as int)->Ok_0;
            let (found, protected) = rules::candidates(s, list, custom)->Ok_0;
            &&& rules::programs(list, list.len() as int) is Ok
            &&& found.contains(c) <==> {
                ||| exists|i: int|
                    0 <= i < list.len() && rules::rule_spans(
                        #[trigger] list[i],
                        m,
                        encode_utf8(s),
                        protected,
                    ).contains(c)
                ||| is_clear_of(c.start, c.end, protected) && exists|k: int|
                    0 <= k < custom.len() && (#[trigger] custom[k]).start == c.start
                        && custom[k].end == c.end && custom[k].rule_id@ == c.rule_id
            }
        }),
{
    let b = encode_utf8(s);
    let n = list.len() as int;
    let m = rules::programs(list, n)->Ok_0;
    let (found, protected) = rules::candidates(s, list, custom)->Ok_0;
    let front = rules::rules_spans(list, n, m, b, protected);
    let extra = rules::custom_spans(custom, custom.len() as int, s, protected)->Ok_0;
    lemma_rules_spans_hold(list, n, m, b, protected, c);
    lemma_custom_spans_hold(s, custom, custom.len() as int, protected, c);
    assert(found == front + extra);
    assert(found.contains(c) <==> front.contains(c) || extra.contains(c)) by {
        if found.contains(c) {
            let k = choose|k: int| 0 <= k < found.len() && found[k] == c;
            if k < front.len() {
                assert(front[k] == c);
            } else {
                assert(extra[k - front.len()] == c);
            }
        }
        if front.contains(c) {
            let k = choose|k: int| 0 <= k < front.len() && front[k] == c;
            assert(found[k] == c);
        }
        if extra.contains(c) {
            let k = choose|k: int| 0 <= k < extra.len() && extra[k] == c;
            assert(found[front.len() + k] == c);
        }
    }
}

/// No rule is passed over: of every enabled rule that looks for a pattern, every range that the
/// search finds for the pattern and that has no byte in common with a protected token is a
/// candidate under the id of the rule.
pub proof fn lemma_candidates_are_complete(
    s: Seq<char>,
    list: Seq<Rule>,
    custom: Seq<CustomRange>,
    i: int,
    start: int,
    end: int,
)
    requires
        rules::candidates(s, list, custom) is Ok,
        0 <= i < list.len(),
        forall|j: int| 0 <= j < list.len() && j != i ==> (#[trigger] list[j]).id@ != list[i].id@,
        list[i].enabled,
        list[i].kind@ != "range"@,
    ensures
        pattern_of(list[i]) is Some,
        engine::pattern(pattern_of(list[i])->0) is Ok,
        ({
            let (found, protected) = rules::candidates(s, list, custom)->Ok_0;
            let p = engine::program(engine::pattern(pattern_of(list[i])->0)->Ok_0);
            engine::scan(p, encode_utf8(s), 0).contains((start, end)) && is_clear_of(
                start,
                end,
                protected,
            ) ==> found.contains(Span { start, end, rule_id: list[i].id@ })
        }),
{
    let c = Span { start, end, rule_id: list[i].id@ };
    let n = list.len() as int;
    let b = encode_utf8(s);
    lemma_candidates_hold(s, list, custom, c);
    let m = rules::programs(list, n)->Ok_0;
    let (found, protected) = rules::candidates(s, list, custom)->Ok_0;
    lemma_programs_hold(list, n, i);
    let p = engine::program(engine::pattern(pattern_of(list[i])->0)->Ok_0);
    lemma_free_hits_hold(engine::scan(p, b, 0), list[i].id@, protected, c);
    if engine::scan(p, b, 0).contains((start, end)) && is_clear_of(start, end, protected) {
        assert(rules::rule_spans(list[i], m, b, protected).contains(c));
    }
}

/// Nothing is made up: every candidate is clear of the protected tokens, and it is either a range
/// that the search finds for the pattern of an enabled rule, under the id of that rule, or one of
/// the custom ranges, under the id that was given with it.
pub proof fn lemma_candidates_have_a_source(
    s: Seq<char>,
    list: Seq<Rule>,
    custom: Seq<CustomRange>,
    c: Span,
)
    requires
        rules::candidates(s, list, custom) is Ok,
        forall|i: int, j: int|
            0 <= i < j < list.len() ==> (#[trigger] list[i]).id@ != (#[trigger] list[j]).id@,
    ensures
        ({
            let (found, protected) = rules::candidates(s, list, custom)->Ok_0;
            found.contains(c) <==> is_clear_of(c.start, c.end, protected) && {
                ||| exists|i: int|
                    0 <= i < list.len() && (#[trigger] list[i]).enabled && list[i].id@ == c.rule_id
                        && pattern_of(list[i]) is Some && engine::scan(
                        engine::program(engine::pattern(pattern_of(list[i])->0)->Ok_0),
                        encode_utf8(s),
                        0,
                    ).contains((c.start, c.end))
                ||| exists|k: int|
                    0 <= k < custom.len() && (#[trigger] custom[k]).start == c.start
                        && custom[k].end == c.end && custom[k].rule_id@ == c.rule_id
            }
        }),
{
    let n = list.len() as int;
    let b = encode_utf8(s);
    lemma_kinds_differ();
    lemma_candidates_hold(s, list, custom, c);
    let m = rules::programs(list, n)->Ok_0;
    let (found, protected) = rules::candidates(s, list, custom)->Ok_0;
    assert forall|i: int| 0 <= i < n implies (rules::rule_spans(
        #[trigger] list[i],
        m,
        b,
        protected,
    ).contains(c) <==> is_clear_of(c.start, c.end, protected) && list[i].enabled && list[i].id@
        == c.rule_id && pattern_of(list[i]) is Some && engine::scan(
        engine::program(engine::pattern(pattern_of(list[i])->0)->Ok_0),
        b,
        0,
    ).contains((c.start, c.end))) by {
        if list[i].enabled {
            lemma_programs_hold(list, n, i);
            if pattern_of(list[i]) is Some {
                let p = engine::program(engine::pattern(pattern_of(list[i])->0)->Ok_0);
                lemma_free_hits_hold(engine::scan(p, b, 0), list[i].id@, protected, c);
            }
        }
    }
    if found.contains(c) {
        if exists|i: int|
            0 <= i < list.len() && rules::rule_spans(#[trigger] list[i], m, b, protected).contains(
                c,
            ) {
            let i = choose|i: int|
                0 <= i < list.len() && rules::rule_spans(
                    #[trigger] list[i],
                    m,
                    b,
                    protected,
                ).contains(c);
            assert(list[i].enabled);
        }
    }
}

/// The custom range is one of whole characters of the text and not empty.
pub open spec fn is_custom_fragment(s: Seq<char>, r: CustomRange) -> bool {
    &&& r.start < r.end <= encode_utf8(s).len()
    &&& is_char_boundary(encode_utf8(s), r.start as int)
    &&& is_char_boundary(encode_utf8(s), r.end as int)
}

proof fn lemma_custom_accepted(
    s: Seq<char>,
    custom: Seq<CustomRange>,
    n: int,
    protected: Seq<(int, int)>,
)
    requires
        0 <= n <= custom.len(),
    ensures
        rules::custom_spans(custom, n, s, protected) is Ok <==> forall|k: int|
            0 <= k < n ==> is_custom_fragment(s, #[trigger] custom[k]),
    decreases n,
{
    if n > 0 {
        lemma_custom_accepted(s, custom, n - 1, protected);
        if rules::custom_spans(custom, n, s, protected) is Ok {
            assert(is_custom_fragment(s, custom[n - 1]));
        } else if rules::custom_spans(custom, n - 1, s, protected) is Ok {
            assert(!is_custom_fragment(s, custom[n - 1]));
        }
    }
}

proof fn lemma_programs_accepted(list: Seq<Rule>, n: int)
    requires
        0 <= n <= list.len(),
    ensures
        rules::programs(list, n) is Ok <==> forall|i: int|
            0 <= i < n && (#[trigger] list[i]).enabled ==> list[i].kind@ == "range"@ || (pattern_of(
                list[i],
            ) is Some && engine::pattern(pattern_of(list[i])->0) is Ok),
    decreases n,
{
    lemma_kinds_differ();
    if n > 0 {
        lemma_programs_accepted(list, n - 1);
        if rules::programs(list, n) is Err && rules::programs(list, n - 1) is Ok {
            assert(list[n - 1].enabled);
        }
    }
}

/// When there are candidates at all: exactly if every enabled rule is a range rule or has a
/// pattern that is accepted, the pattern of tokens is accepted, and every custom range is one of
/// whole characters of the text and not empty.
pub proof fn lemma_when_candidates_are_found(
    s: Seq<char>,
    list: Seq<Rule>,
    custom: Seq<CustomRange>,
)
    ensures
        rules::candidates(s, list, custom) is Ok <==> {
            &&& forall|i: int|
                0 <= i < list.len() && (#[trigger] list[i]).enabled ==> list[i].kind@ == "range"@
                    || (pattern_of(list[i]) is Some && engine::pattern(pattern_of(list[i])->0)
                    is Ok)
            &&& engine::pattern("TOK\\.[0-9a-v]{24}"@) is Ok
            &&& forall|k: int| 0 <= k < custom.len() ==> is_custom_fragment(s, #[trigger] custom[k])
        },
{
    lemma_programs_accepted(list, list.len() as int);
    if engine::pattern(rules::TOKEN_PATTERN@) is Ok {
        let token = rules::pattern_program(rules::TOKEN_PATTERN@)->Ok_0;
        let protected = rules::protected_ranges(encode_utf8(s), token);
        lemma_custom_accepted(s, custom, custom.len() as int, protected);
    }
}

proof fn lemma_standing_alone(b: Seq<u8>, hits: Seq<(int, int)>, r: (int, int))
    ensures
        rules::standing_alone(b, hits).contains(r) <==> hits.contains(r) && rules::stands_alone(
            b,
            r.0,
            r.1,
        ),
    decreases hits.len(),
{
    if hits.len() > 0 {
        let front = hits.drop_last();
        let kept = rules::standing_alone(b, front);
        lemma_standing_alone(b, front, r);
        assert(hits.contains(r) <==> front.contains(r) || r == hits.last()) by {
            if hits.contains(r) {
                let i = choose|i: int| 0 <= i < hits.len() && hits[i] == r;
                if i < front.len() {
                    assert(front[i] == r);
                }
            }
            if front.contains(r) {
                let i = choose|i: int| 0 <= i < front.len() && front[i] == r;
                assert(hits[i] == r);
            }
            assert(hits[hits.len() - 1] == hits.last());
        }
        let longer = kept.push(hits.last());
        assert(longer.contains(r) <==> kept.contains(r) || r == hits.last()) by {
            if longer.contains(r) {
                let i = choose|i: int| 0 <= i < longer.len() && longer[i] == r;
                if i < kept.len() {
                    assert(kept[i] == r);
                }
            }
            if kept.contains(r) {
                let i = choose|i: int| 0 <= i < kept.len() && kept[i] == r;
                assert(longer[i] == r);
            }
            assert(longer[kept.len() as int] == hits.last());
        }
    }
}

/// The byte is a digit or a letter up to `v`, in either case.
pub open spec fn is_token_letter(x: u8) -> bool {
    48 <= x <= 57 || 97 <= x <= 118 || 65 <= x <= 86
}

/// A range is protected exactly if the search finds it for the pattern of tokens and it is not
/// part of a longer word: no digit or letter up to `v` and no point stands before it, and no
/// digit or letter up to `v` behind it.
pub proof fn lemma_what_is_protected(
    s: Seq<char>,
    list: Seq<Rule>,
    custom: Seq<CustomRange>,
    start: int,
    end: int,
)
    requires
        rules::candidates(s, list, custom) is Ok,
    ensures
        ({
            let b = encode_utf8(s);
            let protected = rules::candidates(s, list, custom)->Ok_0.1;
            let token = engine::program(engine::pattern("TOK\\.[0-9a-v]{24}"@)->Ok_0);
            protected.contains((start, end)) <==> {
                &&& engine::scan(token, b, 0).contains((start, end))
                &&& start == 0 || !(is_token_letter(b[start - 1]) || b[start - 1] == 46)
                &&& end == b.len() || !is_token_letter(b[end])
            }
        }),
{
    let b = encode_utf8(s);
    let token = engine::program(engine::pattern(rules::TOKEN_PATTERN@)->Ok_0);
    let hits = engine::scan(token, b, 0);
    lemma_standing_alone(b, hits, (start, end));
    sorting::lemma_sorted_contains(
        rules::standing_alone(b, hits),
        |x: (int, int), y: (int, int)| rules::range_before(x, y),
        (start, end),
    );
}

/// A single rule is in order: a rule for e-mail addresses or numbers has no pattern of its own, a
/// rule with a pattern has one that is accepted, and a range rule may have any.
pub open spec fn is_rule(rule: Rule) -> bool {
    ||| (rule.kind@ == "email"@ || rule.kind@ == "number"@) && rule.pattern@.len() == 0
    ||| rule.kind@ == "pattern"@ && engine::pattern(rule.pattern@) is Ok
    ||| rule.kind@ == "range"@
}

/// Every rule from place `i` on has an id that is not blank and that no rule before it has, and is
/// in order by itself.
spec fn fit_from(list: Seq<Rule>, i: int) -> bool {
    forall|k: int|
        i <= k < list.len() ==> !text::is_blank((#[trigger] list[k]).id@) && is_rule(list[k])
            && forall|j: int| 0 <= j < k ==> (#[trigger] list[j]).id@ != list[k].id@
}

proof fn lemma_rules_fit(list: Seq<Rule>, i: int)
    requires
        0 <= i <= list.len(),
    ensures
        rules::first_fault(list, i) is None <==> fit_from(list, i),
        rules::first_fault(list, i) matches Some(f) ==> (f.code == ErrorCode::RuleConflict
            ==> exists|j: int, k: int|
            0 <= j < k < list.len() && (#[trigger] list[j]).id@ == (#[trigger] list[k]).id@
                && f.message == "规则 id 重复: "@ + list[k].id@),
        rules::first_fault(list, i) matches Some(f) ==> f.code == ErrorCode::RuleConflict || f.code
            == ErrorCode::InvalidRequest,
    decreases list.len() - i,
{
    lemma_kinds_differ();
    if i < list.len() {
        lemma_rules_fit(list, i + 1);
        let rule = list[i];
        if text::is_blank(rule.id@) {
            assert(!fit_from(list, i));
        } else if rules::id_taken(list, i, rule.id@) {
            let j = choose|j: int| 0 <= j < i && (#[trigger] list[j]).id@ == rule.id@;
            assert(!fit_from(list, i));
        } else if rules::rule_fault(rule) is Some {
            assert(!is_rule(rule));
            assert(!fit_from(list, i));
        } else {
            assert(is_rule(rule));
            if fit_from(list, i + 1) {
                assert forall|k: int| i <= k < list.len() implies !text::is_blank(
                    (#[trigger] list[k]).id@,
                ) && is_rule(list[k]) && forall|j: int|
                    0 <= j < k ==> (#[trigger] list[j]).id@ != list[k].id@ by {}
            }
            if fit_from(list, i) {
                assert(fit_from(list, i + 1));
            }
        }
    }
}

/// A rule set is valid exactly if its version is not blank, it has a rule, no id is blank, no two
/// ids are the same, and every rule is in order by itself. What is refused as a conflict has two
/// rules with one id; everything else is refused as an invalid request.
pub proof fn lemma_which_rule_sets_are_valid(set: RuleSet)
    ensures
        rules::rule_set_fault(set) is None <==> {
            &&& !text::is_blank(set.version@)
            &&& set.rules@.len() > 0
            &&& forall|k: int|
                0 <= k < set.rules@.len() ==> !text::is_blank((#[trigger] set.rules@[k]).id@)
                    && is_rule(set.rules@[k])
            &&& forall|j: int, k: int|
                0 <= j < k < set.rules@.len() ==> (#[trigger] set.rules@[j]).id@ != (
                #[trigger] set.rules@[k]).id@
        },
        rules::rule_set_fault(set) matches Some(f) ==> (f.code == ErrorCode::RuleConflict
            ==> exists|j: int, k: int|
            0 <= j < k < set.rules@.len() && (#[trigger] set.rules@[j]).id@ == (
            #[trigger] set.rules@[k]).id@ && f.message == "规则 id 重复: "@ + set.rules@[k].id@),
        rules::rule_set_fault(set) matches Some(f) ==> f.code == ErrorCode::RuleConflict || f.code
            == ErrorCode::InvalidRequest,
{
    let list = set.rules@;
    lemma_rules_fit(list, 0);
    if fit_from(list, 0) {
        assert forall|j: int, k: int| 0 <= j < k < list.len() implies (#[trigger] list[j]).id@ != (
        #[trigger] list[k]).id@ by {}
    }
}

/// What a listing shows of a pattern is a front part of it: of a custom pattern at most 64
/// characters and all of them where there are no more, and of any other the whole.
pub proof fn lemma_previews(rule: Rule)
    ensures
        rules::preview_of(rule).is_prefix_of(rule.pattern@),
        rule.kind@ != "pattern"@ ==> rules::preview_of(rule) == rule.pattern@,
        rule.kind@ == "pattern"@ ==> rules::preview_of(rule).len() == if rule.pattern@.len() <= 64 {
            rule.pattern@.len() as int
        } else {
            64
        },
{
}

/// Where a loss stands in the ranking, and where the winner that it names does: no winner that
/// meets the fragment stands before that one.
proof fn lemma_settled_best(
    ranked: Seq<Span>,
    n: int,
    priority: spec_fn(Seq<char>) -> int,
    i: int,
    y: int,
)
    requires
        0 <= n <= ranked.len(),
        0 <= i < rules::settled(ranked, n, priority).1.len(),
        0 <= y < rules::settled(ranked, n, priority).0.len(),
        rules::meets(
            loser(rules::settled(ranked, n, priority).1[i]),
            rules::settled(ranked, n, priority).0[y],
        ),
    ensures
        exists|k: int, l: int|
            0 <= k <= l < n && rules::loss_to(
                priority,
                #[trigger] ranked[k],
                loser(rules::settled(ranked, n, priority).1[i]),
            ) == rules::settled(ranked, n, priority).1[i] && rules::meets(
                loser(rules::settled(ranked, n, priority).1[i]),
                ranked[k],
            ) && (#[trigger] ranked[l]) == rules::settled(ranked, n, priority).0[y],
    decreases n,
{
    if n > 0 {
        let (won, lost) = rules::settled(ranked, n - 1, priority);
        let c = ranked[n - 1];
        lemma_first_meeting(won, c);
        if i < lost.len() {
            if y < won.len() {
                lemma_settled_best(ranked, n - 1, priority, i, y);
            } else {
                let k = lemma_named_winner(ranked, n - 1, priority, i);
                assert(ranked[n - 1] == rules::settled(ranked, n, priority).0[y]);
                assert(0 <= k <= n - 1 < n);
            }
        } else {
            let w = rules::first_meeting(won, c)->0;
            lemma_first_meeting_is_first(won, c);
            assert(w <= y);
            let k = lemma_won_place(ranked, n - 1, priority, w, y);
            assert(loser(rules::loss_to(priority, won[w], c)) == c);
            assert(ranked[k.0] == won[w] && ranked[k.1] == won[y]);
        }
    }
}

proof fn lemma_first_meeting_is_first(won: Seq<Span>, c: Span)
    requires
        rules::first_meeting(won, c) is Some,
    ensures
        0 <= rules::first_meeting(won, c)->0 < won.len(),
        forall|j: int|
            0 <= j < rules::first_meeting(won, c)->0 ==> !rules::meets(c, #[trigger] won[j]),
    decreases won.len(),
{
    let front = won.drop_last();
    if rules::first_meeting(front, c) is Some {
        lemma_first_meeting_is_first(front, c);
        let a = rules::first_meeting(front, c)->0;
        assert forall|j: int| 0 <= j < a implies !rules::meets(c, #[trigger] won[j]) by {
            assert(front[j] == won[j]);
        }
    } else {
        lemma_first_meeting(front, c);
        assert forall|j: int| 0 <= j < front.len() implies !rules::meets(c, #[trigger] won[j]) by {
            assert(front[j] == won[j]);
        }
    }
}

/// The winners stand in the ranking in their order.
proof fn lemma_won_place(
    ranked: Seq<Span>,
    n: int,
    priority: spec_fn(Seq<char>) -> int,
    a: int,
    c: int,
) -> (r: (int, int))
    requires
        0 <= n <= ranked.len(),
        0 <= a <= c < rules::settled(ranked, n, priority).0.len(),
    ensures
        0 <= r.0 <= r.1 < n,
        ranked[r.0] == rules::settled(ranked, n, priority).0[a],
        ranked[r.1] == rules::settled(ranked, n, priority).0[c],
    decreases n,
{
    let (won, lost) = rules::settled(ranked, n - 1, priority);
    if c < won.len() {
        lemma_won_place(ranked, n - 1, priority, a, c)
    } else if a < won.len() {
        let r = lemma_won_place(ranked, n - 1, priority, a, a);
        (r.0, n - 1)
    } else {
        (n - 1, n - 1)
    }
}

/// The winner that a loss names stands in the ranking.
proof fn lemma_named_winner(
    ranked: Seq<Span>,
    n: int,
    priority: spec_fn(Seq<char>) -> int,
    i: int,
) -> (k: int)
    requires
        0 <= n <= ranked.len(),
        0 <= i < rules::settled(ranked, n, priority).1.len(),
    ensures
        0 <= k < n,
        rules::loss_to(priority, ranked[k], loser(rules::settled(ranked, n, priority).1[i]))
            == rules::settled(ranked, n, priority).1[i],
        rules::meets(loser(rules::settled(ranked, n, priority).1[i]), ranked[k]),
    decreases n,
{
    let (won, lost) = rules::settled(ranked, n - 1, priority);
    let c = ranked[n - 1];
    if i < lost.len() {
        lemma_named_winner(ranked, n - 1, priority, i)
    } else {
        lemma_first_meeting(won, c);
        let w = rules::first_meeting(won, c)->0;
        let r = lemma_won_place(ranked, n - 1, priority, w, w);
        assert(loser(rules::loss_to(priority, won[w], c)) == c);
        r.0
    }
}

/// A suppressed fragment is said to have lost to the best of the selected ones that it meets: there
/// is a fragment that it gives way to, under the rule that is named, and no selected fragment that
/// meets it has a higher priority than that one, or the same priority and more length, or the same
/// of both and a start further left.
pub proof fn lemma_verdict_names_the_best(
    all: Seq<Span>,
    priority: spec_fn(Seq<char>) -> int,
    i: int,
    y: Span,
)
    requires
        0 <= i < rules::verdict(all, priority).1.len(),
        rules::verdict(all, priority).0.contains(y),
        ({
            let l = rules::verdict(all, priority).1[i];
            y.start < l.end && l.start < y.end
        }),
    ensures
        exists|x: Span|
            {
                let l = rules::verdict(all, priority).1[i];
                let high = priority(x.rule_id);
                let low = priority(y.rule_id);
                let long = x.end - x.start;
                let short = y.end - y.start;
                &&& #[trigger] all.contains(x)
                &&& l.by_rule_id == x.rule_id
                &&& x.start < l.end && l.start < x.end
                &&& high >= low
                &&& high == low ==> long >= short
                &&& high == low && long == short ==> x.start <= y.start
            },
{
    let before = rules::ranking(priority);
    let ranked = sorting::sorted(all, before);
    let n = ranked.len() as int;
    let (w, l) = rules::settled(ranked, n, priority);
    let by_span = |a: Span, b: Span| rules::span_before(a, b);
    let by_loss = |a: Loss, b: Loss| rules::loss_before(a, b);
    let won = sorting::sorted(w, by_span);
    let lost = sorting::sorted(l, by_loss);
    assert(rules::verdict(all, priority) == (won, lost));
    sorting::lemma_sorted_contains(w, by_span, y);
    assert(lost.contains(lost[i]));
    sorting::lemma_sorted_contains(l, by_loss, lost[i]);
    let p = choose|p: int| 0 <= p < l.len() && l[p] == lost[i];
    let q = choose|q: int| 0 <= q < w.len() && w[q] == y;
    lemma_settled_best(ranked, n, priority, p, q);
    let (k, m) = choose|k: int, m: int|
        0 <= k <= m < n && rules::loss_to(priority, #[trigger] ranked[k], loser(l[p])) == l[p]
            && rules::meets(loser(l[p]), ranked[k]) && (#[trigger] ranked[m]) == w[q];
    let x = ranked[k];
    lemma_ranking_is_total(priority);
    sorting::lemma_sorted_in_order(all, before);
    if k < m {
        assert(!before(ranked[m], ranked[k]));
    }
    assert(ranked.contains(x));
    sorting::lemma_sorted_contains(all, before, x);
    assert(all.contains(x));
}

/// The priority of a rule is the one that is answered for it, and the lowest there is where none is
/// known.
pub proof fn lemma_priorities_are_answers<F: Fn(&str) -> Option<i32>>(
    f: F,
    id: Seq<char>,
    r: Option<i32>,
)
    requires
        rules::is_functional(f),
        rules::answers(f, id, r),
    ensures
        r matches Some(p) ==> rules::priority_of(f, id) == p,
        r is None ==> rules::priority_of(f, id) == -2147483648,
{
    let q = choose|q: Option<i32>| rules::answers(f, id, q);
    assert(rules::answers(f, id, q));
}

proof fn lemma_repeated_id(list: Seq<Rule>, i: int)
    requires
        0 <= i <= list.len(),
        forall|k: int|
            0 <= k < list.len() ==> !text::is_blank((#[trigger] list[k]).id@) && is_rule(list[k]),
    ensures
        rules::first_fault(list, i) matches Some(f) ==> f.code == ErrorCode::RuleConflict,
    decreases list.len() - i,
{
    lemma_kinds_differ();
    if i < list.len() {
        lemma_repeated_id(list, i + 1);
        assert(!text::is_blank(list[i].id@) && is_rule(list[i]));
        assert(rules::rule_fault(list[i]) is None);
    }
}

/// Where nothing else is wrong with a rule set, an id that two of its rules have is refused as a
/// conflict of rules.
pub proof fn lemma_repeated_ids_conflict(set: RuleSet, j: int, k: int)
    requires
        !text::is_blank(set.version@),
        forall|i: int|
            0 <= i < set.rules@.len() ==> !text::is_blank((#[trigger] set.rules@[i]).id@) && is_rule(
                set.rules@[i],
            ),
        0 <= j < k < set.rules@.len(),
        set.rules@[j].id@ == set.rules@[k].id@,
    ensures
        rules::rule_set_fault(set) matches Some(f) && f.code == ErrorCode::RuleConflict,
{
    lemma_which_rule_sets_are_valid(set);
    lemma_repeated_id(set.rules@, 0);
}

}
