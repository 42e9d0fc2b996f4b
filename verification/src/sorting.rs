//! Stable sorting by a strict order.

use vstd::prelude::*;

verus! {

broadcast use vstd::seq::group_seq_axioms;

/// `x` put into a sorted list behind everything that it does not come before.
pub open spec fn inserted<T>(s: Seq<T>, x: T, before: spec_fn(T, T) -> bool) -> Seq<T>
    decreases s.len(),
{
    if s.len() > 0 && before(x, s.last()) {
        inserted(s.drop_last(), x, before).push(s.last())
    } else {
        s.push(x)
    }
}

/// The list in order; items of which neither comes before the other keep their places.
pub open spec fn sorted<T>(s: Seq<T>, before: spec_fn(T, T) -> bool) -> Seq<T>
    decreases s.len(),
{
    if s.len() == 0 {
        s
    } else {
        inserted(sorted(s.drop_last(), before), s.last(), before)
    }
}

/// Where `x` goes in a sorted list.
spec fn place<T>(s: Seq<T>, x: T, before: spec_fn(T, T) -> bool) -> int
    decreases s.len(),
{
    if s.len() > 0 && before(x, s.last()) {
        place(s.drop_last(), x, before)
    } else {
        s.len() as int
    }
}

proof fn lemma_inserted_at_place<T>(s: Seq<T>, x: T, before: spec_fn(T, T) -> bool)
    ensures
        0 <= place(s, x, before) <= s.len(),
        inserted(s, x, before) == s.insert(place(s, x, before), x),
    decreases s.len(),
{
    if s.len() > 0 && before(x, s.last()) {
        lemma_inserted_at_place(s.drop_last(), x, before);
    }
    assert(inserted(s, x, before) =~= s.insert(place(s, x, before), x));
}

/// Sorts a list; `less` decides the order `before`.
pub fn sort_by<T, F: Fn(&T, &T) -> bool>(
    items: Vec<T>,
    before: Ghost<spec_fn(T, T) -> bool>,
    less: F,
) -> (r: Vec<T>)
    requires
        forall|a: &T, b: &T| #[trigger] call_requires(less, (a, b)),
        forall|a: &T, b: &T, c: bool| #[trigger]
            call_ensures(less, (a, b), c) ==> c == before@(*a, *b),
    ensures
        r@ == sorted(items@, before@),
{
    let ghost all = items@;
    let mut rest: Vec<T> = items;
    let mut out: Vec<T> = Vec::new();
    assert(all.take(0) =~= Seq::empty());
    while rest.len() > 0
        invariant
            forall|a: &T, b: &T| #[trigger] call_requires(less, (a, b)),
            forall|a: &T, b: &T, c: bool| #[trigger]
                call_ensures(less, (a, b), c) ==> c == before@(*a, *b),
            out@.len() + rest@.len() == all.len(),
            rest@ == all.skip(out@.len() as int),
            out@ == sorted(all.take(out@.len() as int), before@),
        decreases rest@.len(),
    {
        let ghost n = out@.len() as int;
        let ghost done = out@;
        let x: T = rest.remove(0);
        let mut i: usize = out.len();
        assert(out@.take(i as int) =~= out@);
        while i > 0 && less(&x, &out[i - 1])
            invariant
                forall|a: &T, b: &T| #[trigger] call_requires(less, (a, b)),
                forall|a: &T, b: &T, c: bool| #[trigger]
                    call_ensures(less, (a, b), c) ==> c == before@(*a, *b),
                0 <= i <= out@.len(),
                place(out@, x, before@) == place(out@.take(i as int), x, before@),
            decreases i,
        {
            proof {
                assert(out@.take(i as int).drop_last() =~= out@.take(i - 1));
                assert(out@.take(i as int).last() == out@[i - 1]);
            }
            i = i - 1;
        }
        proof {
            if i > 0 {
                assert(out@.take(i as int).last() == out@[i - 1]);
            }
            lemma_inserted_at_place(done, x, before@);
            assert(all.take(n + 1).drop_last() =~= all.take(n));
            assert(all.take(n + 1).last() == x);
        }
        out.insert(i, x);
        proof {
            assert(rest@ =~= all.skip(n + 1));
        }
    }
    assert(all.take(out@.len() as int) =~= all);
    out
}

/// `before` never holds both ways, and what does not come before goes over.
pub open spec fn is_weak_order<T>(before: spec_fn(T, T) -> bool) -> bool {
    &&& forall|a: T, b: T| #[trigger] before(a, b) ==> !before(b, a)
    &&& forall|a: T, b: T, c: T|
        !(#[trigger] before(b, a)) && !(#[trigger] before(c, b)) ==> !before(c, a)
}

/// A weak order under which only equal items stand side by side.
pub open spec fn is_total_order<T>(before: spec_fn(T, T) -> bool) -> bool {
    &&& is_weak_order(before)
    &&& forall|a: T, b: T| !(#[trigger] before(a, b)) && !before(b, a) ==> a == b
}

/// No item comes before one that stands to its left.
pub open spec fn in_order<T>(s: Seq<T>, before: spec_fn(T, T) -> bool) -> bool {
    forall|i: int, j: int| 0 <= i < j < s.len() ==> !before(#[trigger] s[j], #[trigger] s[i])
}

/// Sorting keeps the items, and how often each occurs.
pub proof fn lemma_sorted_permutes<T>(s: Seq<T>, before: spec_fn(T, T) -> bool)
    ensures
        sorted(s, before).to_multiset() == s.to_multiset(),
        sorted(s, before).len() == s.len(),
    decreases s.len(),
{
    if s.len() > 0 {
        let front = sorted(s.drop_last(), before);
        lemma_sorted_permutes(s.drop_last(), before);
        lemma_inserted_at_place(front, s.last(), before);
        vstd::seq_lib::to_multiset_insert(front, place(front, s.last(), before), s.last());
        vstd::seq_lib::to_multiset_build(s.drop_last(), s.last());
        assert(s.drop_last().push(s.last()) =~= s);
    }
}

/// A sorted list holds what the list holds.
pub proof fn lemma_sorted_contains<T>(s: Seq<T>, before: spec_fn(T, T) -> bool, x: T)
    ensures
        sorted(s, before).contains(x) == s.contains(x),
{
    lemma_sorted_permutes(s, before);
    vstd::seq_lib::to_multiset_contains(s, x);
    vstd::seq_lib::to_multiset_contains(sorted(s, before), x);
}

proof fn lemma_inserted_in_order<T>(s: Seq<T>, x: T, before: spec_fn(T, T) -> bool)
    requires
        is_weak_order(before),
        in_order(s, before),
    ensures
        in_order(inserted(s, x, before), before),
    decreases s.len(),
{
    let r = inserted(s, x, before);
    if s.len() > 0 && before(x, s.last()) {
        let front = s.drop_last();
        lemma_inserted_in_order(front, x, before);
        lemma_inserted_at_place(front, x, before);
        let q = inserted(front, x, before);
        assert forall|i: int, j: int| 0 <= i < j < r.len() implies !before(
            #[trigger] r[j],
            #[trigger] r[i],
        ) by {
            if j < q.len() {
                assert(r[i] == q[i] && r[j] == q[j]);
            } else {
                let k = place(front, x, before);
                if i == k {
                    assert(q[i] == x);
                } else if i < k {
                    assert(q[i] == s[i]);
                } else {
                    assert(q[i] == s[i - 1]);
                }
            }
        }
    } else {
        assert forall|i: int, j: int| 0 <= i < j < r.len() implies !before(
            #[trigger] r[j],
            #[trigger] r[i],
        ) by {
            if j == s.len() && i < s.len() - 1 {
                assert(!before(s.last(), s[i]));
                assert(!before(x, s.last()));
            }
        }
    }
}

/// A sorted list is in order.
pub proof fn lemma_sorted_in_order<T>(s: Seq<T>, before: spec_fn(T, T) -> bool)
    requires
        is_weak_order(before),
    ensures
        in_order(sorted(s, before), before),
    decreases s.len(),
{
    if s.len() > 0 {
        lemma_sorted_in_order(s.drop_last(), before);
        lemma_inserted_in_order(sorted(s.drop_last(), before), s.last(), before);
    }
}

/// Under a total order the sorted list does not depend on the order of the items.
pub proof fn lemma_sorted_ignores_order<T>(s: Seq<T>, t: Seq<T>, before: spec_fn(T, T) -> bool)
    requires
        is_total_order(before),
        s.to_multiset() == t.to_multiset(),
    ensures
        sorted(s, before) == sorted(t, before),
{
    let leq = |a: T, b: T| !before(b, a);
    lemma_sorted_permutes(s, before);
    lemma_sorted_permutes(t, before);
    lemma_sorted_in_order(s, before);
    lemma_sorted_in_order(t, before);
    let x = sorted(s, before);
    let y = sorted(t, before);
    assert(vstd::relations::sorted_by(x, leq));
    assert(vstd::relations::sorted_by(y, leq));
    assert(vstd::relations::reflexive(leq)) by {
        assert forall|a: T| #[trigger] leq(a, a) by {
            if before(a, a) {
                assert(!before(a, a));
            }
        }
    }
    assert(vstd::relations::antisymmetric(leq)) by {
        assert forall|a: T, b: T| #[trigger] leq(a, b) && #[trigger] leq(b, a) implies a
            == b by {
            assert(!before(b, a));
        }
    }
    assert(vstd::relations::transitive(leq)) by {
        assert forall|a: T, b: T, c: T| #[trigger] leq(a, b) && #[trigger] leq(b, c) implies leq(
            a,
            c,
        ) by {
            assert(!before(b, a) && !before(c, b));
        }
    }
    assert(vstd::relations::strongly_connected(leq)) by {
        assert forall|a: T, b: T| #[trigger] leq(a, b) || #[trigger] leq(b, a) by {
            if before(b, a) {
                assert(!before(a, b));
            }
        }
    }
    vstd::seq_lib::lemma_sorted_unique(x, y, leq);
}

/// Sorting goes along with a map that carries one order, on the items, to the other.
pub proof fn lemma_sorted_maps<T, U>(
    s: Seq<T>,
    f: spec_fn(T) -> U,
    before: spec_fn(T, T) -> bool,
    image: spec_fn(U, U) -> bool,
)
    requires
        forall|a: T, b: T|
            s.contains(a) && s.contains(b) ==> #[trigger] before(a, b) == image(f(a), f(b)),
    ensures
        sorted(s, before).map_values(f) == sorted(s.map_values(f), image),
    decreases s.len(),
{
    if s.len() > 0 {
        let front = s.drop_last();
        assert forall|a: T| front.contains(a) implies s.contains(a) by {
            let i = choose|i: int| 0 <= i < front.len() && front[i] == a;
            assert(s[i] == a);
        }
        assert(s.contains(s.last())) by {
            assert(s[s.len() - 1] == s.last());
        }
        lemma_sorted_maps(front, f, before, image);
        let done = sorted(front, before);
        assert forall|b: T| done.contains(b) implies before(s.last(), b) == image(
            f(s.last()),
            f(b),
        ) by {
            lemma_sorted_contains(front, before, b);
        }
        lemma_inserted_maps(done, s.last(), f, before, image);
        assert(s.map_values(f).drop_last() =~= front.map_values(f));
    } else {
        assert(s.map_values(f) =~= Seq::empty());
    }
}

proof fn lemma_inserted_maps<T, U>(
    s: Seq<T>,
    x: T,
    f: spec_fn(T) -> U,
    before: spec_fn(T, T) -> bool,
    image: spec_fn(U, U) -> bool,
)
    requires
        forall|b: T| s.contains(b) ==> #[trigger] before(x, b) == image(f(x), f(b)),
    ensures
        inserted(s, x, before).map_values(f) == inserted(s.map_values(f), f(x), image),
    decreases s.len(),
{
    if s.len() > 0 {
        let front = s.drop_last();
        assert forall|a: T| front.contains(a) implies s.contains(a) by {
            let i = choose|i: int| 0 <= i < front.len() && front[i] == a;
            assert(s[i] == a);
        }
        assert(s[s.len() - 1] == s.last());
        assert(s.contains(s.last()));
        assert(s.map_values(f).drop_last() =~= front.map_values(f));
        assert(before(x, s.last()) == image(f(x), f(s.last())));
        if before(x, s.last()) {
            lemma_inserted_maps(front, x, f, before, image);
        }
    }
    assert(inserted(s, x, before).map_values(f) =~= inserted(s.map_values(f), f(x), image));
}

/// Two places of a sorted list come from two places of the list.
pub proof fn lemma_sorted_places<T>(
    s: Seq<T>,
    before: spec_fn(T, T) -> bool,
    i: int,
    j: int,
) -> (r: (int, int))
    requires
        0 <= i < j < sorted(s, before).len(),
    ensures
        0 <= r.0 < s.len(),
        0 <= r.1 < s.len(),
        r.0 != r.1,
        s[r.0] == sorted(s, before)[i],
        s[r.1] == sorted(s, before)[j],
    decreases s.len(),
{
    let front = s.drop_last();
    let sorted_front = sorted(front, before);
    let p = place(sorted_front, s.last(), before);
    let end = s.len() - 1;
    lemma_inserted_at_place(sorted_front, s.last(), before);
    lemma_sorted_permutes(front, before);
    let a = if i < p {
        i
    } else {
        i - 1
    };
    let b = if j < p {
        j
    } else {
        j - 1
    };
    if i != p && j != p {
        let (x, y) = lemma_sorted_places(front, before, a, b);
        assert(front[x] == s[x] && front[y] == s[y]);
        (x, y)
    } else if i == p {
        assert(sorted_front.contains(sorted_front[b]));
        lemma_sorted_contains(front, before, sorted_front[b]);
        let y = choose|y: int| 0 <= y < front.len() && front[y] == sorted_front[b];
        assert(front[y] == s[y]);
        (end, y)
    } else {
        assert(sorted_front.contains(sorted_front[a]));
        lemma_sorted_contains(front, before, sorted_front[a]);
        let x = choose|x: int| 0 <= x < front.len() && front[x] == sorted_front[a];
        assert(front[x] == s[x]);
        (x, end)
    }
}

}
