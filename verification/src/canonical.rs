//! The canonical form of JSON values: the keys of every object in order, and no white space.

use crate::json;
use crate::json::{Json, Value};
use crate::json_text;
use crate::sorting;
use crate::text;
use vstd::prelude::*;
use vstd::utf8::*;

verus! {

broadcast use vstd::seq::group_seq_axioms;

/// The order of the members of an object: by their keys.
pub open spec fn key_before(a: (Seq<char>, Json), b: (Seq<char>, Json)) -> bool {
    text::text_before(a.0, b.0)
}

/// The order of members, as a function.
pub open spec fn key_order() -> spec_fn((Seq<char>, Json), (Seq<char>, Json)) -> bool {
    |a: (Seq<char>, Json), b: (Seq<char>, Json)| key_before(a, b)
}

/// The value with the keys of every object in order, at every depth.
pub open spec fn normal(v: Json) -> Json
    decreases v,
{
    match v {
        Json::Arr(items) => Json::Arr(normal_items(items)),
        Json::Obj(pairs) => Json::Obj(sorting::sorted(normal_members(pairs), key_order())),
        _ => v,
    }
}

/// The items in canonical form.
pub open spec fn normal_items(items: Seq<Json>) -> Seq<Json>
    decreases items,
{
    Seq::new(
        items.len(),
        |i: int|
            if 0 <= i < items.len() {
                normal(items[i])
            } else {
                arbitrary()
            },
    )
}

/// Members with their values in canonical form, in the given order.
pub open spec fn normal_members(pairs: Seq<(Seq<char>, Json)>) -> Seq<(Seq<char>, Json)>
    decreases pairs,
{
    Seq::new(
        pairs.len(),
        |i: int|
            if 0 <= i < pairs.len() {
                (pairs[i].0, normal(pairs[i].1))
            } else {
                arbitrary()
            },
    )
}

/// The canonical text of a value.
pub open spec fn canonical(v: Json) -> Seq<char> {
    json::compact(normal(v))
}

fn key_precedes(a: &(String, Value), b: &(String, Value)) -> (r: bool)
    ensures
        r == text::text_before(a.0@, b.0@),
{
    text::precedes(a.0.as_str(), b.0.as_str())
}

/// A copy of a value with the keys of every object in order.
pub fn normalize(value: &Value) -> (r: Value)
    ensures
        r.json() == normal(value.json()),
    decreases value,
{
    match value {
        Value::Null => Value::Null,
        Value::Bool(b) => Value::Bool(*b),
        Value::Num(n) => Value::Num(n.clone()),
        Value::Str(s) => Value::Str(s.clone()),
        Value::Arr(items) => {
            let ghost all = json::items_of(items@);
            let ghost wanted = normal_items(all);
            let mut copy: Vec<Value> = Vec::new();
            let mut i: usize = 0;
            while i < items.len()
                invariant
                    0 <= i <= items@.len(),
                    *value == Value::Arr(*items),
                    all == json::items_of(items@),
                    wanted == normal_items(all),
                    json::items_of(copy@) == wanted.take(i as int),
                decreases items@.len() - i,
            {
                let ghost done = copy@;
                assert(decreases_to!(*value => value->Arr_0));
                let item: Value = normalize(&items[i]);
                copy.push(item);
                i = i + 1;
                assert(json::items_of(copy@) =~= wanted.take(i as int)) by {
                    assert(json::items_of(copy@) =~= json::items_of(done).push(item.json()));
                }
            }
            proof {
                json::lemma_arr_json(copy);
                json::lemma_arr_json(*items);
                assert(wanted.take(i as int) =~= wanted);
            }
            Value::Arr(copy)
        },
        Value::Obj(pairs) => {
            let ghost all = json::pairs_of(pairs@);
            let ghost wanted = normal_members(all);
            let mut copy: Vec<(String, Value)> = Vec::new();
            let mut i: usize = 0;
            while i < pairs.len()
                invariant
                    0 <= i <= pairs@.len(),
                    *value == Value::Obj(*pairs),
                    all == json::pairs_of(pairs@),
                    wanted == normal_members(all),
                    json::pairs_of(copy@) == wanted.take(i as int),
                decreases pairs@.len() - i,
            {
                let ghost done = copy@;
                let pair: &(String, Value) = &pairs[i];
                let key: String = pair.0.clone();
                assert(decreases_to!(*value => value->Obj_0));
                assert(decreases_to!(pairs@[i as int] => pairs@[i as int].1));
                let item: Value = normalize(&pair.1);
                copy.push((key, item));
                i = i + 1;
                assert(json::pairs_of(copy@) =~= wanted.take(i as int)) by {
                    assert(json::pairs_of(copy@) =~= json::pairs_of(done).push(
                        (key@, item.json()),
                    ));
                }
            }
            let ghost unsorted = copy@;
            let ghost before = |a: (String, Value), b: (String, Value)|
                text::text_before(a.0@, b.0@);
            let sorted: Vec<(String, Value)> = sorting::sort_by(copy, Ghost(before), key_precedes);
            proof {
                let f = |p: (String, Value)| (p.0@, p.1.json());
                sorting::lemma_sorted_maps(unsorted, f, before, key_order());
                assert(wanted.take(i as int) =~= wanted);
                assert(unsorted.map_values(f) =~= json::pairs_of(unsorted));
                assert(json::pairs_of(sorted@) =~= sorted@.map_values(f));
                json::lemma_obj_json(sorted);
                json::lemma_obj_json(*pairs);
            }
            Value::Obj(sorted)
        },
    }
}

/// A text as a JSON string, by `serde_json::to_string`, which escapes quotation marks,
/// backslashes and control characters, the latter in their short forms where there are any.
#[verifier::external_body]
fn quoted(s: &str) -> (r: String)
    ensures
        r@ == json::quote(s@),
{
    serde_json::to_string(s).unwrap()
}

/// Appends the compact text of a value.
fn write_compact(out: &mut String, value: &Value)
    ensures
        final(out)@ == old(out)@ + json::compact(value.json()),
    decreases value,
{
    let ghost before = out@;
    match value {
        Value::Null => {
            out.append("null");
        },
        Value::Bool(b) => {
            if *b {
                out.append("true");
            } else {
                out.append("false");
            }
        },
        Value::Num(n) => {
            out.append(n.as_str());
        },
        Value::Str(s) => {
            out.append(quoted(s.as_str()).as_str());
        },
        Value::Arr(items) => {
            let ghost all = json::items_of(items@);
            proof {
                json::lemma_arr_json(*items);
            }
            out.push('[');
            let ghost head = out@;
            let mut i: usize = 0;
            assert(head + json::compact_items(all, 0) =~= head);
            while i < items.len()
                invariant
                    0 <= i <= items@.len(),
                    *value == Value::Arr(*items),
                    all == json::items_of(items@),
                    out@ == head + json::compact_items(all, i as int),
                decreases items@.len() - i,
            {
                assert(decreases_to!(*value => value->Arr_0));
                if i > 0 {
                    out.push(',');
                }
                write_compact(out, &items[i]);
                i = i + 1;
                assert(out@ =~= head + json::compact_items(all, i as int));
            }
            out.push(']');
            assert(out@ =~= before + json::compact(value.json()));
        },
        Value::Obj(pairs) => {
            let ghost all = json::pairs_of(pairs@);
            proof {
                json::lemma_obj_json(*pairs);
            }
            out.push('{');
            let ghost head = out@;
            let mut i: usize = 0;
            assert(head + json::compact_pairs(all, 0) =~= head);
            while i < pairs.len()
                invariant
                    0 <= i <= pairs@.len(),
                    *value == Value::Obj(*pairs),
                    all == json::pairs_of(pairs@),
                    out@ == head + json::compact_pairs(all, i as int),
                decreases pairs@.len() - i,
            {
                let pair: &(String, Value) = &pairs[i];
                assert(decreases_to!(*value => value->Obj_0));
                assert(decreases_to!(pairs@[i as int] => pairs@[i as int].1));
                if i > 0 {
                    out.push(',');
                }
                out.append(quoted(pair.0.as_str()).as_str());
                out.push(':');
                write_compact(out, &pair.1);
                i = i + 1;
                assert(out@ =~= head + json::compact_pairs(all, i as int));
            }
            out.push('}');
            assert(out@ =~= before + json::compact(value.json()));
        },
    }
}

/// The canonical text of a value.
pub fn to_text(value: &Value) -> (r: String)
    ensures
        r@ == canonical(value.json()),
{
    let ordered: Value = normalize(value);
    let mut out: String = String::new();
    write_compact(&mut out, &ordered);
    assert(out@ =~= canonical(value.json()));
    out
}

/// The canonical form of a proper value is proper.
pub proof fn lemma_normal_is_proper(v: Json)
    requires
        json_text::is_proper(v),
    ensures
        json_text::is_proper(normal(v)),
    decreases v,
{
    match v {
        Json::Arr(items) => {
            let inner = normal_items(items);
            assert forall|i: int| 0 <= i < inner.len() implies json_text::is_proper(
                #[trigger] inner[i],
            ) by {
                lemma_normal_is_proper(items[i]);
            }
        },
        Json::Obj(pairs) => {
            let members = normal_members(pairs);
            let before = key_order();
            let ordered = sorting::sorted(members, before);
            assert forall|i: int| 0 <= i < ordered.len() implies json_text::is_proper(
                (#[trigger] ordered[i]).1,
            ) by {
                let m = ordered[i];
                assert(ordered.contains(m));
                sorting::lemma_sorted_contains(members, before, m);
                let k = choose|k: int| 0 <= k < members.len() && members[k] == m;
                lemma_normal_is_proper(pairs[k].1);
            }
            lemma_keys_stay_distinct(members);
        },
        _ => {},
    }
}

/// Distinct keys are distinct after sorting, and in strict order.
pub proof fn lemma_keys_stay_distinct(members: Seq<(Seq<char>, Json)>)
    requires
        forall|i: int, j: int|
            0 <= i < j < members.len() ==> (#[trigger] members[i]).0 != (#[trigger] members[j]).0,
    ensures
        ({
            let ordered = sorting::sorted(members, key_order());
            &&& ordered.len() == members.len()
            &&& forall|i: int, j: int|
                0 <= i < j < ordered.len() ==> key_before(
                    #[trigger] ordered[i],
                    #[trigger] ordered[j],
                )
            &&& forall|i: int, j: int|
                0 <= i < j < ordered.len() ==> (#[trigger] ordered[i]).0 != (
                #[trigger] ordered[j]).0
        }),
{
    let before = key_order();
    let ordered = sorting::sorted(members, before);
    lemma_key_order();
    sorting::lemma_sorted_permutes(members, before);
    sorting::lemma_sorted_in_order(members, before);
    assert(members.no_duplicates());
    members.lemma_multiset_has_no_duplicates();
    assert forall|i: int, j: int| 0 <= i < j < ordered.len() implies (#[trigger] ordered[i]).0 != (
    #[trigger] ordered[j]).0 by {
        let a = ordered[i];
        let b = ordered[j];
        assert(ordered.contains(a) && ordered.contains(b));
        sorting::lemma_sorted_contains(members, before, a);
        sorting::lemma_sorted_contains(members, before, b);
        let k = choose|k: int| 0 <= k < members.len() && members[k] == a;
        let l = choose|l: int| 0 <= l < members.len() && members[l] == b;
        if a.0 == b.0 {
            assert(k == l);
            lemma_twice(ordered, i, j);
            vstd::seq_lib::to_multiset_contains(members, a);
            assert(members.to_multiset().count(a) <= 1);
        }
    }
    assert forall|i: int, j: int| 0 <= i < j < ordered.len() implies key_before(
        #[trigger] ordered[i],
        #[trigger] ordered[j],
    ) by {
        assert(!before(ordered[j], ordered[i]));
        text::lemma_text_before_is_total_order(ordered[i].0, ordered[j].0, ordered[i].0);
    }
}

/// What stands at two places counts at least twice.
proof fn lemma_twice<T>(s: Seq<T>, i: int, j: int)
    requires
        0 <= i < j < s.len(),
        s[i] == s[j],
    ensures
        s.to_multiset().count(s[i]) >= 2,
{
    let rest = s.remove(j);
    vstd::seq_lib::to_multiset_remove(s, j);
    assert(rest[i] == s[i]);
    assert(rest.contains(s[i]));
    vstd::seq_lib::to_multiset_contains(rest, s[i]);
    assert(rest.to_multiset().count(s[i]) >= 1);
}

/// The order by keys is a weak order.
proof fn lemma_key_order()
    ensures
        sorting::is_weak_order(key_order()),
{
    let before = key_order();
    assert forall|a: (Seq<char>, Json), b: (Seq<char>, Json)| #[trigger]
        before(a, b) implies !before(b, a) by {
        text::lemma_text_before_is_total_order(a.0, b.0, a.0);
    }
    assert forall|
        a: (Seq<char>, Json),
        b: (Seq<char>, Json),
        c: (Seq<char>, Json),
    | !(#[trigger] before(b, a)) && !(#[trigger] before(c, b)) implies !before(c, a) by {
        text::lemma_text_before_is_total_order(a.0, b.0, c.0);
        text::lemma_text_before_is_total_order(c.0, a.0, b.0);
        text::lemma_text_before_is_total_order(b.0, c.0, a.0);
    }
}

/// The canonical text of a value parses to its canonical form.
pub proof fn lemma_canonical_text_reads_back(v: Json)
    requires
        json_text::is_proper(v),
    ensures
        json::document(encode_utf8(canonical(v))) == Ok::<Json, Seq<char>>(normal(v)),
{
    lemma_normal_is_proper(v);
    json_text::lemma_compact_text_reads_back(normal(v));
}

/// Two values have the same canonical text only if they are the same up to the order of keys.
pub proof fn lemma_canonical_text_tells_apart(v: Json, w: Json)
    requires
        json_text::is_proper(v),
        json_text::is_proper(w),
        canonical(v) == canonical(w),
    ensures
        normal(v) == normal(w),
{
    lemma_canonical_text_reads_back(v);
    lemma_canonical_text_reads_back(w);
}

/// Two lists in strict order that hold the same are the same.
proof fn lemma_strict_order_is_unique(x: Seq<(Seq<char>, Json)>, y: Seq<(Seq<char>, Json)>)
    requires
        x.to_multiset() == y.to_multiset(),
        forall|i: int, j: int|
            0 <= i < j < x.len() ==> key_before(#[trigger] x[i], #[trigger] x[j]),
        forall|i: int, j: int|
            0 <= i < j < y.len() ==> key_before(#[trigger] y[i], #[trigger] y[j]),
    ensures
        x == y,
    decreases x.len(),
{
    vstd::seq_lib::to_multiset_len(x);
    vstd::seq_lib::to_multiset_len(y);
    if x.len() > 0 {
        let a = x.last();
        let b = y.last();
        assert(x.contains(a)) by {
            assert(x[x.len() - 1] == a);
        }
        assert(y.contains(b)) by {
            assert(y[y.len() - 1] == b);
        }
        vstd::seq_lib::to_multiset_contains(x, a);
        vstd::seq_lib::to_multiset_contains(y, a);
        vstd::seq_lib::to_multiset_contains(x, b);
        vstd::seq_lib::to_multiset_contains(y, b);
        let i = choose|i: int| 0 <= i < y.len() && y[i] == a;
        let j = choose|j: int| 0 <= j < x.len() && x[j] == b;
        if a != b {
            assert(key_before(y[i], y[y.len() - 1]));
            assert(key_before(x[j], x[x.len() - 1]));
            text::lemma_text_before_is_total_order(a.0, b.0, a.0);
        }
        vstd::seq_lib::to_multiset_remove(x, x.len() - 1);
        vstd::seq_lib::to_multiset_remove(y, y.len() - 1);
        assert(x.remove(x.len() - 1) =~= x.drop_last());
        assert(y.remove(y.len() - 1) =~= y.drop_last());
        lemma_strict_order_is_unique(x.drop_last(), y.drop_last());
        assert(x =~= x.drop_last().push(a));
        assert(y =~= y.drop_last().push(b));
    } else {
        assert(x =~= y);
    }
}

/// What holds the same holds the same in canonical form.
proof fn lemma_members_multiset(p: Seq<(Seq<char>, Json)>, q: Seq<(Seq<char>, Json)>)
    requires
        p.to_multiset() == q.to_multiset(),
    ensures
        normal_members(p).to_multiset() == normal_members(q).to_multiset(),
    decreases p.len(),
{
    vstd::seq_lib::to_multiset_len(p);
    vstd::seq_lib::to_multiset_len(q);
    if p.len() > 0 {
        let a = p.last();
        assert(p.contains(a)) by {
            assert(p[p.len() - 1] == a);
        }
        vstd::seq_lib::to_multiset_contains(p, a);
        vstd::seq_lib::to_multiset_contains(q, a);
        let k = choose|k: int| 0 <= k < q.len() && q[k] == a;
        vstd::seq_lib::to_multiset_remove(p, p.len() - 1);
        vstd::seq_lib::to_multiset_remove(q, k);
        let p1 = p.remove(p.len() - 1);
        let q1 = q.remove(k);
        lemma_members_multiset(p1, q1);
        let n = (a.0, normal(a.1));
        let np = normal_members(p);
        let nq = normal_members(q);
        assert(np.remove(p.len() - 1) =~= normal_members(p1));
        assert(nq.remove(k) =~= normal_members(q1));
        assert(np[p.len() - 1] == n && nq[k] == n);
        vstd::seq_lib::to_multiset_insert(normal_members(p1), p.len() - 1, n);
        vstd::seq_lib::to_multiset_insert(normal_members(q1), k, n);
        assert(normal_members(p1).insert(p.len() - 1, n) =~= np);
        assert(normal_members(q1).insert(k, n) =~= nq);
    } else {
        assert(p =~= q);
    }
}

/// The canonical text of an object does not depend on the order of its members.
pub proof fn lemma_canonical_text_ignores_order(
    p: Seq<(Seq<char>, Json)>,
    q: Seq<(Seq<char>, Json)>,
)
    requires
        forall|i: int, j: int|
            0 <= i < j < p.len() ==> (#[trigger] p[i]).0 != (#[trigger] p[j]).0,
        p.to_multiset() == q.to_multiset(),
    ensures
        canonical(Json::Obj(p)) == canonical(Json::Obj(q)),
{
    let np = normal_members(p);
    let nq = normal_members(q);
    lemma_members_multiset(p, q);
    vstd::seq_lib::to_multiset_len(p);
    vstd::seq_lib::to_multiset_len(q);
    assert forall|i: int, j: int| 0 <= i < j < np.len() implies (#[trigger] np[i]).0 != (
    #[trigger] np[j]).0 by {
        assert(p[i].0 != p[j].0);
    }
    lemma_keys_stay_distinct(np);
    assert forall|i: int, j: int| 0 <= i < j < nq.len() implies (#[trigger] nq[i]).0 != (
    #[trigger] nq[j]).0 by {
        let a = nq[i];
        let b = nq[j];
        assert(nq.contains(a) && nq.contains(b));
        vstd::seq_lib::to_multiset_contains(nq, a);
        vstd::seq_lib::to_multiset_contains(nq, b);
        vstd::seq_lib::to_multiset_contains(np, a);
        vstd::seq_lib::to_multiset_contains(np, b);
        let k = choose|k: int| 0 <= k < np.len() && np[k] == a;
        let l = choose|l: int| 0 <= l < np.len() && np[l] == b;
        if a.0 == b.0 {
            assert(k == l);
            lemma_twice(nq, i, j);
            assert(np.no_duplicates());
            np.lemma_multiset_has_no_duplicates();
            assert(np.to_multiset().count(a) <= 1);
        }
    }
    lemma_keys_stay_distinct(nq);
    sorting::lemma_sorted_permutes(np, key_order());
    sorting::lemma_sorted_permutes(nq, key_order());
    lemma_strict_order_is_unique(
        sorting::sorted(np, key_order()),
        sorting::sorted(nq, key_order()),
    );
}

/// Objects with the same keys in the same places have the same canonical text only if their
/// values agree in each place.
pub proof fn lemma_same_text_same_members(p: Seq<(Seq<char>, Json)>, q: Seq<(Seq<char>, Json)>)
    requires
        json_text::is_proper(Json::Obj(p)),
        json_text::is_proper(Json::Obj(q)),
        p.len() == q.len(),
        forall|i: int| 0 <= i < p.len() ==> (#[trigger] p[i]).0 == q[i].0,
        canonical(Json::Obj(p)) == canonical(Json::Obj(q)),
    ensures
        forall|i: int| 0 <= i < p.len() ==> normal((#[trigger] p[i]).1) == normal(q[i].1),
{
    lemma_canonical_text_tells_apart(Json::Obj(p), Json::Obj(q));
    let np = normal_members(p);
    let nq = normal_members(q);
    let ordered = sorting::sorted(np, key_order());
    assert(normal(Json::Obj(p)) == Json::Obj(ordered));
    assert(normal(Json::Obj(q)) == Json::Obj(sorting::sorted(nq, key_order())));
    assert forall|i: int| 0 <= i < p.len() implies normal((#[trigger] p[i]).1) == normal(
        q[i].1,
    ) by {
        let m = np[i];
        assert(np.contains(m));
        sorting::lemma_sorted_contains(np, key_order(), m);
        sorting::lemma_sorted_contains(nq, key_order(), m);
        let k = choose|k: int| 0 <= k < nq.len() && nq[k] == m;
        assert(q[k].0 == p[i].0);
        assert(q[i].0 == p[i].0);
        if k < i {
            assert(q[k].0 != q[i].0);
        } else if i < k {
            assert(q[i].0 != q[k].0);
        }
    }
}

}
