//! Laws of the canonical form of values and of their compact text.

use crate::canonical;
use crate::json;
use crate::json::Json;
use crate::sorting;
use crate::text;
use vstd::prelude::*;

verus! {

broadcast use vstd::seq::group_seq_axioms;

/// The canonical form of an object has the same members, each value in canonical form, and where
/// no key occurs twice, they stand in the order of their keys.
pub proof fn lemma_canonical_objects(pairs: Seq<(Seq<char>, Json)>, key: Seq<char>, v: Json)
    ensures
        ({
            let form = canonical::normal(Json::Obj(pairs));
            let members = form->Obj_0;
            &&& form is Obj
            &&& members.len() == pairs.len()
            &&& members.contains((key, v)) <==> exists|i: int|
                0 <= i < pairs.len() && (#[trigger] pairs[i]).0 == key && v == canonical::normal(
                    pairs[i].1,
                )
            &&& (forall|i: int, j: int|
                0 <= i < j < pairs.len() ==> (#[trigger] pairs[i]).0 != (#[trigger] pairs[j]).0)
                ==> forall|i: int, j: int|
                0 <= i < j < members.len() ==> text::text_before(
                    (#[trigger] members[i]).0,
                    (#[trigger] members[j]).0,
                )
        }),
{
    let form = canonical::normal(Json::Obj(pairs));
    let list = canonical::normal_members(pairs);
    let order = canonical::key_order();
    let members = sorting::sorted(list, order);
    assert(form == Json::Obj(members));
    sorting::lemma_sorted_permutes(list, order);
    sorting::lemma_sorted_contains(list, order, (key, v));
    if list.contains((key, v)) {
        let i = choose|i: int| 0 <= i < list.len() && list[i] == (key, v);
        assert(pairs[i].0 == key && v == canonical::normal(pairs[i].1));
    }
    if exists|i: int|
        0 <= i < pairs.len() && (#[trigger] pairs[i]).0 == key && v == canonical::normal(
            pairs[i].1,
        ) {
        let i = choose|i: int|
            0 <= i < pairs.len() && (#[trigger] pairs[i]).0 == key && v == canonical::normal(
                pairs[i].1,
            );
        assert(list[i] == (key, v));
    }
    if forall|i: int, j: int|
        0 <= i < j < pairs.len() ==> (#[trigger] pairs[i]).0 != (#[trigger] pairs[j]).0 {
        lemma_key_order();
        sorting::lemma_sorted_in_order(list, order);
        assert forall|i: int, j: int| 0 <= i < j < members.len() implies text::text_before(
            (#[trigger] members[i]).0,
            (#[trigger] members[j]).0,
        ) by {
            let (a, b) = sorting::lemma_sorted_places(list, order, i, j);
            if a < b {
                assert(pairs[a].0 != pairs[b].0);
            } else {
                assert(pairs[b].0 != pairs[a].0);
            }
            assert(!order(members[j], members[i]));
            text::lemma_text_before_is_total_order(
                members[i].0,
                members[j].0,
                members[i].0,
            );
        }
    }
}

proof fn lemma_key_order()
    ensures
        sorting::is_weak_order(canonical::key_order()),
{
    let before = canonical::key_order();
    assert forall|a: (Seq<char>, Json), b: (Seq<char>, Json)| #[trigger]
        before(a, b) implies !before(b, a) by {
        text::lemma_text_before_is_total_order(a.0, b.0, a.0);
    }
    assert forall|a: (Seq<char>, Json), b: (Seq<char>, Json), c: (Seq<char>, Json)|
        !(#[trigger] before(b, a)) && !(#[trigger] before(c, b)) implies !before(c, a) by {
        text::lemma_text_before_is_total_order(a.0, b.0, c.0);
        text::lemma_text_before_is_total_order(c.0, a.0, b.0);
        text::lemma_text_before_is_total_order(b.0, c.0, a.0);
        text::lemma_text_before_is_total_order(c.0, b.0, a.0);
    }
}

/// The canonical form of an array has the canonical forms of its items in their order, and any
/// other value but an object is its own canonical form.
pub proof fn lemma_canonical_arrays(items: Seq<Json>, v: Json)
    ensures
        ({
            let form = canonical::normal(Json::Arr(items));
            &&& form is Arr
            &&& form->Arr_0.len() == items.len()
            &&& forall|i: int|
                0 <= i < items.len() ==> #[trigger] form->Arr_0[i] == canonical::normal(items[i])
        }),
        !(v is Arr) && !(v is Obj) ==> canonical::normal(v) == v,
{
    let form = canonical::normal(Json::Arr(items));
    assert(form == Json::Arr(canonical::normal_items(items)));
}

/// The compact texts of values that hold nothing: words, numbers as they were written, texts in
/// quotation marks, and empty brackets.
pub proof fn lemma_compact_texts(n: Seq<char>, s: Seq<char>)
    ensures
        json::compact(Json::Null) == seq!['n', 'u', 'l', 'l'],
        json::compact(Json::Bool(true)) == seq!['t', 'r', 'u', 'e'],
        json::compact(Json::Bool(false)) == seq!['f', 'a', 'l', 's', 'e'],
        json::compact(Json::Num(n)) == n,
        json::compact(Json::Str(s)) == json::quote(s),
        json::compact(Json::Arr(seq![])) == seq!['[', ']'],
        json::compact(Json::Obj(seq![])) == seq!['{', '}'],
{
    reveal_strlit("null");
    reveal_strlit("true");
    reveal_strlit("false");
    assert("null"@ =~= seq!['n', 'u', 'l', 'l']);
    assert("true"@ =~= seq!['t', 'r', 'u', 'e']);
    assert("false"@ =~= seq!['f', 'a', 'l', 's', 'e']);
    let none: Seq<char> = seq![];
    assert(json::compact_items(seq![], 0) =~= none);
    assert(json::compact_pairs(seq![], 0) =~= none);
    assert(json::compact(Json::Arr(seq![])) =~= seq!['[', ']']);
    assert(json::compact(Json::Obj(seq![])) =~= seq!['{', '}']);
}

proof fn lemma_items_before(items: Seq<Json>, v: Json, n: int)
    requires
        0 <= n <= items.len(),
    ensures
        json::compact_items(items.push(v), n) == json::compact_items(items, n),
    decreases n,
{
    if n > 0 {
        lemma_items_before(items, v, n - 1);
        assert(items.push(v)[n - 1] == items[n - 1]);
    }
}

proof fn lemma_pairs_before(pairs: Seq<(Seq<char>, Json)>, m: (Seq<char>, Json), n: int)
    requires
        0 <= n <= pairs.len(),
    ensures
        json::compact_pairs(pairs.push(m), n) == json::compact_pairs(pairs, n),
    decreases n,
{
    if n > 0 {
        lemma_pairs_before(pairs, m, n - 1);
        assert(pairs.push(m)[n - 1] == pairs[n - 1]);
    }
}

/// An item more makes the compact text of an array longer by its own compact text before the
/// closing bracket, with a comma before it if it is not the first; and likewise a member more that
/// of an object, by its key in quotation marks, a colon and the text of its value.
pub proof fn lemma_compact_texts_grow(
    items: Seq<Json>,
    v: Json,
    pairs: Seq<(Seq<char>, Json)>,
    key: Seq<char>,
)
    ensures
        json::compact(Json::Arr(items.push(v))) == json::compact(Json::Arr(items)).drop_last() + (
        if items.len() > 0 {
            seq![',']
        } else {
            seq![]
        }) + json::compact(v) + seq![']'],
        json::compact(Json::Obj(pairs.push((key, v)))) == json::compact(
            Json::Obj(pairs),
        ).drop_last() + (if pairs.len() > 0 {
            seq![',']
        } else {
            seq![]
        }) + json::quote(key) + seq![':'] + json::compact(v) + seq!['}'],
{
    let n = items.len() as int;
    let more = items.push(v);
    lemma_items_before(items, v, n);
    let inner = json::compact_items(items, n);
    let comma: Seq<char> = if n > 0 {
        seq![',']
    } else {
        seq![]
    };
    assert(more[n] == v);
    assert(json::compact_items(more, n + 1) == inner + comma + json::compact(v));
    assert(json::compact(Json::Arr(items)).drop_last() =~= seq!['['] + inner);
    assert(seq!['['] + (inner + comma + json::compact(v)) + seq![']'] =~= seq!['['] + inner + comma
        + json::compact(v) + seq![']']);
    let m = pairs.len() as int;
    let longer = pairs.push((key, v));
    lemma_pairs_before(pairs, (key, v), m);
    let inside = json::compact_pairs(pairs, m);
    let between: Seq<char> = if m > 0 {
        seq![',']
    } else {
        seq![]
    };
    assert(longer[m] == (key, v));
    assert(json::compact_pairs(longer, m + 1) == inside + between + json::quote(key) + seq![':']
        + json::compact(v));
    assert(json::compact(Json::Obj(pairs)).drop_last() =~= seq!['{'] + inside);
    assert(seq!['{'] + (inside + between + json::quote(key) + seq![':'] + json::compact(v)) + seq![
        '}',
    ] =~= seq!['{'] + inside + between + json::quote(key) + seq![':'] + json::compact(v) + seq![
        '}',
    ]);
}

/// A number of spaces.
pub open spec fn spaces(n: nat) -> Seq<char> {
    Seq::new(n, |i: int| ' ')
}

proof fn lemma_lines_before(items: Seq<Json>, v: Json, n: int, indent: nat)
    requires
        0 <= n < items.len(),
    ensures
        json::pretty_items(items.push(v), n, indent) == json::pretty_items(items, n, indent),
    decreases n,
{
    if n > 0 {
        lemma_lines_before(items, v, n - 1, indent);
        assert(items.push(v)[n - 1] == items[n - 1]);
    }
}

proof fn lemma_pair_lines_before(
    pairs: Seq<(Seq<char>, Json)>,
    m: (Seq<char>, Json),
    n: int,
    indent: nat,
)
    requires
        0 <= n < pairs.len(),
    ensures
        json::pretty_pairs(pairs.push(m), n, indent) == json::pretty_pairs(pairs, n, indent),
    decreases n,
{
    if n > 0 {
        lemma_pair_lines_before(pairs, m, n - 1, indent);
        assert(pairs.push(m)[n - 1] == pairs[n - 1]);
    }
}

/// Over several lines the text of a value that holds no others is its compact text, and so is
/// that of an empty container. An array or object with one item or member has it on a line of its
/// own, indented by two spaces more than the bracket that closes it on the line below.
pub proof fn lemma_pretty_texts_start(v: Json, key: Seq<char>, indent: nat)
    ensures
        !(v is Arr) && !(v is Obj) ==> json::pretty(v, indent) == json::compact(v),
        json::pretty(Json::Arr(seq![]), indent) == seq!['[', ']'],
        json::pretty(Json::Obj(seq![]), indent) == seq!['{', '}'],
        json::pretty(Json::Arr(seq![v]), indent) == seq!['[', '\n'] + spaces(2 * indent + 2)
            + json::pretty(v, indent + 1) + seq!['\n'] + spaces(2 * indent) + seq![']'],
        json::pretty(Json::Obj(seq![(key, v)]), indent) == seq!['{', '\n'] + spaces(2 * indent + 2)
            + json::quote(key) + seq![':', ' '] + json::pretty(v, indent + 1) + seq!['\n'] + spaces(
            2 * indent,
        ) + seq!['}'],
{
    reveal_strlit("[]");
    reveal_strlit("{}");
    reveal_strlit("[\n");
    reveal_strlit("{\n");
    assert("[]"@ =~= seq!['[', ']']);
    assert("{}"@ =~= seq!['{', '}']);
    assert("[\n"@ =~= seq!['[', '\n']);
    assert("{\n"@ =~= seq!['{', '\n']);
    let deep = spaces(2 * indent + 2);
    assert(json::margin(indent + 1) =~= deep);
    assert(json::margin(indent) =~= spaces(2 * indent));
    let inner = json::pretty(v, indent + 1);
    reveal_with_fuel(json::pretty_items, 2);
    reveal_with_fuel(json::pretty_pairs, 2);
    let none: Seq<char> = seq![];
    let items = seq![v];
    assert(json::pretty_items(items, 1, indent) == none + deep + inner + seq!['\n']);
    assert(json::pretty_items(items, 1, indent) =~= deep + inner + seq!['\n']);
    assert(seq!['[', '\n'] + (deep + inner + seq!['\n']) =~= seq!['[', '\n'] + deep + inner + seq![
        '\n',
    ]);
    let pairs = seq![(key, v)];
    let name = json::quote(key);
    assert(json::pretty_pairs(pairs, 1, indent) == none + deep + name + seq![':', ' '] + inner
        + seq!['\n']);
    assert(seq!['{', '\n'] + (none + deep + name + seq![':', ' '] + inner + seq!['\n']) =~= seq![
        '{',
        '\n',
    ] + deep + name + seq![':', ' '] + inner + seq!['\n']);
}

/// An item or a member more takes a line of its own before the bracket that closes the text, and a
/// comma ends the line before it.
#[verifier::spinoff_prover]
pub proof fn lemma_pretty_texts_grow(
    items: Seq<Json>,
    v: Json,
    pairs: Seq<(Seq<char>, Json)>,
    key: Seq<char>,
    indent: nat,
)
    requires
        items.len() > 0,
        pairs.len() > 0,
    ensures
        ({
            let text = json::pretty(Json::Arr(items), indent);
            let front = text.take(text.len() - 2 * indent - 2);
            &&& 2 * indent + 2 <= text.len()
            &&& json::pretty(Json::Arr(items.push(v)), indent) == front + seq![',', '\n'] + spaces(
                2 * indent + 2,
            ) + json::pretty(v, indent + 1) + seq!['\n'] + spaces(2 * indent) + seq![']']
        }),
        ({
            let text = json::pretty(Json::Obj(pairs), indent);
            let front = text.take(text.len() - 2 * indent - 2);
            &&& 2 * indent + 2 <= text.len()
            &&& json::pretty(Json::Obj(pairs.push((key, v))), indent) == front + seq![',', '\n']
                + spaces(2 * indent + 2) + json::quote(key) + seq![':', ' '] + json::pretty(
                v,
                indent + 1,
            ) + seq!['\n'] + spaces(2 * indent) + seq!['}']
        }),
{
    let deep = spaces(2 * indent + 2);
    let flat = spaces(2 * indent);
    assert(json::margin(indent + 1) =~= deep);
    assert(json::margin(indent) =~= flat);
    let inner = json::pretty(v, indent + 1);
    let n = items.len() as int;
    let more = items.push(v);
    lemma_lines_before(items, v, n - 1, indent);
    let lines = json::pretty_items(items, n - 1, indent) + deep + json::pretty(
        items[n - 1],
        indent + 1,
    );
    assert(more[n - 1] == items[n - 1] && more[n] == v);
    assert(json::pretty_items(items, n, indent) == lines + seq!['\n']);
    assert(json::pretty_items(more, n, indent) == lines + seq![',', '\n']);
    assert(json::pretty_items(more, n + 1, indent) == lines + seq![',', '\n'] + deep + inner + seq![
        '\n',
    ]);
    let text = json::pretty(Json::Arr(items), indent);
    assert(text == "[\n"@ + (lines + seq!['\n']) + flat + seq![']']);
    let front = text.take(text.len() - 2 * indent - 2);
    assert(front =~= "[\n"@ + lines);
    assert("[\n"@ + (lines + seq![',', '\n'] + deep + inner + seq!['\n']) + flat + seq![']'] =~= front
        + seq![',', '\n'] + deep + inner + seq!['\n'] + flat + seq![']']);
    lemma_pretty_objects_grow(pairs, key, v, indent);
}

#[verifier::spinoff_prover]
proof fn lemma_pretty_objects_grow(
    pairs: Seq<(Seq<char>, Json)>,
    key: Seq<char>,
    v: Json,
    indent: nat,
)
    requires
        pairs.len() > 0,
    ensures
        ({
            let text = json::pretty(Json::Obj(pairs), indent);
            let front = text.take(text.len() - 2 * indent - 2);
            &&& 2 * indent + 2 <= text.len()
            &&& json::pretty(Json::Obj(pairs.push((key, v))), indent) == front + seq![',', '\n']
                + spaces(2 * indent + 2) + json::quote(key) + seq![':', ' '] + json::pretty(
                v,
                indent + 1,
            ) + seq!['\n'] + spaces(2 * indent) + seq!['}']
        }),
{
    let deep = spaces(2 * indent + 2);
    let flat = spaces(2 * indent);
    assert(json::margin(indent + 1) =~= deep);
    assert(json::margin(indent) =~= flat);
    let inner = json::pretty(v, indent + 1);
    let name = json::quote(key);
    let n = pairs.len() as int;
    let more = pairs.push((key, v));
    lemma_pair_lines_before(pairs, (key, v), n - 1, indent);
    let lines = json::pretty_pairs(pairs, n - 1, indent) + deep + json::quote(pairs[n - 1].0) + seq![
        ':',
        ' ',
    ] + json::pretty(pairs[n - 1].1, indent + 1);
    assert(more[n - 1] == pairs[n - 1] && more[n] == (key, v));
    assert(json::pretty_pairs(pairs, n, indent) == lines + seq!['\n']);
    assert(json::pretty_pairs(more, n, indent) == lines + seq![',', '\n']);
    assert(json::pretty_pairs(more, n + 1, indent) == lines + seq![',', '\n'] + deep + name + seq![
        ':',
        ' ',
    ] + inner + seq!['\n']);
    let text = json::pretty(Json::Obj(pairs), indent);
    assert(text == "{\n"@ + (lines + seq!['\n']) + flat + seq!['}']);
    let front = text.take(text.len() - 2 * indent - 2);
    assert(front =~= "{\n"@ + lines);
    assert("{\n"@ + (lines + seq![',', '\n'] + deep + name + seq![':', ' '] + inner + seq!['\n'])
        + flat + seq!['}'] =~= front + seq![',', '\n'] + deep + name + seq![':', ' '] + inner + seq![
        '\n',
    ] + flat + seq!['}']);
}

}
