//! Minimal JSON that keeps the order of object keys, so that digests over it are deterministic.

use crate::text;
use vstd::prelude::*;
use vstd::string::*;
use vstd::utf8::*;

verus! {

broadcast use vstd::seq::group_seq_axioms;

/// A JSON value; numbers keep their notation.
#[derive(Debug, PartialEq, Eq)]
pub enum Value {
    Null,
    Bool(bool),
    Num(String),
    Str(String),
    Arr(Vec<Value>),
    Obj(Vec<(String, Value)>),
}

/// The mathematical form of a `Value`.
pub enum Json {
    Null,
    Bool(bool),
    Num(Seq<char>),
    Str(Seq<char>),
    Arr(Seq<Json>),
    Obj(Seq<(Seq<char>, Json)>),
}

impl Value {
    /// The JSON value that this stands for.
    pub open spec fn json(self) -> Json
        decreases self,
    {
        match self {
            Value::Null => Json::Null,
            Value::Bool(b) => Json::Bool(b),
            Value::Num(n) => Json::Num(n@),
            Value::Str(s) => Json::Str(s@),
            Value::Arr(items) => Json::Arr(
                Seq::new(
                    items@.len(),
                    |i: int|
                        if 0 <= i < items@.len() {
                            items[i].json()
                        } else {
                            arbitrary()
                        },
                ),
            ),
            Value::Obj(pairs) => Json::Obj(
                Seq::new(
                    pairs@.len(),
                    |i: int|
                        if 0 <= i < pairs@.len() {
                            (pairs[i].0@, pairs[i].1.json())
                        } else {
                            arbitrary()
                        },
                ),
            ),
        }
    }
}

/// The JSON values of a list.
pub open spec fn items_of(items: Seq<Value>) -> Seq<Json> {
    Seq::new(items.len(), |i: int| items[i].json())
}

/// The keys and JSON values of a list of pairs.
pub open spec fn pairs_of(pairs: Seq<(String, Value)>) -> Seq<(Seq<char>, Json)> {
    Seq::new(pairs.len(), |i: int| (pairs[i].0@, pairs[i].1.json()))
}

/// The JSON value of an array.
pub proof fn lemma_arr_json(items: Vec<Value>)
    ensures
        Value::Arr(items).json() == Json::Arr(items_of(items@)),
{
    assert(Value::Arr(items).json()->Arr_0 =~= items_of(items@));
}

/// The JSON value of an object.
pub proof fn lemma_obj_json(pairs: Vec<(String, Value)>)
    ensures
        Value::Obj(pairs).json() == Json::Obj(pairs_of(pairs@)),
{
    assert(Value::Obj(pairs).json()->Obj_0 =~= pairs_of(pairs@));
}

/// The place of the first pair with the given key.
pub open spec fn key_place(pairs: Seq<(Seq<char>, Json)>, key: Seq<char>) -> Option<int>
    decreases pairs.len(),
{
    if pairs.len() == 0 {
        None
    } else {
        match key_place(pairs.drop_last(), key) {
            Some(i) => Some(i),
            None => if pairs.last().0 == key {
                Some(pairs.len() - 1)
            } else {
                None
            },
        }
    }
}

impl Clone for Value {
    fn clone(&self) -> (r: Self)
        ensures
            r.json() == self.json(),
    {
        duplicate(self)
    }
}

/// A copy of a value.
fn duplicate(value: &Value) -> (r: Value)
    ensures
        r.json() == value.json(),
    decreases value,
{
    match value {
        Value::Null => Value::Null,
        Value::Bool(b) => Value::Bool(*b),
        Value::Num(n) => Value::Num(n.clone()),
        Value::Str(s) => Value::Str(s.clone()),
        Value::Arr(items) => {
            let mut copy: Vec<Value> = Vec::new();
            let mut i: usize = 0;
            while i < items.len()
                invariant
                    0 <= i <= items@.len(),
                    *value == Value::Arr(*items),
                    items_of(copy@) == items_of(items@).take(i as int),
                decreases items@.len() - i,
            {
                let ghost done = copy@;
                assert(decreases_to!(*value => value->Arr_0));
                let item: Value = duplicate(&items[i]);
                copy.push(item);
                i = i + 1;
                assert(items_of(copy@) =~= items_of(items@).take(i as int)) by {
                    assert(items_of(copy@) =~= items_of(done).push(item.json()));
                }
            }
            proof {
                lemma_arr_json(copy);
                lemma_arr_json(*items);
                assert(items_of(items@).take(i as int) =~= items_of(items@));
            }
            Value::Arr(copy)
        },
        Value::Obj(pairs) => {
            let mut copy: Vec<(String, Value)> = Vec::new();
            let mut i: usize = 0;
            while i < pairs.len()
                invariant
                    0 <= i <= pairs@.len(),
                    *value == Value::Obj(*pairs),
                    pairs_of(copy@) == pairs_of(pairs@).take(i as int),
                decreases pairs@.len() - i,
            {
                let ghost done = copy@;
                let pair: &(String, Value) = &pairs[i];
                let key: String = pair.0.clone();
                assert(decreases_to!(*value => value->Obj_0));
                assert(decreases_to!(pairs@[i as int] => pairs@[i as int].1));
                let item: Value = duplicate(&pair.1);
                copy.push((key, item));
                i = i + 1;
                assert(pairs_of(copy@) =~= pairs_of(pairs@).take(i as int)) by {
                    assert(pairs_of(copy@) =~= pairs_of(done).push((key@, item.json())));
                }
            }
            proof {
                lemma_obj_json(copy);
                lemma_obj_json(*pairs);
                assert(pairs_of(pairs@).take(i as int) =~= pairs_of(pairs@));
            }
            Value::Obj(copy)
        },
    }
}

impl Value {
    /// A string value.
    pub fn str(s: &str) -> (r: Self)
        ensures
            r.json() == Json::Str(s@),
    {
        Value::Str(s.to_string())
    }

    /// An object with the given pairs, in order.
    pub fn obj(pairs: Vec<(&str, Value)>) -> (r: Self)
        ensures
            r.json() == Json::Obj(
                Seq::new(pairs@.len(), |i: int| (pairs@[i].0@, pairs@[i].1.json())),
            ),
    {
        let ghost wanted = Seq::new(pairs@.len(), |i: int| (pairs@[i].0@, pairs@[i].1.json()));
        let ghost all = pairs@;
        let mut rest = pairs;
        let mut out: Vec<(String, Value)> = Vec::new();
        while rest.len() > 0
            invariant
                out@.len() + rest@.len() == all.len(),
                rest@ == all.skip(out@.len() as int),
                wanted == Seq::new(all.len(), |i: int| (all[i].0@, all[i].1.json())),
                pairs_of(out@) == wanted.take(out@.len() as int),
            decreases rest@.len(),
        {
            let ghost done = out@;
            let (k, v) = rest.remove(0);
            out.push((k.to_string(), v));
            proof {
                assert(all[done.len() as int] == (k, v));
                assert(rest@ =~= all.skip(out@.len() as int));
                assert(pairs_of(out@) =~= pairs_of(done).push((k@, v.json())));
                assert(pairs_of(out@) =~= wanted.take(out@.len() as int));
            }
        }
        proof {
            lemma_obj_json(out);
            assert(wanted.take(out@.len() as int) =~= wanted);
        }
        Value::Obj(out)
    }

    /// An object with the given pairs, in order.
    pub fn from_pairs(pairs: Vec<(String, Value)>) -> (r: Self)
        ensures
            r.json() == Json::Obj(pairs_of(pairs@)),
    {
        proof {
            lemma_obj_json(pairs);
        }
        Value::Obj(pairs)
    }

    /// The value of the first pair with the given key, if this is an object that has one.
    pub fn get(&self, key: &str) -> (r: Option<&Value>)
        ensures
            match self.json() {
                Json::Obj(pairs) => match key_place(pairs, key@) {
                    Some(i) => r is Some && 0 <= i < pairs.len() && r->0.json() == pairs[i].1,
                    None => r is None,
                },
                _ => r is None,
            },
    {
        match self {
            Value::Obj(pairs) => {
                let ghost all = pairs_of(pairs@);
                proof {
                    lemma_obj_json(*pairs);
                }
                let mut i: usize = 0;
                while i < pairs.len()
                    invariant
                        0 <= i <= pairs@.len(),
                        all == pairs_of(pairs@),
                        self.json() == Json::Obj(all),
                        key_place(all.take(i as int), key@) is None,
                    decreases pairs@.len() - i,
                {
                    proof {
                        assert(all.take(i + 1).drop_last() =~= all.take(i as int));
                    }
                    if text::same_text(pairs[i].0.as_str(), key) {
                        proof {
                            lemma_key_place_extends(all, key@, i + 1);
                        }
                        return Some(&pairs[i].1);
                    }
                    i = i + 1;
                }
                assert(all.take(i as int) =~= all);
                None
            },
            _ => None,
        }
    }

    /// The text of a string value.
    pub fn as_str(&self) -> (r: Option<&str>)
        ensures
            match self.json() {
                Json::Str(s) => r is Some && r->0@ == s,
                _ => r is None,
            },
    {
        match self {
            Value::Str(s) => Some(s.as_str()),
            _ => None,
        }
    }

    /// The number of a numeric value, if it is a whole number that fits 64 bits.
    pub fn as_u64(&self) -> (r: Option<u64>)
        ensures
            r == match self.json() {
                Json::Num(n) => match text::unsigned_value(n) {
                    Some(v) => if v <= u64::MAX {
                        Some(v as u64)
                    } else {
                        None
                    },
                    None => None,
                },
                _ => None,
            },
    {
        match self {
            Value::Num(n) => text::parse_u64(n.as_str()),
            _ => None,
        }
    }

    /// The items of an array.
    pub fn as_array(&self) -> (r: Option<&Vec<Value>>)
        ensures
            match self.json() {
                Json::Arr(items) => r is Some && items_of(r->0@) == items,
                _ => r is None,
            },
    {
        match self {
            Value::Arr(items) => {
                proof {
                    lemma_arr_json(*items);
                }
                Some(items)
            },
            _ => None,
        }
    }

    /// The pairs of an object.
    pub fn as_object(&self) -> (r: Option<&Vec<(String, Value)>>)
        ensures
            match self.json() {
                Json::Obj(pairs) => r is Some && pairs_of(r->0@) == pairs,
                _ => r is None,
            },
    {
        match self {
            Value::Obj(pairs) => {
                proof {
                    lemma_obj_json(*pairs);
                }
                Some(pairs)
            },
            _ => None,
        }
    }

    /// The pairs of an object, taken out of it.
    pub fn into_object(self) -> (r: Option<Vec<(String, Value)>>)
        ensures
            match self.json() {
                Json::Obj(pairs) => r is Some && pairs_of(r->0@) == pairs,
                _ => r is None,
            },
    {
        match self {
            Value::Obj(pairs) => {
                proof {
                    lemma_obj_json(pairs);
                }
                Some(pairs)
            },
            _ => None,
        }
    }
}

/// The first pair with a key stays the first one in a longer list.
proof fn lemma_key_place_extends(pairs: Seq<(Seq<char>, Json)>, key: Seq<char>, n: int)
    requires
        0 <= n <= pairs.len(),
        key_place(pairs.take(n), key) is Some,
    ensures
        key_place(pairs, key) == key_place(pairs.take(n), key),
    decreases pairs.len() - n,
{
    if n < pairs.len() {
        assert(pairs.take(n + 1).drop_last() =~= pairs.take(n));
        lemma_key_place_extends(pairs, key, n + 1);
    } else {
        assert(pairs.take(n) =~= pairs);
    }
}

/// The hexadecimal digit of a number below sixteen.
pub open spec fn hex_digit(d: u32) -> char {
    if d < 10 {
        (48 + d) as char
    } else {
        (87 + d) as char
    }
}

/// How a character is written inside a string.
pub open spec fn escape(c: char) -> Seq<char> {
    if c == '"' {
        seq!['\\', '"']
    } else if c == '\\' {
        seq!['\\', '\\']
    } else if c == '\n' {
        seq!['\\', 'n']
    } else if c == '\r' {
        seq!['\\', 'r']
    } else if c == '\t' {
        seq!['\\', 't']
    } else if c == '\u{08}' {
        seq!['\\', 'b']
    } else if c == '\u{0c}' {
        seq!['\\', 'f']
    } else if (c as u32) < 0x20 {
        seq!['\\', 'u', '0', '0', hex_digit(c as u32 / 16), hex_digit(c as u32 % 16)]
    } else {
        seq![c]
    }
}

/// How a text is written inside a string.
pub open spec fn escape_all(s: Seq<char>) -> Seq<char>
    decreases s.len(),
{
    if s.len() == 0 {
        seq![]
    } else {
        escape_all(s.drop_last()) + escape(s.last())
    }
}

/// A text in quotation marks.
pub open spec fn quote(s: Seq<char>) -> Seq<char> {
    seq!['"'] + escape_all(s) + seq!['"']
}

/// What separates the item before place `n` from it.
pub open spec fn comma(n: int) -> Seq<char> {
    if n > 0 {
        seq![',']
    } else {
        seq![]
    }
}

/// The compact text of a value.
pub open spec fn compact(v: Json) -> Seq<char>
    decreases v, 0int,
{
    match v {
        Json::Null => "null"@,
        Json::Bool(b) => if b {
            "true"@
        } else {
            "false"@
        },
        Json::Num(n) => n,
        Json::Str(s) => quote(s),
        Json::Arr(items) => seq!['['] + compact_items(items, items.len() as int) + seq![']'],
        Json::Obj(pairs) => seq!['{'] + compact_pairs(pairs, pairs.len() as int) + seq!['}'],
    }
}

/// The first `n` items, separated by commas.
pub open spec fn compact_items(items: Seq<Json>, n: int) -> Seq<char>
    decreases items, n,
{
    if 0 < n <= items.len() {
        compact_items(items, n - 1) + comma(n - 1) + compact(items[n - 1])
    } else {
        seq![]
    }
}

/// The first `n` pairs, separated by commas.
pub open spec fn compact_pairs(pairs: Seq<(Seq<char>, Json)>, n: int) -> Seq<char>
    decreases pairs, n,
{
    if 0 < n <= pairs.len() {
        compact_pairs(pairs, n - 1) + comma(n - 1) + quote(pairs[n - 1].0) + seq![':'] + compact(
            pairs[n - 1].1,
        )
    } else {
        seq![]
    }
}

/// The white space that indents a line.
pub open spec fn margin(indent: nat) -> Seq<char> {
    Seq::new(2 * indent, |i: int| ' ')
}

/// How many levels of containers that hold something a value has.
pub open spec fn height(v: Json) -> nat
    decreases v, 0int,
{
    match v {
        Json::Arr(items) => if items.len() == 0 {
            0
        } else {
            1 + items_height(items, items.len() as int)
        },
        Json::Obj(pairs) => if pairs.len() == 0 {
            0
        } else {
            1 + pairs_height(pairs, pairs.len() as int)
        },
        _ => 0,
    }
}

/// The largest height among the first `n` items.
pub open spec fn items_height(items: Seq<Json>, n: int) -> nat
    decreases items, n,
{
    if 0 < n <= items.len() {
        let rest = items_height(items, n - 1);
        if height(items[n - 1]) > rest {
            height(items[n - 1])
        } else {
            rest
        }
    } else {
        0
    }
}

/// The largest height among the first `n` values.
pub open spec fn pairs_height(pairs: Seq<(Seq<char>, Json)>, n: int) -> nat
    decreases pairs, n,
{
    if 0 < n <= pairs.len() {
        let rest = pairs_height(pairs, n - 1);
        if height(pairs[n - 1].1) > rest {
            height(pairs[n - 1].1)
        } else {
            rest
        }
    } else {
        0
    }
}

/// The text of a value over several lines; containers that hold nothing stay on one line.
pub open spec fn pretty(v: Json, indent: nat) -> Seq<char>
    decreases v, 0int,
{
    match v {
        Json::Arr(items) => if items.len() == 0 {
            "[]"@
        } else {
            "[\n"@ + pretty_items(items, items.len() as int, indent) + margin(indent) + seq![']']
        },
        Json::Obj(pairs) => if pairs.len() == 0 {
            "{}"@
        } else {
            "{\n"@ + pretty_pairs(pairs, pairs.len() as int, indent) + margin(indent) + seq!['}']
        },
        _ => compact(v),
    }
}

/// The end of the line of item `n` out of `len`.
pub open spec fn line_end(n: int, len: int) -> Seq<char> {
    if n + 1 < len {
        seq![',', '\n']
    } else {
        seq!['\n']
    }
}

/// The lines of the first `n` items.
pub open spec fn pretty_items(items: Seq<Json>, n: int, indent: nat) -> Seq<char>
    decreases items, n,
{
    if 0 < n <= items.len() {
        pretty_items(items, n - 1, indent) + margin(indent + 1) + pretty(items[n - 1], indent + 1)
            + line_end(n - 1, items.len() as int)
    } else {
        seq![]
    }
}

/// The lines of the first `n` pairs.
pub open spec fn pretty_pairs(pairs: Seq<(Seq<char>, Json)>, n: int, indent: nat) -> Seq<char>
    decreases pairs, n,
{
    if 0 < n <= pairs.len() {
        pretty_pairs(pairs, n - 1, indent) + margin(indent + 1) + quote(pairs[n - 1].0) + seq![
            ':',
            ' ',
        ] + pretty(pairs[n - 1].1, indent + 1) + line_end(n - 1, pairs.len() as int)
    } else {
        seq![]
    }
}

/// The compact text of a value.
pub fn stringify(value: &Value) -> (r: String)
    ensures
        r@ == compact(value.json()),
{
    let mut out: String = String::new();
    write_value(&mut out, value);
    assert(out@ =~= compact(value.json()));
    out
}

/// Appends the text of a value over several lines.
pub fn write_pretty(out: &mut String, value: &Value, indent: usize)
    requires
        indent + height(value.json()) <= usize::MAX,
    ensures
        final(out)@ == old(out)@ + pretty(value.json(), indent as nat),
    decreases value,
{
    let ghost before = out@;
    match value {
        Value::Obj(pairs) => {
            let ghost all = pairs_of(pairs@);
            proof {
                lemma_obj_json(*pairs);
            }
            if pairs.len() == 0 {
                out.append("{}");
                return;
            }
            out.append("{\n");
            let ghost head = out@;
            let mut i: usize = 0;
            assert(head + pretty_pairs(all, 0, indent as nat) =~= head);
            while i < pairs.len()
                invariant
                    0 <= i <= pairs@.len(),
                    *value == Value::Obj(*pairs),
                    all == pairs_of(pairs@),
                    indent + 1 + pairs_height(all, all.len() as int) <= usize::MAX,
                    out@ == head + pretty_pairs(all, i as int, indent as nat),
                decreases pairs@.len() - i,
            {
                let pair: &(String, Value) = &pairs[i];
                proof {
                    lemma_pairs_height(all, all.len() as int, i as int);
                    assert(decreases_to!(*value => value->Obj_0));
                    assert(decreases_to!(pairs@[i as int] => pairs@[i as int].1));
                }
                proof {
                    lemma_pretty_pairs_step(head, all, i as int, indent as nat);
                }
                push_indent(out, indent + 1);
                push_quoted(out, pair.0.as_str());
                push_two(out, ':', ' ');
                write_pretty(out, &pair.1, indent + 1);
                push_line_end(out, i + 1 < pairs.len());
                i = i + 1;
            }
            push_indent(out, indent);
            out.push('}');
            assert(out@ =~= before + pretty(value.json(), indent as nat));
        },
        Value::Arr(items) => {
            let ghost all = items_of(items@);
            proof {
                lemma_arr_json(*items);
            }
            if items.len() == 0 {
                out.append("[]");
                return;
            }
            out.append("[\n");
            let ghost head = out@;
            let mut i: usize = 0;
            assert(head + pretty_items(all, 0, indent as nat) =~= head);
            while i < items.len()
                invariant
                    0 <= i <= items@.len(),
                    *value == Value::Arr(*items),
                    all == items_of(items@),
                    indent + 1 + items_height(all, all.len() as int) <= usize::MAX,
                    out@ == head + pretty_items(all, i as int, indent as nat),
                decreases items@.len() - i,
            {
                proof {
                    lemma_items_height(all, all.len() as int, i as int);
                    assert(decreases_to!(*value => value->Arr_0));
                }
                proof {
                    lemma_pretty_items_step(head, all, i as int, indent as nat);
                }
                push_indent(out, indent + 1);
                write_pretty(out, &items[i], indent + 1);
                push_line_end(out, i + 1 < items.len());
                i = i + 1;
            }
            push_indent(out, indent);
            out.push(']');
            assert(out@ =~= before + pretty(value.json(), indent as nat));
        },
        _ => {
            write_value(out, value);
        },
    }
}

proof fn lemma_items_height(items: Seq<Json>, n: int, i: int)
    requires
        0 <= i < n <= items.len(),
    ensures
        height(items[i]) <= items_height(items, n),
    decreases n,
{
    if i < n - 1 {
        lemma_items_height(items, n - 1, i);
    }
}

proof fn lemma_pairs_height(pairs: Seq<(Seq<char>, Json)>, n: int, i: int)
    requires
        0 <= i < n <= pairs.len(),
    ensures
        height(pairs[i].1) <= pairs_height(pairs, n),
    decreases n,
{
    if i < n - 1 {
        lemma_pairs_height(pairs, n - 1, i);
    }
}

proof fn lemma_pretty_items_step(head: Seq<char>, items: Seq<Json>, i: int, indent: nat)
    requires
        0 <= i < items.len(),
    ensures
        head + pretty_items(items, i, indent) + margin(indent + 1) + pretty(items[i], indent + 1)
            + line_end(i, items.len() as int) == head + pretty_items(items, i + 1, indent),
{
    assert(head + pretty_items(items, i, indent) + margin(indent + 1) + pretty(
        items[i],
        indent + 1,
    ) + line_end(i, items.len() as int) =~= head + pretty_items(items, i + 1, indent));
}

proof fn lemma_pretty_pairs_step(
    head: Seq<char>,
    pairs: Seq<(Seq<char>, Json)>,
    i: int,
    indent: nat,
)
    requires
        0 <= i < pairs.len(),
    ensures
        head + pretty_pairs(pairs, i, indent) + margin(indent + 1) + quote(pairs[i].0) + seq![
            ':',
            ' ',
        ] + pretty(pairs[i].1, indent + 1) + line_end(i, pairs.len() as int) == head
            + pretty_pairs(pairs, i + 1, indent),
{
    assert(head + pretty_pairs(pairs, i, indent) + margin(indent + 1) + quote(pairs[i].0) + seq![
        ':',
        ' ',
    ] + pretty(pairs[i].1, indent + 1) + line_end(i, pairs.len() as int) =~= head + pretty_pairs(
        pairs,
        i + 1,
        indent,
    ));
}

fn push_two(out: &mut String, a: char, b: char)
    ensures
        final(out)@ == old(out)@ + seq![a, b],
{
    out.push(a);
    out.push(b);
    assert(out@ =~= old(out)@ + seq![a, b]);
}

fn push_quoted(out: &mut String, s: &str)
    ensures
        final(out)@ == old(out)@ + quote(s@),
{
    out.push('"');
    escape_into(s, out);
    out.push('"');
    assert(out@ =~= old(out)@ + quote(s@));
}

fn push_line_end(out: &mut String, more: bool)
    ensures
        final(out)@ == old(out)@ + if more {
            seq![',', '\n']
        } else {
            seq!['\n']
        },
{
    if more {
        push_two(out, ',', '\n');
    } else {
        out.push('\n');
        assert(out@ =~= old(out)@ + seq!['\n']);
    }
}

fn push_indent(out: &mut String, indent: usize)
    ensures
        final(out)@ == old(out)@ + margin(indent as nat),
{
    let ghost before = out@;
    let mut i: usize = 0;
    assert(out@ =~= before + margin(0));
    while i < indent
        invariant
            0 <= i <= indent,
            out@ == before + margin(i as nat),
        decreases indent - i,
    {
        out.push(' ');
        out.push(' ');
        i = i + 1;
        assert(out@ =~= before + margin(i as nat));
    }
}

fn write_value(out: &mut String, value: &Value)
    ensures
        final(out)@ == old(out)@ + compact(value.json()),
    decreases value,
{
    let ghost before = out@;
    match value {
        Value::Null => {
            out.append("null");
        },
        Value::Bool(b) => {
            if *b {
                out.append("true");
            } else {
                out.append("false");
            }
        },
        Value::Num(n) => {
            out.append(n.as_str());
        },
        Value::Str(s) => {
            push_quoted(out, s.as_str());
        },
        Value::Arr(items) => {
            let ghost all = items_of(items@);
            proof {
                lemma_arr_json(*items);
            }
            out.push('[');
            let ghost head = out@;
            let mut i: usize = 0;
            assert(head + compact_items(all, 0) =~= head);
            while i < items.len()
                invariant
                    0 <= i <= items@.len(),
                    *value == Value::Arr(*items),
                    all == items_of(items@),
                    out@ == head + compact_items(all, i as int),
                decreases items@.len() - i,
            {
                proof {
                    assert(decreases_to!(*value => value->Arr_0));
                }
                if i > 0 {
                    out.push(',');
                }
                write_value(out, &items[i]);
                assert(out@ =~= head + compact_items(all, i + 1));
                i = i + 1;
            }
            out.push(']');
            assert(out@ =~= before + compact(value.json()));
        },
        Value::Obj(pairs) => {
            let ghost all = pairs_of(pairs@);
            proof {
                lemma_obj_json(*pairs);
            }
            out.push('{');
            let ghost head = out@;
            let mut i: usize = 0;
            assert(head + compact_pairs(all, 0) =~= head);
            while i < pairs.len()
                invariant
                    0 <= i <= pairs@.len(),
                    *value == Value::Obj(*pairs),
                    all == pairs_of(pairs@),
                    out@ == head + compact_pairs(all, i as int),
                decreases pairs@.len() - i,
            {
                let pair: &(String, Value) = &pairs[i];
                proof {
                    assert(decreases_to!(*value => value->Obj_0));
                    assert(decreases_to!(pairs@[i as int] => pairs@[i as int].1));
                }
                if i > 0 {
                    out.push(',');
                }
                push_quoted(out, pair.0.as_str());
                out.push(':');
                write_value(out, &pair.1);
                assert(out@ =~= head + compact_pairs(all, i + 1));
                i = i + 1;
            }
            out.push('}');
            assert(out@ =~= before + compact(value.json()));
        },
    }
}

fn hex_char(d: u8) -> (r: char)
    requires
        d < 16,
    ensures
        r == hex_digit(d as u32),
{
    if d < 10 {
        (48u8 + d) as char
    } else {
        (87u8 + d) as char
    }
}

fn escape_into(s: &str, out: &mut String)
    ensures
        final(out)@ == old(out)@ + escape_all(s@),
{
    let ghost before = out@;
    let chars: Vec<char> = text::chars_of(s);
    let mut i: usize = 0;
    assert(before + escape_all(s@.take(0)) =~= before);
    while i < chars.len()
        invariant
            0 <= i <= chars@.len(),
            chars@ == s@,
            out@ == before + escape_all(s@.take(i as int)),
        decreases chars@.len() - i,
    {
        let c: char = chars[i];
        let ghost so_far = out@;
        if c == '"' {
            out.push('\\');
            out.push('"');
        } else if c == '\\' {
            out.push('\\');
            out.push('\\');
        } else if c == '\n' {
            out.push('\\');
            out.push('n');
        } else if c == '\r' {
            out.push('\\');
            out.push('r');
        } else if c == '\t' {
            out.push('\\');
            out.push('t');
        } else if c == '\u{08}' {
            out.push('\\');
            out.push('b');
        } else if c == '\u{0c}' {
            out.push('\\');
            out.push('f');
        } else if (c as u32) < 0x20 {
            let code: u32 = c as u32;
            out.push('\\');
            out.push('u');
            out.push('0');
            out.push('0');
            out.push(hex_char((code / 16) as u8));
            out.push(hex_char((code % 16) as u8));
        } else {
            out.push(c);
        }
        proof {
            assert(out@ =~= so_far + escape(c));
            assert(s@.take(i + 1).drop_last() =~= s@.take(i as int));
            assert(out@ =~= before + escape_all(s@.take(i + 1)));
        }
        i = i + 1;
    }
    assert(s@.take(i as int) =~= s@);
}

/// What a reading step gives: a value with the position behind it, or an error text.
pub type Read<T> = Result<(T, int), Seq<char>>;

/// The byte `x` stands at position `p`.
pub open spec fn byte_at(b: Seq<u8>, p: int, x: u8) -> bool {
    0 <= p < b.len() && b[p] == x
}

/// White space between the parts of a value.
pub open spec fn is_space(x: u8) -> bool {
    x == 0x20 || x == 0x09 || x == 0x0a || x == 0x0d
}

/// The first position from `p` on that holds no white space.
pub open spec fn skip(b: Seq<u8>, p: int) -> int
    decreases b.len() - p,
{
    if 0 <= p < b.len() && is_space(b[p]) {
        skip(b, p + 1)
    } else {
        p
    }
}

pub proof fn lemma_skip_moves_on(b: Seq<u8>, p: int)
    ensures
        p <= skip(b, p),
        p <= b.len() ==> skip(b, p) <= b.len(),
    decreases b.len() - p,
{
    if 0 <= p < b.len() && is_space(b[p]) {
        lemma_skip_moves_on(b, p + 1);
    }
}

/// The complaint that `c` is missing at position `p`.
pub open spec fn missing(c: char, p: int) -> Seq<char> {
    "expected "@ + seq![c] + " at "@ + text::dec(p as nat)
}

/// The value of a hexadecimal digit.
pub open spec fn hex_value(x: u8) -> Option<u32> {
    if 0x30 <= x <= 0x39 {
        Some((x - 0x30) as u32)
    } else if 0x61 <= x <= 0x66 {
        Some((x - 0x57) as u32)
    } else if 0x41 <= x <= 0x46 {
        Some((x - 0x37) as u32)
    } else {
        None
    }
}

/// The number that the bytes from `p` to `e` denote in hexadecimal.
pub open spec fn hex_number(b: Seq<u8>, p: int, e: int) -> Option<int>
    decreases e - p,
{
    if p >= e {
        Some(0)
    } else {
        match (hex_number(b, p, e - 1), hex_value(b[e - 1])) {
            (Some(high), Some(low)) => Some(high * 16 + low),
            _ => None,
        }
    }
}

/// Four bytes from `p` on as a hexadecimal number; a `+` may take the place of the first digit.
pub open spec fn four_digits(b: Seq<u8>, p: int) -> Option<int> {
    if b[p] == 0x2b {
        hex_number(b, p + 1, p + 4)
    } else {
        hex_number(b, p, p + 4)
    }
}

/// The character of a `\u` escape whose digits start at `p`.
pub open spec fn unicode_escape(b: Seq<u8>, p: int) -> Read<char> {
    if p + 4 > b.len() {
        Err("bad unicode escape"@)
    } else {
        match four_digits(b, p) {
            None => Err("bad unicode hex"@),
            Some(code) => if 0xd800 <= code <= 0xdbff {
                if p + 10 > b.len() || b[p + 4] != 0x5c || b[p + 5] != 0x75 {
                    Err("expected low surrogate"@)
                } else {
                    match four_digits(b, p + 6) {
                        None => Err("bad surrogate hex"@),
                        Some(low) => if 0xdc00 <= low <= 0xdfff {
                            Ok(
                                (
                                    (0x10000 + (code - 0xd800) * 0x400 + (low - 0xdc00)) as char,
                                    p + 10,
                                ),
                            )
                        } else {
                            Err("bad low surrogate"@)
                        },
                    }
                }
            } else if 0xdc00 <= code <= 0xdfff {
                Err("invalid codepoint"@)
            } else {
                Ok((code as char, p + 4))
            },
        }
    }
}

/// The character that a one-letter escape stands for.
pub open spec fn short_escape(x: u8) -> Option<char> {
    if x == 0x22 {
        Some('"')
    } else if x == 0x5c {
        Some('\\')
    } else if x == 0x2f {
        Some('/')
    } else if x == 0x6e {
        Some('\n')
    } else if x == 0x72 {
        Some('\r')
    } else if x == 0x74 {
        Some('\t')
    } else if x == 0x62 {
        Some('\u{08}')
    } else if x == 0x66 {
        Some('\u{0c}')
    } else {
        None
    }
}

/// One character of a string, plain or escaped.
pub open spec fn string_char(b: Seq<u8>, p: int) -> Read<char> {
    if b[p] != 0x5c {
        match text::char_at(b, p) {
            Some(c) => Ok((c, p + text::width(c))),
            None => Err("bad utf8"@),
        }
    } else if p + 1 >= b.len() {
        Err("bad escape"@)
    } else if b[p + 1] == 0x75 {
        unicode_escape(b, p + 2)
    } else {
        match short_escape(b[p + 1]) {
            Some(c) => Ok((c, p + 2)),
            None => Err("bad escape"@),
        }
    }
}

/// The rest of a string whose first characters are `done`.
pub open spec fn string_rest(b: Seq<u8>, p: int, done: Seq<char>) -> Read<Seq<char>>
    decreases b.len() - p,
{
    if !(0 <= p < b.len()) {
        Err("unterminated string"@)
    } else if b[p] == 0x22 {
        Ok((done, p + 1))
    } else {
        match string_char(b, p) {
            Err(e) => Err(e),
            Ok((c, q)) => if p < q <= b.len() {
                string_rest(b, q, done.push(c))
            } else {
                Err(seq![])
            },
        }
    }
}

/// A string whose opening quotation mark is due at `p`.
pub open spec fn string_at(b: Seq<u8>, p: int) -> Read<Seq<char>> {
    if byte_at(b, p, 0x22) {
        string_rest(b, p + 1, seq![])
    } else {
        Err(missing('"', p))
    }
}

/// The bytes that a number may be made of.
pub open spec fn is_number_byte(x: u8) -> bool {
    0x30 <= x <= 0x39 || x == 0x2e || x == 0x65 || x == 0x45 || x == 0x2b || x == 0x2d
}

/// The first position from `p` on that holds no byte of a number.
pub open spec fn number_end(b: Seq<u8>, p: int) -> int
    decreases b.len() - p,
{
    if 0 <= p < b.len() && is_number_byte(b[p]) {
        number_end(b, p + 1)
    } else {
        p
    }
}

/// The first position from `p` on that holds no decimal digit.
pub open spec fn digits_end(b: Seq<u8>, p: int) -> int
    decreases b.len() - p,
{
    if 0 <= p < b.len() && 0x30 <= b[p] <= 0x39 {
        digits_end(b, p + 1)
    } else {
        p
    }
}

/// A decimal number: digits with at most one point among them, then an exponent if there is one.
pub open spec fn is_number(b: Seq<u8>) -> bool {
    let start = if byte_at(b, 0, 0x2d) {
        1
    } else {
        0
    };
    let whole = digits_end(b, start);
    let mantissa = if byte_at(b, whole, 0x2e) {
        digits_end(b, whole + 1)
    } else {
        whole
    };
    let digits = (whole - start) + if byte_at(b, whole, 0x2e) {
        mantissa - whole - 1
    } else {
        0
    };
    digits > 0 && (mantissa == b.len() || is_exponent(b, mantissa))
}

/// An exponent that takes up the bytes from `p` on.
pub open spec fn is_exponent(b: Seq<u8>, p: int) -> bool {
    let sign = p + 1;
    let start = if byte_at(b, sign, 0x2b) || byte_at(b, sign, 0x2d) {
        sign + 1
    } else {
        sign
    };
    (byte_at(b, p, 0x65) || byte_at(b, p, 0x45)) && start < b.len() && digits_end(b, start)
        == b.len()
}

/// A number that starts at `p`.
pub open spec fn number_at(b: Seq<u8>, p: int) -> Read<Json> {
    let e = number_end(b, p);
    let notation = b.subrange(p, e);
    if is_number(notation) {
        Ok((Json::Num(text::ascii(notation)), e))
    } else {
        Err("bad number: "@ + text::ascii(notation))
    }
}

/// The word `w` stands at position `p`.
pub open spec fn word_at(b: Seq<u8>, p: int, w: Seq<u8>) -> bool {
    p + w.len() <= b.len() && b.subrange(p, p + w.len()) == w
}

/// `true`, `false` or `null`, one of which is due at `p`.
pub open spec fn word_value(b: Seq<u8>, p: int) -> Read<Json> {
    if b[p] == 0x6e {
        if word_at(b, p, seq![0x6eu8, 0x75, 0x6c, 0x6c]) {
            Ok((Json::Null, p + 4))
        } else {
            Err("bad literal"@)
        }
    } else if word_at(b, p, seq![0x74u8, 0x72, 0x75, 0x65]) {
        Ok((Json::Bool(true), p + 4))
    } else if word_at(b, p, seq![0x66u8, 0x61, 0x6c, 0x73, 0x65]) {
        Ok((Json::Bool(false), p + 5))
    } else {
        Err("bad literal"@)
    }
}

/// The value that stands from `p` on, behind white space.
pub open spec fn value_at(b: Seq<u8>, p: int) -> Read<Json>
    decreases b.len() - p, 2int,
{
    let q = skip(b, p);
    proof {
        lemma_skip_moves_on(b, p);
    }
    if !(0 <= q < b.len()) {
        Err("unexpected end"@)
    } else if b[q] == 0x7b {
        object_at(b, q)
    } else if b[q] == 0x5b {
        array_at(b, q)
    } else if b[q] == 0x22 {
        match string_at(b, q) {
            Ok((s, r)) => Ok((Json::Str(s), r)),
            Err(e) => Err(e),
        }
    } else if b[q] == 0x74 || b[q] == 0x66 || b[q] == 0x6e {
        word_value(b, q)
    } else if b[q] == 0x2d || 0x30 <= b[q] <= 0x39 {
        number_at(b, q)
    } else {
        Err("unexpected byte "@ + seq![b[q] as char] + " at "@ + text::dec(q as nat))
    }
}

/// The object whose `{` stands at `p`.
pub open spec fn object_at(b: Seq<u8>, p: int) -> Read<Json>
    decreases b.len() - p, 1int,
{
    let q = skip(b, p + 1);
    proof {
        lemma_skip_moves_on(b, p + 1);
    }
    if byte_at(b, q, 0x7d) {
        Ok((Json::Obj(seq![]), q + 1))
    } else if p < q <= b.len() {
        match members(b, q, seq![]) {
            Ok((pairs, r)) => Ok((Json::Obj(pairs), r)),
            Err(e) => Err(e),
        }
    } else {
        Err(seq![])
    }
}

/// The members of an object from `p` on; those before are `done`.
pub open spec fn members(b: Seq<u8>, p: int, done: Seq<(Seq<char>, Json)>) -> Read<
    Seq<(Seq<char>, Json)>,
>
    decreases b.len() - p, 0int,
{
    match string_at(b, skip(b, p)) {
        Err(e) => Err(e),
        Ok((key, k)) => if key_place(done, key) is Some {
            Err("duplicate key: "@ + key)
        } else {
            let colon = skip(b, k);
            if !byte_at(b, colon, 0x3a) {
                Err(missing(':', colon))
            } else if !(p <= colon) {
                Err(seq![])
            } else {
                match value_at(b, colon + 1) {
                    Err(e) => Err(e),
                    Ok((v, r)) => {
                        let next = skip(b, r);
                        if byte_at(b, next, 0x2c) && p < next {
                            members(b, next + 1, done.push((key, v)))
                        } else if byte_at(b, next, 0x7d) {
                            Ok((done.push((key, v)), next + 1))
                        } else {
                            Err("expected , or } at "@ + text::dec(next as nat))
                        }
                    },
                }
            }
        },
    }
}

/// The array whose `[` stands at `p`.
pub open spec fn array_at(b: Seq<u8>, p: int) -> Read<Json>
    decreases b.len() - p, 1int,
{
    let q = skip(b, p + 1);
    proof {
        lemma_skip_moves_on(b, p + 1);
    }
    if byte_at(b, q, 0x5d) {
        Ok((Json::Arr(seq![]), q + 1))
    } else if p < q <= b.len() {
        match elements(b, q, seq![]) {
            Ok((items, r)) => Ok((Json::Arr(items), r)),
            Err(e) => Err(e),
        }
    } else {
        Err(seq![])
    }
}

/// The items of an array from `p` on; those before are `done`.
pub open spec fn elements(b: Seq<u8>, p: int, done: Seq<Json>) -> Read<Seq<Json>>
    decreases b.len() - p, 3int,
{
    match value_at(b, p) {
        Err(e) => Err(e),
        Ok((v, r)) => {
            let next = skip(b, r);
            if byte_at(b, next, 0x2c) && p < next {
                elements(b, next + 1, done.push(v))
            } else if byte_at(b, next, 0x5d) {
                Ok((done.push(v), next + 1))
            } else {
                Err("expected , or ] at "@ + text::dec(next as nat))
            }
        },
    }
}

/// The value of a whole text.
pub open spec fn document(b: Seq<u8>) -> Result<Json, Seq<char>> {
    match value_at(b, skip(b, 0)) {
        Err(e) => Err(e),
        Ok((v, r)) => {
            let end = skip(b, r);
            if end == b.len() {
                Ok(v)
            } else {
                Err("unexpected trailing data at "@ + text::dec(end as nat))
            }
        },
    }
}

/// `r` is what `spec` says, and `pos` the position behind it.
spec fn reads(r: Result<Value, String>, from: int, pos: int, b: Seq<u8>, spec: Read<Json>) -> bool {
    match spec {
        Ok((v, q)) => r is Ok && r->Ok_0.json() == v && pos == q && from < q <= b.len(),
        Err(e) => r is Err && r->Err_0@ == e,
    }
}

fn message_at(head: &str, pos: usize) -> (r: String)
    ensures
        r@ == head@ + text::dec(pos as nat),
{
    let mut message: String = head.to_string();
    text::push_decimal(&mut message, pos as u64);
    message
}

fn skip_ws(b: &[u8], pos: &mut usize)
    requires
        *old(pos) <= b@.len(),
    ensures
        *final(pos) == skip(b@, *old(pos) as int),
        *old(pos) <= *final(pos) <= b@.len(),
{
    let ghost start = *pos as int;
    while *pos < b.len() && (b[*pos] == 0x20 || b[*pos] == 0x09 || b[*pos] == 0x0a || b[*pos]
        == 0x0d)
        invariant
            start <= *pos <= b@.len(),
            skip(b@, start) == skip(b@, *pos as int),
        decreases b@.len() - *pos,
    {
        *pos = *pos + 1;
    }
}

fn expect(b: &[u8], pos: &mut usize, c: u8) -> (r: Result<(), String>)
    requires
        *old(pos) <= b@.len(),
        c < 128,
    ensures
        if byte_at(b@, *old(pos) as int, c) {
            r is Ok && *final(pos) == *old(pos) + 1
        } else {
            r is Err && r->Err_0@ == missing(c as char, *old(pos) as int)
        },
{
    if *pos >= b.len() || b[*pos] != c {
        let mut message: String = "expected ".to_string();
        message.push(c as char);
        message.append(" at ");
        text::push_decimal(&mut message, *pos as u64);
        assert(message@ =~= missing(c as char, *old(pos) as int));
        return Err(message);
    }
    *pos = *pos + 1;
    Ok(())
}

fn hex_value_of(x: u8) -> (r: Option<u32>)
    ensures
        r == hex_value(x),
{
    if 0x30 <= x && x <= 0x39 {
        Some((x - 0x30) as u32)
    } else if 0x61 <= x && x <= 0x66 {
        Some((x - 0x57) as u32)
    } else if 0x41 <= x && x <= 0x46 {
        Some((x - 0x37) as u32)
    } else {
        None
    }
}

/// Four bytes as a hexadecimal number.
fn read_four_digits(b: &[u8], pos: usize) -> (r: Option<u32>)
    requires
        pos + 4 <= b@.len(),
    ensures
        match four_digits(b@, pos as int) {
            Some(v) => r == Some(v as u32) && 0 <= v < 0x10000,
            None => r is None,
        },
{
    let len: usize = b.len();
    let end: usize = pos + 4;
    let start: usize = if b[pos] == 0x2b {
        pos + 1
    } else {
        pos
    };
    let mut value: u32 = 0;
    let mut i: usize = start;
    while i < end
        invariant
            end == pos + 4,
            end <= len,
            len == b@.len(),
            start <= i <= end,
            start == pos || start == pos + 1,
            four_digits(b@, pos as int) == hex_number(b@, start as int, pos + 4),
            hex_number(b@, start as int, i as int) == Some(value as int),
            i - start == 0 ==> value == 0,
            i - start == 1 ==> value < 0x10,
            i - start == 2 ==> value < 0x100,
            i - start == 3 ==> value < 0x1000,
            i - start == 4 ==> value < 0x10000,
        decreases end - i,
    {
        match hex_value_of(b[i]) {
            Some(d) => {
                value = value * 16 + d;
                i = i + 1;
            },
            None => {
                proof {
                    lemma_hex_number_fails(b@, start as int, i + 1, pos + 4);
                }
                return None;
            },
        }
    }
    Some(value)
}

proof fn lemma_hex_number_fails(b: Seq<u8>, p: int, e: int, end: int)
    requires
        p < e <= end,
        hex_number(b, p, e) is None,
    ensures
        hex_number(b, p, end) is None,
    decreases end - e,
{
    if e < end {
        lemma_hex_number_fails(b, p, e, end - 1);
    }
}

/// The character of a `\u` escape whose digits start at `pos`.
fn parse_unicode_escape(b: &[u8], pos: &mut usize) -> (r: Result<char, String>)
    requires
        *old(pos) <= b@.len(),
    ensures
        match unicode_escape(b@, *old(pos) as int) {
            Ok((c, q)) => r == Ok::<char, String>(c) && *final(pos) == q && *old(pos) < q
                <= b@.len(),
            Err(e) => r is Err && r->Err_0@ == e,
        },
{
    let start: usize = *pos;
    if b.len() - start < 4 {
        return Err("bad unicode escape".to_string());
    }
    let code: u32 = match read_four_digits(b, start) {
        Some(v) => v,
        None => {
            return Err("bad unicode hex".to_string());
        },
    };
    if 0xd800 <= code && code <= 0xdbff {
        if b.len() - start < 10 || b[start + 4] != 0x5c || b[start + 5] != 0x75 {
            return Err("expected low surrogate".to_string());
        }
        let low: u32 = match read_four_digits(b, start + 6) {
            Some(v) => v,
            None => {
                return Err("bad surrogate hex".to_string());
            },
        };
        if low < 0xdc00 || low > 0xdfff {
            return Err("bad low surrogate".to_string());
        }
        *pos = start + 10;
        match char::from_u32(0x10000 + (code - 0xd800) * 0x400 + (low - 0xdc00)) {
            Some(c) => Ok(c),
            None => Err("invalid codepoint".to_string()),
        }
    } else {
        *pos = start + 4;
        match char::from_u32(code) {
            Some(c) => Ok(c),
            None => Err("invalid codepoint".to_string()),
        }
    }
}

/// One character of a string, plain or escaped.
fn parse_string_char(b: &[u8], pos: &mut usize) -> (r: Result<char, String>)
    requires
        *old(pos) < b@.len(),
    ensures
        match string_char(b@, *old(pos) as int) {
            Ok((c, q)) => r == Ok::<char, String>(c) && *final(pos) == q && *old(pos) < q
                <= b@.len(),
            Err(e) => r is Err && r->Err_0@ == e,
        },
{
    let start: usize = *pos;
    if b[start] != 0x5c {
        return match text::next_char(b, start) {
            Some((c, w)) => {
                proof {
                    text::lemma_char_at_width(b@, start as int);
                }
                *pos = start + w;
                Ok(c)
            },
            None => Err("bad utf8".to_string()),
        };
    }
    if start + 1 >= b.len() {
        return Err("bad escape".to_string());
    }
    let e: u8 = b[start + 1];
    *pos = start + 2;
    if e == 0x75 {
        return parse_unicode_escape(b, pos);
    }
    if e == 0x22 {
        Ok('"')
    } else if e == 0x5c {
        Ok('\\')
    } else if e == 0x2f {
        Ok('/')
    } else if e == 0x6e {
        Ok('\n')
    } else if e == 0x72 {
        Ok('\r')
    } else if e == 0x74 {
        Ok('\t')
    } else if e == 0x62 {
        Ok('\u{08}')
    } else if e == 0x66 {
        Ok('\u{0c}')
    } else {
        Err("bad escape".to_string())
    }
}

fn parse_string(b: &[u8], pos: &mut usize) -> (r: Result<String, String>)
    requires
        *old(pos) <= b@.len(),
    ensures
        match string_at(b@, *old(pos) as int) {
            Ok((s, q)) => r is Ok && r->Ok_0@ == s && *final(pos) == q && *old(pos) < q <= b@.len(),
            Err(e) => r is Err && r->Err_0@ == e,
        },
{
    match expect(b, pos, 0x22) {
        Ok(()) => {},
        Err(e) => {
            return Err(e);
        },
    }
    let ghost start = *pos as int;
    let mut s: String = String::new();
    assert(s@ =~= Seq::<char>::empty());
    while *pos < b.len()
        invariant
            *old(pos) < start <= *pos <= b@.len(),
            string_at(b@, *old(pos) as int) == string_rest(b@, *pos as int, s@),
        decreases b@.len() - *pos,
    {
        if b[*pos] == 0x22 {
            *pos = *pos + 1;
            return Ok(s);
        }
        match parse_string_char(b, pos) {
            Ok(c) => {
                s.push(c);
            },
            Err(e) => {
                return Err(e);
            },
        }
    }
    Err("unterminated string".to_string())
}

fn word_stands_at(b: &[u8], pos: usize, word: &[u8]) -> (r: bool)
    requires
        pos <= b@.len(),
    ensures
        r == word_at(b@, pos as int, word@),
{
    if b.len() - pos < word.len() {
        return false;
    }
    let part: &[u8] = vstd::slice::slice_subrange(b, pos, pos + word.len());
    text::same_bytes(part, word)
}

fn parse_bool(b: &[u8], pos: &mut usize) -> (r: Result<Value, String>)
    requires
        *old(pos) < b@.len(),
        b@[*old(pos) as int] != 0x6e,
    ensures
        reads(r, *old(pos) as int, *final(pos) as int, b@, word_value(b@, *old(pos) as int)),
{
    let len: usize = b.len();
    let yes: [u8; 4] = [0x74, 0x72, 0x75, 0x65];
    let no: [u8; 5] = [0x66, 0x61, 0x6c, 0x73, 0x65];
    assert(yes@ =~= seq![0x74u8, 0x72, 0x75, 0x65]);
    assert(no@ =~= seq![0x66u8, 0x61, 0x6c, 0x73, 0x65]);
    if word_stands_at(b, *pos, &yes) {
        *pos = *pos + 4;
        Ok(Value::Bool(true))
    } else if word_stands_at(b, *pos, &no) {
        *pos = *pos + 5;
        Ok(Value::Bool(false))
    } else {
        Err("bad literal".to_string())
    }
}

fn parse_null(b: &[u8], pos: &mut usize) -> (r: Result<Value, String>)
    requires
        *old(pos) < b@.len(),
        b@[*old(pos) as int] == 0x6e,
    ensures
        reads(r, *old(pos) as int, *final(pos) as int, b@, word_value(b@, *old(pos) as int)),
{
    let len: usize = b.len();
    let null: [u8; 4] = [0x6e, 0x75, 0x6c, 0x6c];
    assert(null@ =~= seq![0x6eu8, 0x75, 0x6c, 0x6c]);
    if word_stands_at(b, *pos, &null) {
        *pos = *pos + 4;
        Ok(Value::Null)
    } else {
        Err("bad literal".to_string())
    }
}

fn digits_end_of(b: &[u8], from: usize) -> (r: usize)
    requires
        from <= b@.len(),
    ensures
        r == digits_end(b@, from as int),
        from <= r <= b@.len(),
{
    let mut i: usize = from;
    while i < b.len() && 0x30 <= b[i] && b[i] <= 0x39
        invariant
            from <= i <= b@.len(),
            digits_end(b@, from as int) == digits_end(b@, i as int),
        decreases b@.len() - i,
    {
        i = i + 1;
    }
    i
}

/// Whether the bytes are a decimal number.
fn number_is_well_formed(b: &[u8]) -> (r: bool)
    ensures
        r == is_number(b@),
{
    let start: usize = if b.len() > 0 && b[0] == 0x2d {
        1
    } else {
        0
    };
    let whole: usize = digits_end_of(b, start);
    let point: bool = whole < b.len() && b[whole] == 0x2e;
    let mantissa: usize = if point {
        digits_end_of(b, whole + 1)
    } else {
        whole
    };
    let no_digits: bool = whole == start && (!point || mantissa == whole + 1);
    if no_digits {
        return false;
    }
    if mantissa == b.len() {
        return true;
    }
    if b[mantissa] != 0x65 && b[mantissa] != 0x45 {
        return false;
    }
    let sign: usize = mantissa + 1;
    let exponent: usize = if sign < b.len() && (b[sign] == 0x2b || b[sign] == 0x2d) {
        sign + 1
    } else {
        sign
    };
    exponent < b.len() && digits_end_of(b, exponent) == b.len()
}

fn parse_number(b: &[u8], pos: &mut usize) -> (r: Result<Value, String>)
    requires
        *old(pos) < b@.len(),
        is_number_byte(b@[*old(pos) as int]),
    ensures
        reads(r, *old(pos) as int, *final(pos) as int, b@, number_at(b@, *old(pos) as int)),
{
    let start: usize = *pos;
    while *pos < b.len() && ((0x30 <= b[*pos] && b[*pos] <= 0x39) || b[*pos] == 0x2e || b[*pos]
        == 0x65 || b[*pos] == 0x45 || b[*pos] == 0x2b || b[*pos] == 0x2d)
        invariant
            start <= *pos <= b@.len(),
            start < b@.len(),
            is_number_byte(b@[start as int]),
            number_end(b@, start as int) == number_end(b@, *pos as int),
        decreases b@.len() - *pos,
    {
        *pos = *pos + 1;
    }
    let notation: &[u8] = vstd::slice::slice_subrange(b, start, *pos);
    let digits: String = text::ascii_string(notation);
    if number_is_well_formed(notation) {
        Ok(Value::Num(digits))
    } else {
        let mut message: String = "bad number: ".to_string();
        message.append(digits.as_str());
        Err(message)
    }
}

fn parse_value(b: &[u8], pos: &mut usize) -> (r: Result<Value, String>)
    requires
        *old(pos) <= b@.len(),
    ensures
        reads(r, *old(pos) as int, *final(pos) as int, b@, value_at(b@, *old(pos) as int)),
    decreases b@.len() - *old(pos), 2int,
{
    skip_ws(b, pos);
    if *pos >= b.len() {
        return Err("unexpected end".to_string());
    }
    let c: u8 = b[*pos];
    if c == 0x7b {
        parse_object(b, pos)
    } else if c == 0x5b {
        parse_array(b, pos)
    } else if c == 0x22 {
        match parse_string(b, pos) {
            Ok(s) => Ok(Value::Str(s)),
            Err(e) => Err(e),
        }
    } else if c == 0x74 || c == 0x66 {
        parse_bool(b, pos)
    } else if c == 0x6e {
        parse_null(b, pos)
    } else if c == 0x2d || (0x30 <= c && c <= 0x39) {
        parse_number(b, pos)
    } else {
        let mut message: String = "unexpected byte ".to_string();
        message.push(c as char);
        message.append(" at ");
        text::push_decimal(&mut message, *pos as u64);
        assert(message@ =~= "unexpected byte "@ + seq![c as char] + " at "@ + text::dec(
            *pos as nat,
        ));
        Err(message)
    }
}

/// Whether one of the pairs has the key.
fn has_key(pairs: &Vec<(String, Value)>, key: &str) -> (r: bool)
    ensures
        r == (key_place(pairs_of(pairs@), key@) is Some),
{
    let ghost all = pairs_of(pairs@);
    let mut i: usize = 0;
    while i < pairs.len()
        invariant
            0 <= i <= pairs@.len(),
            all == pairs_of(pairs@),
            key_place(all.take(i as int), key@) is None,
        decreases pairs@.len() - i,
    {
        proof {
            assert(all.take(i + 1).drop_last() =~= all.take(i as int));
        }
        if text::same_text(pairs[i].0.as_str(), key) {
            proof {
                lemma_key_place_extends(all, key@, i + 1);
            }
            return true;
        }
        i = i + 1;
    }
    assert(all.take(i as int) =~= all);
    false
}

fn parse_object(b: &[u8], pos: &mut usize) -> (r: Result<Value, String>)
    requires
        byte_at(b@, *old(pos) as int, 0x7b),
    ensures
        reads(r, *old(pos) as int, *final(pos) as int, b@, object_at(b@, *old(pos) as int)),
    decreases b@.len() - *old(pos), 1int,
{
    let ghost start = *pos as int;
    let len: usize = b.len();
    *pos = *pos + 1;
    let mut pairs: Vec<(String, Value)> = Vec::new();
    assert(pairs_of(pairs@) =~= Seq::empty());
    skip_ws(b, pos);
    if *pos < b.len() && b[*pos] == 0x7d {
        *pos = *pos + 1;
        proof {
            lemma_obj_json(pairs);
        }
        return Ok(Value::Obj(pairs));
    }
    let ghost first = *pos as int;
    loop
        invariant
            start == *old(pos),
            start < first <= *pos <= b@.len(),
            object_at(b@, start) == match members(b@, first, seq![]) {
                Ok((all, r)) => Ok::<(Json, int), Seq<char>>((Json::Obj(all), r)),
                Err(e) => Err(e),
            },
            members(b@, first, seq![]) == members(b@, *pos as int, pairs_of(pairs@)),
        decreases b@.len() - *pos,
    {
        let ghost here = *pos as int;
        let ghost done = pairs_of(pairs@);
        skip_ws(b, pos);
        let key: String = match parse_string(b, pos) {
            Ok(k) => k,
            Err(e) => {
                return Err(e);
            },
        };
        if has_key(&pairs, key.as_str()) {
            let mut message: String = "duplicate key: ".to_string();
            message.append(key.as_str());
            return Err(message);
        }
        skip_ws(b, pos);
        match expect(b, pos, 0x3a) {
            Ok(()) => {},
            Err(e) => {
                return Err(e);
            },
        }
        let value: Value = match parse_value(b, pos) {
            Ok(v) => v,
            Err(e) => {
                return Err(e);
            },
        };
        let ghost member = (key@, value.json());
        pairs.push((key, value));
        proof {
            assert(pairs_of(pairs@) =~= done.push(member));
        }
        skip_ws(b, pos);
        if *pos < b.len() && b[*pos] == 0x2c {
            *pos = *pos + 1;
        } else if *pos < b.len() && b[*pos] == 0x7d {
            *pos = *pos + 1;
            proof {
                lemma_obj_json(pairs);
            }
            return Ok(Value::Obj(pairs));
        } else {
            return Err(message_at("expected , or } at ", *pos));
        }
    }
}

fn parse_array(b: &[u8], pos: &mut usize) -> (r: Result<Value, String>)
    requires
        byte_at(b@, *old(pos) as int, 0x5b),
    ensures
        reads(r, *old(pos) as int, *final(pos) as int, b@, array_at(b@, *old(pos) as int)),
    decreases b@.len() - *old(pos), 1int,
{
    let ghost start = *pos as int;
    let len: usize = b.len();
    *pos = *pos + 1;
    let mut items: Vec<Value> = Vec::new();
    assert(items_of(items@) =~= Seq::empty());
    skip_ws(b, pos);
    if *pos < b.len() && b[*pos] == 0x5d {
        *pos = *pos + 1;
        proof {
            lemma_arr_json(items);
        }
        return Ok(Value::Arr(items));
    }
    let ghost first = *pos as int;
    loop
        invariant
            start == *old(pos),
            start < first <= *pos <= b@.len(),
            array_at(b@, start) == match elements(b@, first, seq![]) {
                Ok((all, r)) => Ok::<(Json, int), Seq<char>>((Json::Arr(all), r)),
                Err(e) => Err(e),
            },
            elements(b@, first, seq![]) == elements(b@, *pos as int, items_of(items@)),
        decreases b@.len() - *pos,
    {
        let ghost done = items_of(items@);
        let value: Value = match parse_value(b, pos) {
            Ok(v) => v,
            Err(e) => {
                return Err(e);
            },
        };
        let ghost item = value.json();
        items.push(value);
        proof {
            assert(items_of(items@) =~= done.push(item));
        }
        skip_ws(b, pos);
        if *pos < b.len() && b[*pos] == 0x2c {
            *pos = *pos + 1;
        } else if *pos < b.len() && b[*pos] == 0x5d {
            *pos = *pos + 1;
            proof {
                lemma_arr_json(items);
            }
            return Ok(Value::Arr(items));
        } else {
            return Err(message_at("expected , or ] at ", *pos));
        }
    }
}

/// Parses a JSON text.
pub fn parse(input: &str) -> (r: Result<Value, String>)
    ensures
        match document(encode_utf8(input@)) {
            Ok(v) => r is Ok && r->Ok_0.json() == v,
            Err(e) => r is Err && r->Err_0@ == e,
        },
{
    let b: &[u8] = input.as_bytes();
    let mut pos: usize = 0;
    skip_ws(b, &mut pos);
    let value: Value = match parse_value(b, &mut pos) {
        Ok(v) => v,
        Err(e) => {
            return Err(e);
        },
    };
    skip_ws(b, &mut pos);
    if pos != b.len() {
        return Err(message_at("unexpected trailing data at ", pos));
    }
    Ok(value)
}

}
