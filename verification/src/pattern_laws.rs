//! What patterns mean as texts: a grammar of patterns, how each of them is written, and which
//! pieces of a text it stands for. The laws say that the engine reads what is written and finds
//! what is meant.

use crate::engine;
use crate::engine::{CharTest, Outcome, Tree};
use crate::engine_laws;
use crate::matching;
use crate::text;
use vstd::prelude::*;
use vstd::utf8::*;

verus! {

broadcast use vstd::seq::group_seq_axioms;

/// How often something may occur.
pub enum Amount {
    Star,
    Plus,
    Maybe,
    Exactly(nat),
    AtLeast(nat),
    Between(nat, nat),
}

/// A character of a set, as it is or behind a backslash.
pub struct SetChar {
    pub c: char,
    pub escaped: bool,
}

/// A pattern.
pub enum Pat {
    /// The character itself.
    Plain(char),
    /// `.`
    Dot,
    /// `^`
    Start,
    /// `$`
    End,
    /// A backslash and the character.
    Escape(char),
    /// `[..]` or `[^..]`: single characters and ranges, and a hyphen at the end.
    OneOf { negated: bool, parts: Seq<(SetChar, Option<SetChar>)>, dash: bool },
    /// `(..|..)`: each alternative is a sequence of patterns.
    Group(Seq<Seq<Pat>>),
    /// A pattern with an amount, and with `?` behind it where as little as possible is asked for.
    Times { of: Box<Pat>, amount: Amount, lazy: bool },
}

/// How an amount is written.
pub open spec fn write_amount(a: Amount) -> Seq<char> {
    match a {
        Amount::Star => seq!['*'],
        Amount::Plus => seq!['+'],
        Amount::Maybe => seq!['?'],
        Amount::Exactly(n) => seq!['{'] + (text::dec(n) + seq!['}']),
        Amount::AtLeast(n) => seq!['{'] + (text::dec(n) + seq![',', '}']),
        Amount::Between(n, m) => seq!['{'] + (text::dec(n) + (seq![','] + (text::dec(m)
            + seq!['}']))),
    }
}

/// How a character of a set is written.
pub open spec fn write_set_char(c: SetChar) -> Seq<char> {
    if c.escaped {
        seq!['\\', c.c]
    } else {
        seq![c.c]
    }
}

/// How the parts of a set from the `k`-th on are written.
pub open spec fn write_parts(parts: Seq<(SetChar, Option<SetChar>)>, k: int) -> Seq<char>
    decreases parts.len() - k,
{
    if 0 <= k < parts.len() {
        (match parts[k].1 {
            Some(hi) => write_set_char(parts[k].0) + (seq!['-'] + write_set_char(hi)),
            None => write_set_char(parts[k].0),
        }) + write_parts(parts, k + 1)
    } else {
        seq![]
    }
}

/// How a pattern is written.
pub open spec fn write(p: Pat) -> Seq<char>
    decreases p, 0int, 0int,
{
    match p {
        Pat::Plain(c) => seq![c],
        Pat::Dot => seq!['.'],
        Pat::Start => seq!['^'],
        Pat::End => seq!['$'],
        Pat::Escape(c) => seq!['\\', c],
        Pat::OneOf { negated, parts, dash } => (if negated {
            seq!['[', '^']
        } else {
            seq!['[']
        }) + (write_parts(parts, 0) + if dash {
            seq!['-', ']']
        } else {
            seq![']']
        }),
        Pat::Group(alts) => seq!['('] + (write_alts(alts, 0) + seq![')']),
        Pat::Times { of, amount, lazy } => write(*of) + (write_amount(amount) + if lazy {
            seq!['?']
        } else {
            seq![]
        }),
    }
}

/// How the patterns of a sequence from the `k`-th on are written.
pub open spec fn write_seq(ps: Seq<Pat>, k: int) -> Seq<char>
    decreases ps, 0int, ps.len() - k,
{
    if 0 <= k < ps.len() {
        write(ps[k]) + write_seq(ps, k + 1)
    } else {
        seq![]
    }
}

/// How alternatives from the `k`-th on are written; all but the first have a bar before them.
pub open spec fn write_alts(alts: Seq<Seq<Pat>>, k: int) -> Seq<char>
    decreases alts, 0int, alts.len() - k,
{
    if 0 <= k < alts.len() {
        (if k > 0 {
            seq!['|']
        } else {
            seq![]
        }) + (write_seq(alts[k], 0) + write_alts(alts, k + 1))
    } else {
        seq![]
    }
}

/// The character means something else than itself where it stands alone.
pub open spec fn is_special(c: char) -> bool {
    c == '(' || c == ')' || c == '[' || c == '.' || c == '^' || c == '$' || c == '\\' || c == '*'
        || c == '+' || c == '?' || c == '|' || c == '{'
}

/// The amount has bounds in order, of at most 64.
pub open spec fn is_amount(a: Amount) -> bool {
    match a {
        Amount::Exactly(n) => n <= 64,
        Amount::AtLeast(n) => n <= 64,
        Amount::Between(n, m) => n <= m <= 64,
        _ => true,
    }
}

/// A set can hold the character in this form.
pub open spec fn is_set_char(c: SetChar) -> bool {
    if c.escaped {
        c.c != 'd' && c.c != 'D' && c.c != 'w' && c.c != 'W' && c.c != 's' && c.c != 'S'
    } else {
        c.c != ']' && c.c != '\\' && c.c != '-' && c.c != '^'
    }
}

/// The character that a set holds.
pub open spec fn set_char(c: SetChar) -> char {
    if c.escaped && c.c == 'n' {
        '\n'
    } else if c.escaped && c.c == 'r' {
        '\r'
    } else if c.escaped && c.c == 't' {
        '\t'
    } else {
        c.c
    }
}

/// A set can have the part: both ends can stand in it, and they are in order.
pub open spec fn is_set_part(part: (SetChar, Option<SetChar>)) -> bool {
    &&& is_set_char(part.0)
    &&& part.1 matches Some(hi) ==> is_set_char(hi) && set_char(part.0) <= set_char(hi)
}

/// The pattern can be written down: special characters stand behind a backslash, sets and groups
/// are not empty, and no amount stands on an amount.
pub open spec fn is_writable(p: Pat) -> bool
    decreases p, 0int, 0int,
{
    match p {
        Pat::Plain(c) => !is_special(c),
        Pat::OneOf { negated, parts, dash } => {
            &&& forall|k: int| 0 <= k < parts.len() ==> is_set_part(#[trigger] parts[k])
            &&& parts.len() > 0 || dash
        },
        Pat::Group(alts) => alts.len() > 0 && are_writable(alts),
        Pat::Times { of, amount, .. } => is_amount(amount) && !(*of is Times) && is_writable(*of),
        _ => true,
    }
}

/// All patterns of a sequence can be written down.
pub open spec fn is_writable_seq(ps: Seq<Pat>) -> bool
    decreases ps, 0int, 0int,
{
    forall|k: int| 0 <= k < ps.len() ==> is_writable(#[trigger] ps[k])
}

/// All patterns of all alternatives can be written down.
pub open spec fn are_writable(alts: Seq<Seq<Pat>>) -> bool
    decreases alts, 0int, 0int,
{
    forall|k: int| 0 <= k < alts.len() ==> is_writable_seq(#[trigger] alts[k])
}

/// The characters that an escape stands for.
pub open spec fn escape_means(e: char, c: char) -> bool {
    if e == 'd' {
        '0' <= c <= '9'
    } else if e == 'D' {
        !('0' <= c <= '9')
    } else if e == 'w' {
        'a' <= c <= 'z' || 'A' <= c <= 'Z' || '0' <= c <= '9' || c == '_'
    } else if e == 'W' {
        !('a' <= c <= 'z' || 'A' <= c <= 'Z' || '0' <= c <= '9' || c == '_')
    } else if e == 's' {
        c == ' ' || c == '\t' || c == '\n' || c == '\r'
    } else if e == 'S' {
        !(c == ' ' || c == '\t' || c == '\n' || c == '\r')
    } else if e == 'n' {
        c == '\n'
    } else if e == 'r' {
        c == '\r'
    } else if e == 't' {
        c == '\t'
    } else {
        c == e
    }
}

/// The characters that a set holds.
pub open spec fn set_means(parts: Seq<(SetChar, Option<SetChar>)>, dash: bool, c: char) -> bool {
    ||| dash && c == '-'
    ||| exists|k: int|
        0 <= k < parts.len() && set_char((#[trigger] parts[k]).0) <= c && c <= (
        match parts[k].1 {
            Some(hi) => set_char(hi),
            None => set_char(parts[k].0),
        })
}

/// The number is one that the amount allows.
pub open spec fn allows(a: Amount, n: int) -> bool {
    match a {
        Amount::Star => 0 <= n,
        Amount::Plus => 1 <= n,
        Amount::Maybe => 0 <= n <= 1,
        Amount::Exactly(m) => n == m,
        Amount::AtLeast(m) => m <= n,
        Amount::Between(m, k) => m <= n <= k,
    }
}

/// Marks a place or a number that a definition below asks for.
pub open spec fn spot(m: int) -> bool {
    true
}

/// The pattern stands for the bytes of the text from `i` to `j`.
pub open spec fn means(p: Pat, b: Seq<u8>, i: int, j: int) -> bool
    decreases p, 0int, 0int,
{
    match p {
        Pat::Start => i == 0 && j == i,
        Pat::End => i == b.len() && j == i,
        Pat::Group(alts) => means_one_of(alts, b, i, j),
        Pat::Times { of, amount, .. } => exists|n: int| #[trigger]
            spot(n) && allows(amount, n) && means_times(*of, n, b, i, j),
        _ => match text::char_at(b, i) {
            None => false,
            Some(c) => j == i + text::width(c) && match p {
                Pat::Plain(l) => c == l,
                Pat::Dot => c != '\n',
                Pat::Escape(e) => escape_means(e, c),
                Pat::OneOf { negated, parts, dash } => if negated {
                    !set_means(parts, dash, c)
                } else {
                    set_means(parts, dash, c)
                },
                _ => false,
            },
        },
    }
}

/// The pattern stands for the bytes `n` times over, one time behind the other.
pub open spec fn means_times(p: Pat, n: int, b: Seq<u8>, i: int, j: int) -> bool
    decreases p, 1int, n,
{
    if n > 0 {
        exists|m: int| #[trigger] spot(m) && means_times(p, n - 1, b, i, m) && means(p, b, m, j)
    } else {
        i == j
    }
}

/// The first `n` patterns of the sequence stand for the bytes, one behind the other.
pub open spec fn means_seq(ps: Seq<Pat>, n: int, b: Seq<u8>, i: int, j: int) -> bool
    decreases ps, 0int, n,
{
    if 0 < n <= ps.len() {
        exists|m: int| #[trigger] spot(m) && means_seq(ps, n - 1, b, i, m) && means(ps[n - 1], b, m, j)
    } else {
        i == j
    }
}

/// One of the alternatives stands for the bytes.
pub open spec fn means_one_of(alts: Seq<Seq<Pat>>, b: Seq<u8>, i: int, j: int) -> bool
    decreases alts, 0int, 0int,
{
    exists|k: int| #[trigger]
        spot(k) && 0 <= k < alts.len() && means_seq(alts[k], alts[k].len() as int, b, i, j)
}

/// The bounds of an amount.
spec fn bounds_of(a: Amount) -> (u32, Option<u32>) {
    match a {
        Amount::Star => (0, None),
        Amount::Plus => (1, None),
        Amount::Maybe => (0, Some(1)),
        Amount::Exactly(n) => (n as u32, Some(n as u32)),
        Amount::AtLeast(n) => (n as u32, None),
        Amount::Between(n, m) => (n as u32, Some(m as u32)),
    }
}

/// The ranges of the parts of a set from the `k`-th on.
spec fn ranges_of(parts: Seq<(SetChar, Option<SetChar>)>, k: int, dash: bool) -> Seq<(char, char)>
    decreases parts.len() - k,
{
    if 0 <= k < parts.len() {
        seq![
            (
                set_char(parts[k].0),
                match parts[k].1 {
                    Some(hi) => set_char(hi),
                    None => set_char(parts[k].0),
                },
            ),
        ] + ranges_of(parts, k + 1, dash)
    } else if dash {
        seq![('-', '-')]
    } else {
        seq![]
    }
}

/// The tree that a pattern is read as.
spec fn tree_of(p: Pat) -> Tree
    decreases p, 0int,
{
    match p {
        Pat::Plain(c) => Tree::Char(CharTest::Literal(c)),
        Pat::Dot => Tree::Char(CharTest::Any),
        Pat::Start => Tree::Start,
        Pat::End => Tree::End,
        Pat::Escape(c) => Tree::Char(engine::escaped(c)),
        Pat::OneOf { negated, parts, dash } => Tree::Char(
            CharTest::Class { negated, ranges: ranges_of(parts, 0, dash) },
        ),
        Pat::Group(alts) => choice_of(alts),
        Pat::Times { of, amount, lazy } => Tree::Repeat {
            atom: Box::new(tree_of(*of)),
            min: bounds_of(amount).0,
            max: bounds_of(amount).1,
            greedy: !lazy,
        },
    }
}

spec fn parts_of(ps: Seq<Pat>) -> Seq<Tree>
    decreases ps, 0int,
{
    Seq::new(
        ps.len(),
        |i: int|
            if 0 <= i < ps.len() {
                tree_of(ps[i])
            } else {
                arbitrary()
            },
    )
}

spec fn line_of(ps: Seq<Pat>) -> Tree
    decreases ps, 1int,
{
    if ps.len() == 1 {
        tree_of(ps[0])
    } else {
        Tree::Concat(parts_of(ps))
    }
}

spec fn lines_of(alts: Seq<Seq<Pat>>) -> Seq<Tree>
    decreases alts, 0int,
{
    Seq::new(
        alts.len(),
        |i: int|
            if 0 <= i < alts.len() {
                line_of(alts[i])
            } else {
                arbitrary()
            },
    )
}

spec fn choice_of(alts: Seq<Seq<Pat>>) -> Tree
    decreases alts, 1int,
{
    if alts.len() == 1 {
        line_of(alts[0])
    } else {
        Tree::Alt(lines_of(alts))
    }
}

proof fn lemma_ranges_mean(
    parts: Seq<(SetChar, Option<SetChar>)>,
    k: int,
    dash: bool,
    c: char,
)
    requires
        0 <= k <= parts.len(),
    ensures
        engine::in_ranges(ranges_of(parts, k, dash), c) <==> (dash && c == '-') || exists|i: int|
            k <= i < parts.len() && set_char((#[trigger] parts[i]).0) <= c && c <= (
            match parts[i].1 {
                Some(hi) => set_char(hi),
                None => set_char(parts[i].0),
            }),
    decreases parts.len() - k,
{
    let all = ranges_of(parts, k, dash);
    if k < parts.len() {
        lemma_ranges_mean(parts, k + 1, dash, c);
        let rest = ranges_of(parts, k + 1, dash);
        let first = all[0];
        assert(all =~= seq![first] + rest);
        assert(engine::in_ranges(all, c) <==> (first.0 <= c <= first.1) || engine::in_ranges(
            rest,
            c,
        )) by {
            if engine::in_ranges(all, c) {
                let i = choose|i: int| 0 <= i < all.len() && (#[trigger] all[i]).0 <= c <= all[i].1;
                if i > 0 {
                    assert(rest[i - 1] == all[i]);
                }
            }
            if engine::in_ranges(rest, c) {
                let i = choose|i: int|
                    0 <= i < rest.len() && (#[trigger] rest[i]).0 <= c <= rest[i].1;
                assert(all[i + 1] == rest[i]);
            }
        }
        if engine::in_ranges(all, c) && first.0 <= c <= first.1 {
            assert(set_char(parts[k].0) <= c);
        }
    } else if dash {
        assert(all =~= seq![('-', '-')]);
        if c == '-' {
            assert(all[0].0 <= c <= all[0].1);
        }
    }
}

proof fn lemma_escape_means(e: char, c: char)
    ensures
        engine::escaped(e).accepts(c) == escape_means(e, c),
{
    let digits = seq![('0', '9')];
    let word = seq![('a', 'z'), ('A', 'Z'), ('0', '9'), ('_', '_')];
    let space = seq![(' ', ' '), ('\t', '\t'), ('\n', '\n'), ('\r', '\r')];
    assert(engine::in_ranges(digits, c) <==> '0' <= c <= '9') by {
        if '0' <= c <= '9' {
            assert(digits[0].0 <= c <= digits[0].1);
        }
    }
    assert(engine::in_ranges(word, c) <==> ('a' <= c <= 'z' || 'A' <= c <= 'Z' || '0' <= c <= '9'
        || c == '_')) by {
        if 'a' <= c <= 'z' {
            assert(word[0].0 <= c <= word[0].1);
        }
        if 'A' <= c <= 'Z' {
            assert(word[1].0 <= c <= word[1].1);
        }
        if '0' <= c <= '9' {
            assert(word[2].0 <= c <= word[2].1);
        }
        if c == '_' {
            assert(word[3].0 <= c <= word[3].1);
        }
    }
    assert(engine::in_ranges(space, c) <==> (c == ' ' || c == '\t' || c == '\n' || c == '\r')) by {
        if c == ' ' {
            assert(space[0].0 <= c <= space[0].1);
        }
        if c == '\t' {
            assert(space[1].0 <= c <= space[1].1);
        }
        if c == '\n' {
            assert(space[2].0 <= c <= space[2].1);
        }
        if c == '\r' {
            assert(space[3].0 <= c <= space[3].1);
        }
    }
}

/// What the tree of a pattern matches is what the pattern means.
proof fn lemma_tree_means(p: Pat, b: Seq<u8>, i: int, j: int)
    requires
        is_writable(p),
    ensures
        matching::matches(tree_of(p), b, i, j) == means(p, b, i, j),
    decreases p, 0int, 0int,
{
    match p {
        Pat::Escape(e) => {
            match text::char_at(b, i) {
                Some(c) => {
                    lemma_escape_means(e, c);
                },
                None => {},
            }
        },
        Pat::OneOf { negated, parts, dash } => {
            match text::char_at(b, i) {
                Some(c) => {
                    lemma_ranges_mean(parts, 0, dash, c);
                },
                None => {},
            }
        },
        Pat::Group(alts) => {
            lemma_choice_means(alts, b, i, j);
        },
        Pat::Times { of, amount, lazy } => {
            let t = tree_of(p);
            assert(*t->atom == tree_of(*of));
            assert forall|n: int| matching::matches_times(tree_of(*of), n, b, i, j)
                == #[trigger] means_times(*of, n, b, i, j) by {
                lemma_times_mean(*of, n, b, i, j);
            }
            assert forall|n: int| #[trigger]
                allows(amount, n) == (t->min <= n && (t->max is Some ==> n <= t->max->0)) by {}
            if matching::matches(t, b, i, j) {
                let n = choose|n: int| #[trigger]
                    matching::pick(n) && t->min <= n && (t->max is Some ==> n <= t->max->0)
                        && matching::matches_times(*t->atom, n, b, i, j);
                assert(spot(n) && allows(amount, n) && means_times(*of, n, b, i, j));
            }
            if means(p, b, i, j) {
                let n = choose|n: int| #[trigger]
                    spot(n) && allows(amount, n) && means_times(*of, n, b, i, j);
                assert(matching::pick(n) && matching::matches_times(*t->atom, n, b, i, j));
            }
        },
        _ => {},
    }
}

proof fn lemma_times_mean(p: Pat, n: int, b: Seq<u8>, i: int, j: int)
    requires
        is_writable(p),
    ensures
        matching::matches_times(tree_of(p), n, b, i, j) == means_times(p, n, b, i, j),
    decreases p, 1int, n,
{
    let t = tree_of(p);
    if n > 0 {
        if matching::matches_times(t, n, b, i, j) {
            let m = choose|m: int| #[trigger]
                matching::pick(m) && matching::matches_times(t, n - 1, b, i, m)
                    && matching::matches(t, b, m, j);
            lemma_times_mean(p, n - 1, b, i, m);
            lemma_tree_means(p, b, m, j);
            assert(spot(m));
        }
        if means_times(p, n, b, i, j) {
            let m = choose|m: int| #[trigger]
                spot(m) && means_times(p, n - 1, b, i, m) && means(p, b, m, j);
            lemma_times_mean(p, n - 1, b, i, m);
            lemma_tree_means(p, b, m, j);
            assert(matching::pick(m));
        }
    }
}

proof fn lemma_parts_mean(ps: Seq<Pat>, n: int, b: Seq<u8>, i: int, j: int)
    requires
        0 <= n <= ps.len(),
        is_writable_seq(ps),
    ensures
        matching::matches_parts(parts_of(ps), n, b, i, j) == means_seq(ps, n, b, i, j),
    decreases ps, 0int, n,
{
    let ts = parts_of(ps);
    if n > 0 {
        let p = ps[n - 1];
        assert(is_writable(p));
        assert(ts[n - 1] == tree_of(p));
        if matching::matches_parts(ts, n, b, i, j) {
            let m = choose|m: int| #[trigger]
                matching::pick(m) && matching::matches_parts(ts, n - 1, b, i, m)
                    && matching::matches(ts[n - 1], b, m, j);
            lemma_parts_mean(ps, n - 1, b, i, m);
            lemma_tree_means(p, b, m, j);
            assert(spot(m));
        }
        if means_seq(ps, n, b, i, j) {
            let m = choose|m: int| #[trigger]
                spot(m) && means_seq(ps, n - 1, b, i, m) && means(ps[n - 1], b, m, j);
            lemma_parts_mean(ps, n - 1, b, i, m);
            lemma_tree_means(p, b, m, j);
            assert(matching::pick(m));
        }
    }
}

proof fn lemma_line_means(ps: Seq<Pat>, b: Seq<u8>, i: int, j: int)
    requires
        is_writable_seq(ps),
    ensures
        matching::matches(line_of(ps), b, i, j) == means_seq(ps, ps.len() as int, b, i, j),
    decreases ps, 1int, 0int,
{
    lemma_parts_mean(ps, ps.len() as int, b, i, j);
    if ps.len() == 1 {
        assert(is_writable(ps[0]));
        lemma_tree_means(ps[0], b, i, j);
        if means(ps[0], b, i, j) {
            assert(spot(i) && means_seq(ps, 0, b, i, i));
            assert(means_seq(ps, 1, b, i, j));
        }
        if means_seq(ps, 1, b, i, j) {
            let m = choose|m: int| #[trigger]
                spot(m) && means_seq(ps, 0, b, i, m) && means(ps[0], b, m, j);
            assert(m == i);
        }
    }
}

proof fn lemma_choice_means(alts: Seq<Seq<Pat>>, b: Seq<u8>, i: int, j: int)
    requires
        alts.len() > 0,
        are_writable(alts),
    ensures
        matching::matches(choice_of(alts), b, i, j) == means_one_of(alts, b, i, j),
    decreases alts, 1int, 0int,
{
    let ts = lines_of(alts);
    assert forall|k: int| 0 <= k < alts.len() implies matching::matches(line_of(alts[k]), b, i, j)
        == #[trigger] means_seq(alts[k], alts[k].len() as int, b, i, j) by {
        assert(is_writable_seq(alts[k]));
        lemma_line_means(alts[k], b, i, j);
    }
    if alts.len() == 1 {
        assert(spot(0));
        if means_one_of(alts, b, i, j) {
            let k = choose|k: int| #[trigger]
                spot(k) && 0 <= k < alts.len() && means_seq(alts[k], alts[k].len() as int, b, i, j);
            assert(k == 0);
        }
        assert(matching::matches(line_of(alts[0]), b, i, j) == means_seq(
            alts[0],
            alts[0].len() as int,
            b,
            i,
            j,
        ));
    } else {
        if matching::matches(Tree::Alt(ts), b, i, j) {
            let k = choose|k: int| #[trigger]
                matching::pick(k) && 0 <= k < ts.len() && matching::matches(ts[k], b, i, j);
            assert(ts[k] == line_of(alts[k]));
            assert(spot(k) && means_seq(alts[k], alts[k].len() as int, b, i, j));
        }
        if means_one_of(alts, b, i, j) {
            let k = choose|k: int| #[trigger]
                spot(k) && 0 <= k < alts.len() && means_seq(alts[k], alts[k].len() as int, b, i, j);
            assert(ts[k] == line_of(alts[k]));
            assert(matching::pick(k) && matching::matches(ts[k], b, i, j));
        }
    }
}

/// The text `w` stands in `s` from position `p` on.
spec fn stands(s: Seq<char>, p: int, w: Seq<char>) -> bool {
    &&& 0 <= p
    &&& p + w.len() <= s.len()
    &&& s.subrange(p, (p + w.len()) as int) == w
}

proof fn lemma_stands(s: Seq<char>, p: int, w: Seq<char>, k: int)
    requires
        stands(s, p, w),
        0 <= k < w.len(),
    ensures
        s[p + k] == w[k],
{
    assert(s.subrange(p, (p + w.len()) as int)[k] == w[k]);
}

proof fn lemma_stands_split(s: Seq<char>, p: int, a: Seq<char>, b: Seq<char>)
    requires
        stands(s, p, a + b),
    ensures
        stands(s, p, a),
        stands(s, (p + a.len()) as int, b),
{
    let q = (p + a.len()) as int;
    let w = s.subrange(p, (p + (a + b).len()) as int);
    assert(s.subrange(p, q) =~= w.take(a.len() as int));
    assert((a + b).take(a.len() as int) =~= a);
    assert(s.subrange(q, (q + b.len()) as int) =~= w.skip(a.len() as int));
    assert((a + b).skip(a.len() as int) =~= b);
}

/// A quantifier would start at the position.
spec fn quantifier_at(s: Seq<char>, p: int) -> bool {
    engine::at(s, p, '*') || engine::at(s, p, '+') || engine::at(s, p, '?') || engine::at(s, p, '{')
}

/// A sequence ends at the position.
spec fn sequence_ends(s: Seq<char>, p: int) -> bool {
    p == s.len() || engine::at(s, p, '|') || engine::at(s, p, ')')
}

/// A list of alternatives ends at the position.
spec fn choice_ends(s: Seq<char>, p: int) -> bool {
    p == s.len() || engine::at(s, p, ')')
}

proof fn lemma_digits_end(s: Seq<char>, p: int, d: Seq<char>)
    requires
        stands(s, p, d),
        text::all_digits(d),
        p + d.len() == s.len() || !text::is_digit(s[(p + d.len()) as int]),
    ensures
        engine::digits_end(s, p) == p + d.len(),
    decreases d.len(),
{
    if d.len() > 0 {
        lemma_stands(s, p, d, 0);
        assert(text::is_digit(d[0]));
        assert(d =~= seq![d[0]] + d.drop_first());
        lemma_stands_split(s, p, seq![d[0]], d.drop_first());
        assert(text::all_digits(d.drop_first())) by {
            assert forall|i: int| 0 <= i < d.drop_first().len() implies text::is_digit(
                #[trigger] d.drop_first()[i],
            ) by {
                assert(text::is_digit(d[i + 1]));
            }
        }
        lemma_digits_end(s, p + 1, d.drop_first());
    }
}

/// Where `{`, a number and `rest` stand, `rest` not starting with a digit, the digits are those of
/// the number.
proof fn lemma_number(s: Seq<char>, p: int, n: nat, rest: Seq<char>) -> (d: int)
    requires
        stands(s, p, text::dec(n) + rest),
        rest.len() > 0,
        !text::is_digit(rest[0]),
    ensures
        d == p + text::dec(n).len(),
        p < d,
        engine::digits_end(s, p) == d,
        text::digits_value(s.subrange(p, d)) == n,
        stands(s, d, rest),
        s[d] == rest[0],
{
    let w = text::dec(n);
    text::lemma_dec_reads_back(n);
    lemma_stands_split(s, p, w, rest);
    lemma_stands(s, (p + w.len()) as int, rest, 0);
    lemma_digits_end(s, p, w);
    (p + w.len()) as int
}

proof fn lemma_amount(a: Amount, s: Seq<char>, p: int)
    requires
        is_amount(a),
        a is Exactly || a is AtLeast || a is Between,
        stands(s, p, write_amount(a)),
    ensures
        s[p] == '{',
        engine::braces(s, p) == Ok::<(Option<(u32, Option<u32>)>, int), Seq<char>>(
            (Some(bounds_of(a)), (p + write_amount(a).len()) as int),
        ),
{
    let open = seq!['{'];
    match a {
        Amount::Exactly(n) => {
            let rest = seq!['}'];
            lemma_stands_split(s, p, open, text::dec(n) + rest);
            lemma_stands(s, p, open, 0);
            let d = lemma_number(s, p + 1, n, rest);
        },
        Amount::AtLeast(n) => {
            let rest = seq![',', '}'];
            lemma_stands_split(s, p, open, text::dec(n) + rest);
            lemma_stands(s, p, open, 0);
            let d = lemma_number(s, p + 1, n, rest);
            lemma_stands(s, d, rest, 0);
            lemma_stands(s, d, rest, 1);
            assert(engine::digits_end(s, d + 1) == d + 1);
        },
        Amount::Between(n, m) => {
            let last = seq!['}'];
            let more = text::dec(m) + last;
            let rest = seq![','] + more;
            lemma_stands_split(s, p, open, text::dec(n) + rest);
            lemma_stands(s, p, open, 0);
            let d = lemma_number(s, p + 1, n, rest);
            lemma_stands_split(s, d, seq![','], more);
            let e = lemma_number(s, d + 1, m, last);
        },
        _ => {},
    }
}

/// A quantifier is read as the amount that it is written for.
proof fn lemma_quantified(a: Amount, lazy: bool, s: Seq<char>, p: int, t: Tree)
    requires
        is_amount(a),
        stands(
            s,
            p,
            write_amount(a) + if lazy {
                seq!['?']
            } else {
                seq![]
            },
        ),
        !quantifier_at(s, (p + write_amount(a).len() + if lazy { 1int } else { 0int }) as int),
    ensures
        engine::quantified(s, p, t) == Ok::<(Tree, int), Seq<char>>(
            (
                Tree::Repeat {
                    atom: Box::new(t),
                    min: bounds_of(a).0,
                    max: bounds_of(a).1,
                    greedy: !lazy,
                },
                (p + write_amount(a).len() + if lazy { 1int } else { 0int }) as int,
            ),
        ),
{
    let w = write_amount(a);
    let more = if lazy {
        seq!['?']
    } else {
        Seq::<char>::empty()
    };
    assert(stands(s, p, w + more));
    lemma_stands_split(s, p, w, more);
    let q = (p + w.len()) as int;
    if lazy {
        lemma_stands(s, q, more, 0);
    }
    let end = engine::after_greediness(s, q);
    assert(end == q + if lazy { 1int } else { 0int });
    assert(lazy == engine::at(s, q, '?'));
    let r = Tree::Repeat {
        atom: Box::new(t),
        min: bounds_of(a).0,
        max: bounds_of(a).1,
        greedy: !lazy,
    };
    assert(engine::quantified(s, end, r) == Ok::<(Tree, int), Seq<char>>((r, end)));
    match a {
        Amount::Star => {
            lemma_stands(s, p, w, 0);
        },
        Amount::Plus => {
            lemma_stands(s, p, w, 0);
        },
        Amount::Maybe => {
            lemma_stands(s, p, w, 0);
        },
        _ => {
            lemma_amount(a, s, p);
            text::lemma_dec_reads_back(0);
            assert(w.len() > 0);
        },
    }
}

proof fn lemma_set_char(c: SetChar, s: Seq<char>, p: int)
    requires
        is_set_char(c),
        stands(s, p, write_set_char(c)),
    ensures
        engine::class_char(s, p) == Ok::<(char, int), Seq<char>>(
            (set_char(c), (p + write_set_char(c).len()) as int),
        ),
        s[p] != ']',
        s[p] != '-',
        s[p] != '^',
        write_set_char(c).len() > 0,
{
    lemma_stands(s, p, write_set_char(c), 0);
    if c.escaped {
        lemma_stands(s, p, write_set_char(c), 1);
    }
}

/// The end of a set.
spec fn set_end(dash: bool) -> Seq<char> {
    if dash {
        seq!['-', ']']
    } else {
        seq![']']
    }
}

proof fn lemma_single_step(
    s: Seq<char>,
    p: int,
    first: bool,
    lo: char,
    q: int,
    items: Seq<(char, char)>,
    end: int,
)
    requires
        0 <= p < s.len(),
        s[p] != ']',
        engine::class_char(s, p) == Ok::<(char, int), Seq<char>>((lo, q)),
        p < q <= s.len(),
        !(engine::at(s, q, '-') && q + 1 < s.len() && s[q + 1] != ']'),
        engine::class_items(s, q, false) == Ok::<(Seq<(char, char)>, int), Seq<char>>((items, end)),
    ensures
        engine::class_items(s, p, first) == Ok::<(Seq<(char, char)>, int), Seq<char>>(
            (seq![(lo, lo)] + items, end),
        ),
{
}

proof fn lemma_range_step(
    s: Seq<char>,
    p: int,
    first: bool,
    lo: char,
    q: int,
    hi: char,
    r: int,
    items: Seq<(char, char)>,
    end: int,
)
    requires
        0 <= p < s.len(),
        s[p] != ']',
        engine::class_char(s, p) == Ok::<(char, int), Seq<char>>((lo, q)),
        p < q,
        q + 1 < s.len(),
        s[q] == '-',
        s[q + 1] != ']',
        engine::class_char(s, q + 1) == Ok::<(char, int), Seq<char>>((hi, r)),
        lo <= hi,
        q < r <= s.len(),
        engine::class_items(s, r, false) == Ok::<(Seq<(char, char)>, int), Seq<char>>((items, end)),
    ensures
        engine::class_items(s, p, first) == Ok::<(Seq<(char, char)>, int), Seq<char>>(
            (seq![(lo, hi)] + items, end),
        ),
{
}

#[verifier::spinoff_prover]
proof fn lemma_class_items(
    parts: Seq<(SetChar, Option<SetChar>)>,
    k: int,
    dash: bool,
    s: Seq<char>,
    p: int,
    first: bool,
)
    requires
        0 <= k <= parts.len(),
        forall|i: int| 0 <= i < parts.len() ==> is_set_part(#[trigger] parts[i]),
        first ==> k < parts.len() || dash,
        stands(s, p, write_parts(parts, k) + set_end(dash)),
    ensures
        engine::class_items(s, p, first) == Ok::<(Seq<(char, char)>, int), Seq<char>>(
            (
                ranges_of(parts, k, dash),
                (p + (write_parts(parts, k) + set_end(dash)).len()) as int,
            ),
        ),
        s[p] != '^',
        first ==> s[p] != ']',
    decreases parts.len() - k,
{
    let w = write_parts(parts, k) + set_end(dash);
    if k < parts.len() {
        let rest = write_parts(parts, k + 1) + set_end(dash);
        let part = parts[k];
        assert(is_set_part(part));
        let lo = write_set_char(part.0);
        match part.1 {
            None => {
                assert(w =~= lo + rest);
                lemma_stands_split(s, p, lo, rest);
                lemma_set_char(part.0, s, p);
                let q = (p + lo.len()) as int;
                lemma_class_items(parts, k + 1, dash, s, q, false);
                lemma_part_ends(parts, k + 1, dash, s, q);
                lemma_single_step(
                    s,
                    p,
                    first,
                    set_char(part.0),
                    q,
                    ranges_of(parts, k + 1, dash),
                    (q + rest.len()) as int,
                );
            },
            Some(hi) => {
                let up = write_set_char(hi);
                assert(w =~= lo + (seq!['-'] + (up + rest)));
                lemma_stands_split(s, p, lo, seq!['-'] + (up + rest));
                lemma_set_char(part.0, s, p);
                let q = (p + lo.len()) as int;
                lemma_stands_split(s, q, seq!['-'], up + rest);
                lemma_stands(s, q, seq!['-'], 0);
                lemma_stands_split(s, q + 1, up, rest);
                lemma_set_char(hi, s, q + 1);
                let r = (q + 1 + up.len()) as int;
                lemma_class_items(parts, k + 1, dash, s, r, false);
                lemma_range_step(
                    s,
                    p,
                    first,
                    set_char(part.0),
                    q,
                    set_char(hi),
                    r,
                    ranges_of(parts, k + 1, dash),
                    (r + rest.len()) as int,
                );
            },
        }
    } else {
        assert(w =~= set_end(dash));
        lemma_class_end(dash, s, p, first);
    }
}

proof fn lemma_class_end(dash: bool, s: Seq<char>, p: int, first: bool)
    requires
        first ==> dash,
        stands(s, p, set_end(dash)),
    ensures
        engine::class_items(s, p, first) == Ok::<(Seq<(char, char)>, int), Seq<char>>(
            (
                if dash {
                    seq![('-', '-')]
                } else {
                    seq![]
                },
                (p + set_end(dash).len()) as int,
            ),
        ),
        s[p] != '^',
        first ==> s[p] != ']',
{
    let w = set_end(dash);
    lemma_stands(s, p, w, 0);
    if dash {
        lemma_stands(s, p, w, 1);
        let none: Seq<(char, char)> = seq![];
        assert(engine::class_items(s, p + 1, false) == Ok::<(Seq<(char, char)>, int), Seq<char>>(
            (none, p + 2),
        ));
        assert(seq![('-', '-')] + none =~= seq![('-', '-')]);
        lemma_single_step(s, p, first, '-', p + 1, none, p + 2);
    }
}

/// What follows a single character of a set is no hyphen, or one that ends the set.
proof fn lemma_part_ends(
    parts: Seq<(SetChar, Option<SetChar>)>,
    k: int,
    dash: bool,
    s: Seq<char>,
    q: int,
)
    requires
        0 <= k <= parts.len(),
        forall|i: int| 0 <= i < parts.len() ==> is_set_part(#[trigger] parts[i]),
        stands(s, q, write_parts(parts, k) + set_end(dash)),
    ensures
        !engine::at(s, q, '-') || s[q + 1] == ']',
{
    let w = write_parts(parts, k) + set_end(dash);
    if k < parts.len() {
        let part = parts[k];
        assert(is_set_part(part));
        let lo = write_set_char(part.0);
        assert(w[0] == lo[0]);
        lemma_stands(s, q, w, 0);
    } else {
        assert(w =~= set_end(dash));
        lemma_stands(s, q, w, 0);
        if dash {
            lemma_stands(s, q, w, 1);
        }
    }
}

/// A written pattern starts with a character that starts no quantifier and ends no sequence.
proof fn lemma_first_char(p: Pat)
    requires
        is_writable(p),
    ensures
        write(p).len() > 0,
        ({
            let c = write(p)[0];
            c != '*' && c != '+' && c != '?' && c != '{' && c != '|' && c != ')'
        }),
    decreases p,
{
    match p {
        Pat::Times { of, amount, lazy } => {
            lemma_first_char(*of);
        },
        _ => {},
    }
}

/// Neither a quantifier nor a flag stands where the rest of a sequence begins.
proof fn lemma_rest_begins(ps: Seq<Pat>, k: int, s: Seq<char>, q: int)
    requires
        0 <= k <= ps.len(),
        is_writable_seq(ps),
        stands(s, q, write_seq(ps, k)),
        sequence_ends(s, (q + write_seq(ps, k).len()) as int),
    ensures
        !quantifier_at(s, q),
{
    if k < ps.len() {
        assert(is_writable(ps[k]));
        lemma_first_char(ps[k]);
        assert(write_seq(ps, k)[0] == write(ps[k])[0]);
        lemma_stands(s, q, write_seq(ps, k), 0);
    }
}

spec fn ok<T>(t: T, q: int) -> Result<(T, int), Seq<char>> {
    Ok((t, q))
}

proof fn lemma_group_step(s: Seq<char>, p: int, t: Tree, q: int)
    requires
        0 <= p < s.len(),
        s[p] == '(',
        !engine::at(s, p + 1, '?'),
        engine::alternation(s, p + 1) == ok(t, q),
        engine::at(s, q, ')'),
    ensures
        engine::atom(s, p) == ok(t, q + 1),
{
}

proof fn lemma_class_step(s: Seq<char>, p: int, negated: bool, ranges: Seq<(char, char)>, q: int)
    requires
        0 <= p < s.len(),
        s[p] == '[',
        negated == engine::at(s, p + 1, '^'),
        engine::class_items(
            s,
            p + if negated {
                2int
            } else {
                1int
            },
            true,
        ) == ok(ranges, q),
    ensures
        engine::atom(s, p) == ok(Tree::Char(CharTest::Class { negated, ranges }), q),
{
}

proof fn lemma_sequence_step(s: Seq<char>, p: int, t: Tree, q: int, rest: Seq<Tree>, end: int)
    requires
        0 <= p < q <= s.len(),
        s[p] != '|',
        s[p] != ')',
        engine::repetition(s, p) == ok(t, q),
        engine::sequence(s, q) == ok(rest, end),
    ensures
        engine::sequence(s, p) == ok(seq![t] + rest, end),
{
}

proof fn lemma_alternatives_step(s: Seq<char>, p: int, t: Tree, q: int, rest: Seq<Tree>, end: int)
    requires
        engine::at(s, p, '|'),
        p < q <= s.len(),
        engine::concatenation(s, p + 1) == ok(t, q),
        engine::alternatives(s, q) == ok(rest, end),
    ensures
        engine::alternatives(s, p) == ok(seq![t] + rest, end),
{
}

proof fn lemma_alternation_step(s: Seq<char>, p: int, t: Tree, q: int, rest: Seq<Tree>, end: int)
    requires
        p <= q <= s.len(),
        engine::concatenation(s, p) == ok(t, q),
        engine::alternatives(s, q) == ok(rest, end),
    ensures
        engine::alternation(s, p) == ok(
            if rest.len() == 0 {
                t
            } else {
                Tree::Alt(seq![t] + rest)
            },
            end,
        ),
{
    let all = seq![t] + rest;
    assert(engine::prepend(seq![t], engine::alternatives(s, q)) == ok(all, end));
    assert(all[0] == t);
}

/// A written pattern without an amount is read as its tree.
proof fn lemma_atom(p: Pat, s: Seq<char>, at: int)
    requires
        is_writable(p),
        !(p is Times),
        stands(s, at, write(p)),
    ensures
        engine::atom(s, at) == ok(tree_of(p), (at + write(p).len()) as int),
    decreases p, 1int, 0int,
{
    let w = write(p);
    lemma_first_char(p);
    lemma_stands(s, at, w, 0);
    match p {
        Pat::Escape(c) => {
            lemma_stands(s, at, w, 1);
        },
        Pat::OneOf { negated, parts, dash } => {
            let front = if negated {
                seq!['[', '^']
            } else {
                seq!['[']
            };
            let back = write_parts(parts, 0) + set_end(dash);
            assert(w =~= front + back);
            lemma_stands_split(s, at, front, back);
            let q = (at + front.len()) as int;
            lemma_class_items(parts, 0, dash, s, q, true);
            if negated {
                lemma_stands(s, at, front, 1);
            }
            lemma_class_step(
                s,
                at,
                negated,
                ranges_of(parts, 0, dash),
                (q + back.len()) as int,
            );
        },
        Pat::Group(alts) => {
            let inner = write_alts(alts, 0);
            lemma_stands_split(s, at, seq!['('], inner + seq![')']);
            lemma_stands_split(s, at + 1, inner, seq![')']);
            let q = (at + 1 + inner.len()) as int;
            lemma_stands(s, q, seq![')'], 0);
            lemma_no_flag(alts, s, at + 1);
            lemma_choice(alts, s, at + 1);
            lemma_group_step(s, at, choice_of(alts), q);
        },
        _ => {},
    }
}

/// What stands behind the bracket of a group is no flag.
proof fn lemma_no_flag(alts: Seq<Seq<Pat>>, s: Seq<char>, p: int)
    requires
        alts.len() > 0,
        are_writable(alts),
        stands(s, p, write_alts(alts, 0)),
        choice_ends(s, (p + write_alts(alts, 0).len()) as int),
    ensures
        !engine::at(s, p, '?'),
{
    let line = alts[0];
    let w = write_seq(line, 0);
    let rest = write_alts(alts, 1);
    assert(is_writable_seq(line));
    let none: Seq<char> = seq![];
    assert(none + (w + rest) =~= w + rest);
    assert(write_alts(alts, 0) =~= w + rest);
    if line.len() > 0 {
        assert(is_writable(line[0]));
        lemma_first_char(line[0]);
        assert(w[0] == write(line[0])[0]);
        assert(write_alts(alts, 0)[0] == w[0]);
        lemma_stands(s, p, write_alts(alts, 0), 0);
    } else if alts.len() > 1 {
        assert(w.len() == 0);
        assert(rest[0] == '|');
        assert(write_alts(alts, 0)[0] == '|');
        lemma_stands(s, p, write_alts(alts, 0), 0);
    } else {
        assert(w.len() == 0 && rest.len() == 0);
    }
}

/// A written pattern that no quantifier follows is read as its tree.
proof fn lemma_repetition(p: Pat, s: Seq<char>, at: int)
    requires
        is_writable(p),
        stands(s, at, write(p)),
        !quantifier_at(s, (at + write(p).len()) as int),
    ensures
        engine::repetition(s, at) == ok(tree_of(p), (at + write(p).len()) as int),
    decreases p, 2int, 0int,
{
    match p {
        Pat::Times { of, amount, lazy } => {
            let w = write(*of);
            let more = write_amount(amount) + if lazy {
                seq!['?']
            } else {
                seq![]
            };
            lemma_stands_split(s, at, w, more);
            lemma_atom(*of, s, at);
            let q = (at + w.len()) as int;
            lemma_quantified(amount, lazy, s, q, tree_of(*of));
        },
        _ => {
            lemma_atom(p, s, at);
        },
    }
}

/// A written sequence is read as the trees of its patterns.
proof fn lemma_sequence(ps: Seq<Pat>, k: int, s: Seq<char>, at: int)
    requires
        0 <= k <= ps.len(),
        is_writable_seq(ps),
        stands(s, at, write_seq(ps, k)),
        sequence_ends(s, (at + write_seq(ps, k).len()) as int),
    ensures
        engine::sequence(s, at) == ok(
            parts_of(ps).skip(k),
            (at + write_seq(ps, k).len()) as int,
        ),
    decreases ps, 0int, ps.len() - k,
{
    let ts = parts_of(ps);
    if k < ps.len() {
        let p = ps[k];
        assert(is_writable(p));
        let w = write(p);
        let rest = write_seq(ps, k + 1);
        lemma_stands_split(s, at, w, rest);
        let q = (at + w.len()) as int;
        lemma_rest_begins(ps, k + 1, s, q);
        lemma_repetition(p, s, at);
        lemma_sequence(ps, k + 1, s, q);
        lemma_first_char(p);
        lemma_stands(s, at, w, 0);
        lemma_sequence_step(s, at, tree_of(p), q, ts.skip(k + 1), (q + rest.len()) as int);
        assert(ts[k] == tree_of(p));
        assert(ts.skip(k) =~= seq![tree_of(p)] + ts.skip(k + 1));
    } else {
        assert(ts.skip(k) =~= seq![]);
    }
}

/// A written sequence is read as one tree.
proof fn lemma_line(ps: Seq<Pat>, s: Seq<char>, at: int)
    requires
        is_writable_seq(ps),
        stands(s, at, write_seq(ps, 0)),
        sequence_ends(s, (at + write_seq(ps, 0).len()) as int),
    ensures
        engine::concatenation(s, at) == ok(
            line_of(ps),
            (at + write_seq(ps, 0).len()) as int,
        ),
    decreases ps, 1int, 0int,
{
    lemma_sequence(ps, 0, s, at);
    assert(parts_of(ps).skip(0) =~= parts_of(ps));
}

/// Where an alternative ends, another one begins or the choice ends.
proof fn lemma_line_ends(alts: Seq<Seq<Pat>>, k: int, s: Seq<char>, q: int)
    requires
        0 < k <= alts.len(),
        stands(s, q, write_alts(alts, k)),
        choice_ends(s, (q + write_alts(alts, k).len()) as int),
    ensures
        sequence_ends(s, q),
{
    if k < alts.len() {
        assert(write_alts(alts, k)[0] == '|');
        lemma_stands(s, q, write_alts(alts, k), 0);
    }
}

/// The written alternatives behind the first are read as their trees.
proof fn lemma_alternatives(alts: Seq<Seq<Pat>>, k: int, s: Seq<char>, at: int)
    requires
        0 < k <= alts.len(),
        are_writable(alts),
        stands(s, at, write_alts(alts, k)),
        choice_ends(s, (at + write_alts(alts, k).len()) as int),
    ensures
        engine::alternatives(s, at) == ok(
            lines_of(alts).skip(k),
            (at + write_alts(alts, k).len()) as int,
        ),
    decreases alts, 0int, alts.len() - k,
{
    let ts = lines_of(alts);
    if k < alts.len() {
        let line = alts[k];
        assert(is_writable_seq(line));
        let w = write_seq(line, 0);
        let rest = write_alts(alts, k + 1);
        assert(write_alts(alts, k) == seq!['|'] + (w + rest));
        lemma_stands_split(s, at, seq!['|'], w + rest);
        lemma_stands(s, at, seq!['|'], 0);
        lemma_stands_split(s, at + 1, w, rest);
        let q = (at + 1 + w.len()) as int;
        lemma_line_ends(alts, k + 1, s, q);
        lemma_line(line, s, at + 1);
        lemma_alternatives(alts, k + 1, s, q);
        lemma_alternatives_step(
            s,
            at,
            line_of(line),
            q,
            ts.skip(k + 1),
            (q + rest.len()) as int,
        );
        assert(ts[k] == line_of(line));
        assert(ts.skip(k) =~= seq![line_of(line)] + ts.skip(k + 1));
    } else {
        assert(ts.skip(k) =~= seq![]);
    }
}

/// A written choice is read as one tree.
proof fn lemma_choice(alts: Seq<Seq<Pat>>, s: Seq<char>, at: int)
    requires
        alts.len() > 0,
        are_writable(alts),
        stands(s, at, write_alts(alts, 0)),
        choice_ends(s, (at + write_alts(alts, 0).len()) as int),
    ensures
        engine::alternation(s, at) == ok(
            choice_of(alts),
            (at + write_alts(alts, 0).len()) as int,
        ),
    decreases alts, 1int, 0int,
{
    let ts = lines_of(alts);
    let line = alts[0];
    assert(is_writable_seq(line));
    let w = write_seq(line, 0);
    let rest = write_alts(alts, 1);
    let none: Seq<char> = seq![];
    assert(none + (w + rest) =~= w + rest);
    assert(write_alts(alts, 0) =~= w + rest);
    lemma_stands_split(s, at, w, rest);
    let q = (at + w.len()) as int;
    lemma_line_ends(alts, 1, s, q);
    lemma_line(line, s, at);
    lemma_alternatives(alts, 1, s, q);
    lemma_alternation_step(s, at, line_of(line), q, ts.skip(1), (q + rest.len()) as int);
    assert(ts[0] == line_of(line));
    assert(ts =~= seq![line_of(line)] + ts.skip(1));
}

/// The text of a pattern at the top: alternatives, each a sequence of patterns.
pub open spec fn write_pattern(alts: Seq<Seq<Pat>>) -> Seq<char> {
    write_alts(alts, 0)
}

/// What is written is read: the engine accepts the text of every pattern, and the tree that it
/// reads matches exactly the pieces of a text that the pattern stands for.
pub proof fn lemma_patterns_mean_what_they_say(
    alts: Seq<Seq<Pat>>,
    b: Seq<u8>,
    i: int,
    j: int,
)
    requires
        alts.len() > 0,
        are_writable(alts),
    ensures
        engine::pattern(write_pattern(alts)) is Ok,
        matching::matches(engine::pattern(write_pattern(alts))->Ok_0, b, i, j) == means_one_of(
            alts,
            b,
            i,
            j,
        ),
{
    let s = write_pattern(alts);
    assert(s.subrange(0, s.len() as int) =~= s);
    lemma_choice(alts, s, 0);
    lemma_choice_means(alts, b, i, j);
}

/// What is found is what is meant: where a search for the text of a pattern finds a match, the
/// pattern stands for it; and at a character boundary of a text it finds one wherever the pattern
/// stands for anything, unless the limit on the number of steps is reached.
pub proof fn lemma_patterns_are_found(alts: Seq<Seq<Pat>>, s: Seq<char>, start: int)
    requires
        alts.len() > 0,
        are_writable(alts),
        0 <= start <= encode_utf8(s).len(),
        is_char_boundary(encode_utf8(s), start),
    ensures
        engine::pattern(write_pattern(alts)) is Ok,
        ({
            let b = encode_utf8(s);
            let p = engine::program(engine::pattern(write_pattern(alts))->Ok_0);
            &&& engine::match_end(p, b, start) matches Some(end) ==> means_one_of(alts, b, start, end)
            &&& !(engine::outcome(p, b, start) is OverBudget) && (exists|end: int|
                means_one_of(alts, b, start, end)) ==> engine::match_end(p, b, start) is Some
        }),
{
    let b = encode_utf8(s);
    let w = write_pattern(alts);
    lemma_patterns_mean_what_they_say(alts, b, start, start);
    let t = engine::pattern(w)->Ok_0;
    let p = engine::program(t);
    lemma_read_well(alts);
    match engine::match_end(p, b, start) {
        Some(end) => {
            matching::lemma_found_is_a_match(t, b, start, end);
            lemma_patterns_mean_what_they_say(alts, b, start, end);
        },
        None => {},
    }
    if !(engine::outcome(p, b, start) is OverBudget) && (exists|end: int|
        means_one_of(alts, b, start, end)) {
        let end = choose|end: int| means_one_of(alts, b, start, end);
        lemma_patterns_mean_what_they_say(alts, b, start, end);
        assert(matching::matches(t, b, start, end));
        matching::lemma_found_iff_a_match_exists(t, s, start);
    }
}

/// Every range that a search of a whole text gives is one that the program finds where it
/// starts, and it is not empty.
pub proof fn lemma_scan_hits(p: Seq<engine::Step>, b: Seq<u8>, pos: int, r: (int, int))
    requires
        0 <= pos,
        engine::scan(p, b, pos).contains(r),
    ensures
        r.0 >= pos,
        r.0 < r.1,
        engine::match_end(p, b, r.0) == Some(r.1),
    decreases b.len() - pos,
{
    let all = engine::scan(p, b, pos);
    let k = choose|k: int| 0 <= k < all.len() && all[k] == r;
    match engine::match_end(p, b, pos) {
        Some(end) => if pos < end <= b.len() {
            if k > 0 {
                let rest = engine::scan(p, b, end);
                assert(rest[k - 1] == r);
                lemma_scan_hits(p, b, end, r);
            }
        } else {
            lemma_scan_hits(p, b, pos + 1, r);
        },
        None => {
            lemma_scan_hits(p, b, engine::next_place(b, pos), r);
        },
    }
}

/// Every range that a search of a whole text gives for a pattern is one that the pattern stands
/// for.
pub proof fn lemma_hits_are_meant(alts: Seq<Seq<Pat>>, b: Seq<u8>, start: int, end: int)
    requires
        alts.len() > 0,
        are_writable(alts),
        engine::scan(
            engine::program(engine::pattern(write_pattern(alts))->Ok_0),
            b,
            0,
        ).contains((start, end)),
    ensures
        start < end,
        means_one_of(alts, b, start, end),
{
    let t = engine::pattern(write_pattern(alts))->Ok_0;
    lemma_read_well(alts);
    lemma_scan_hits(engine::program(t), b, 0, (start, end));
    matching::lemma_found_is_a_match(t, b, start, end);
    lemma_patterns_mean_what_they_say(alts, b, start, end);
}

proof fn lemma_tree_is_well_formed(p: Pat)
    requires
        is_writable(p),
    ensures
        engine::well_formed(tree_of(p)),
    decreases p, 0int,
{
    match p {
        Pat::Group(alts) => {
            lemma_choice_is_well_formed(alts);
        },
        Pat::Times { of, amount, lazy } => {
            lemma_tree_is_well_formed(*of);
        },
        _ => {},
    }
}

proof fn lemma_line_is_well_formed(ps: Seq<Pat>)
    requires
        is_writable_seq(ps),
    ensures
        engine::well_formed(line_of(ps)),
    decreases ps, 0int,
{
    let ts = parts_of(ps);
    assert forall|k: int| 0 <= k < ts.len() implies engine::well_formed(#[trigger] ts[k]) by {
        assert(is_writable(ps[k]));
        lemma_tree_is_well_formed(ps[k]);
    }
    if ps.len() == 1 {
        assert(ts[0] == tree_of(ps[0]));
    }
}

proof fn lemma_choice_is_well_formed(alts: Seq<Seq<Pat>>)
    requires
        alts.len() > 0,
        are_writable(alts),
    ensures
        engine::well_formed(choice_of(alts)),
    decreases alts, 0int,
{
    let ts = lines_of(alts);
    assert forall|k: int| 0 <= k < ts.len() implies engine::well_formed(#[trigger] ts[k]) by {
        assert(is_writable_seq(alts[k]));
        lemma_line_is_well_formed(alts[k]);
    }
    if alts.len() == 1 {
        assert(ts[0] == line_of(alts[0]));
    }
}

proof fn lemma_read_well(alts: Seq<Seq<Pat>>)
    requires
        alts.len() > 0,
        are_writable(alts),
    ensures
        engine::pattern(write_pattern(alts)) == Ok::<Tree, Seq<char>>(choice_of(alts)),
        engine::well_formed(choice_of(alts)),
{
    let s = write_pattern(alts);
    assert(s.subrange(0, s.len() as int) =~= s);
    lemma_choice(alts, s, 0);
    lemma_choice_is_well_formed(alts);
}

/// What is read from the text of a pattern has the bounds of its repetitions in order.
pub proof fn lemma_patterns_are_read_well(alts: Seq<Seq<Pat>>)
    requires
        alts.len() > 0,
        are_writable(alts),
    ensures
        engine::pattern(write_pattern(alts)) is Ok,
        engine::well_formed(engine::pattern(write_pattern(alts))->Ok_0),
{
    lemma_read_well(alts);
}

/// One pattern alone.
pub open spec fn alone(p: Pat) -> Seq<Seq<Pat>> {
    seq![seq![p]]
}

proof fn lemma_alone(p: Pat)
    requires
        is_writable(p),
    ensures
        are_writable(alone(p)),
        write_pattern(alone(p)) == write(p),
        choice_of(alone(p)) == tree_of(p),
        engine::pattern(write(p)) == Ok::<Tree, Seq<char>>(tree_of(p)),
        engine::well_formed(tree_of(p)),
{
    let one = seq![p];
    let all = alone(p);
    assert(all[0] == one && one[0] == p);
    assert(is_writable_seq(one));
    assert(write_seq(one, 1) =~= seq![]);
    assert(write_seq(one, 0) =~= write(p));
    assert(write_alts(all, 1) =~= seq![]);
    let none: Seq<char> = seq![];
    assert(write_alts(all, 0) =~= none + (write_seq(one, 0) + none));
    assert(write_alts(all, 0) =~= write(p));
    assert(are_writable(all)) by {
        assert forall|k: int| 0 <= k < all.len() implies is_writable_seq(#[trigger] all[k]) by {}
    }
    lemma_read_well(all);
}

/// The text is a pattern for a single character, and the character `c` passes its test.
#[verifier::opaque]
pub open spec fn accepted_by(w: Seq<char>, c: char) -> bool {
    engine::pattern(w) matches Ok(t) && t is Char && t->Char_0.accepts(c)
}

/// The text is a pattern for a single character.
#[verifier::opaque]
pub open spec fn is_single(w: Seq<char>) -> bool {
    engine::pattern(w) matches Ok(t) && t is Char
}

/// An escape accepts exactly its characters: those of the classes `d`, `w` and `s` and of their
/// counterparts, a line feed, a carriage return or a tabulator, or the character itself.
pub proof fn lemma_escapes_accept(e: char, c: char)
    ensures
        is_single(seq!['\\', e]),
        accepted_by(seq!['\\', e], c) <==> escape_means(e, c),
{
    reveal(accepted_by);
    reveal(is_single);
    let p = Pat::Escape(e);
    lemma_alone(p);
    lemma_escape_means(e, c);
    assert(write(p) == seq!['\\', e]);
}

/// `\d` accepts the digits from `0` to `9`, `\w` the letters from `a` to `z` in either case,
/// these digits and the underscore, `\s` the blank, the tabulator, the line feed and the carriage
/// return, and `\D`, `\W` and `\S` all other characters.
pub proof fn lemma_classes_accept(c: char)
    ensures
        is_single("\\d"@) && (accepted_by("\\d"@, c) <==> '0' <= c <= '9'),
        is_single("\\D"@) && (accepted_by("\\D"@, c) <==> !('0' <= c <= '9')),
        is_single("\\w"@) && (accepted_by("\\w"@, c) <==> ('a' <= c <= 'z' || 'A' <= c <= 'Z'
            || '0' <= c <= '9' || c == '_')),
        is_single("\\W"@) && (accepted_by("\\W"@, c) <==> !('a' <= c <= 'z' || 'A' <= c <= 'Z'
            || '0' <= c <= '9' || c == '_')),
        is_single("\\s"@) && (accepted_by("\\s"@, c) <==> (c == ' ' || c == '\t' || c == '\n'
            || c == '\r')),
        is_single("\\S"@) && (accepted_by("\\S"@, c) <==> !(c == ' ' || c == '\t' || c == '\n'
            || c == '\r')),
{
    lemma_escapes_accept('d', c);
    lemma_escapes_accept('D', c);
    lemma_escapes_accept('w', c);
    lemma_escapes_accept('W', c);
    lemma_escapes_accept('s', c);
    lemma_escapes_accept('S', c);
    reveal_strlit("\\d");
    reveal_strlit("\\D");
    reveal_strlit("\\w");
    reveal_strlit("\\W");
    reveal_strlit("\\s");
    reveal_strlit("\\S");
    assert("\\d"@ =~= seq!['\\', 'd']);
    assert("\\D"@ =~= seq!['\\', 'D']);
    assert("\\w"@ =~= seq!['\\', 'w']);
    assert("\\W"@ =~= seq!['\\', 'W']);
    assert("\\s"@ =~= seq!['\\', 's']);
    assert("\\S"@ =~= seq!['\\', 'S']);
}

/// A character that is not special stands for itself, `.` for every character but a line feed,
/// and a set for the characters that it holds, or for all others behind `^`.
pub proof fn lemma_single_characters_accept(
    l: char,
    negated: bool,
    parts: Seq<(SetChar, Option<SetChar>)>,
    dash: bool,
    c: char,
)
    requires
        !is_special(l),
        is_writable(Pat::OneOf { negated, parts, dash }),
    ensures
        is_single(seq![l]) && (accepted_by(seq![l], c) <==> c == l),
        is_single(seq!['.']) && (accepted_by(seq!['.'], c) <==> c != '\n'),
        ({
            let w = write(Pat::OneOf { negated, parts, dash });
            is_single(w) && (accepted_by(w, c) <==> set_means(parts, dash, c) != negated)
        }),
{
    reveal(accepted_by);
    reveal(is_single);
    lemma_alone(Pat::Plain(l));
    lemma_alone(Pat::Dot);
    lemma_alone(Pat::OneOf { negated, parts, dash });
    lemma_ranges_mean(parts, 0, dash, c);
    assert(write(Pat::Plain(l)) == seq![l]);
    assert(write(Pat::Dot) == seq!['.']);
}

/// As much as possible is taken, or as little as possible where a `?` stands behind the amount:
/// of all that a single character with the amount `*`, `+` or `?` stands for from a place on, the
/// longest piece is found, or the shortest.
pub proof fn lemma_amounts_are_greedy_or_lazy(
    p: Pat,
    amount: Amount,
    lazy: bool,
    b: Seq<u8>,
    start: int,
    found: int,
    other: int,
)
    requires
        p is Plain || p is Dot || p is Escape || p is OneOf,
        is_writable(p),
        amount is Star || amount is Plus || amount is Maybe,
        ({
            let times = Pat::Times { of: Box::new(p), amount, lazy };
            &&& engine::match_end(
                engine::program(engine::pattern(write(times))->Ok_0),
                b,
                start,
            ) == Some(found)
            &&& means(times, b, start, other)
        }),
    ensures
        !lazy ==> other <= found,
        lazy ==> found <= other,
{
    let times = Pat::Times { of: Box::new(p), amount, lazy };
    assert(is_writable(times));
    lemma_alone(times);
    lemma_tree_means(times, b, start, other);
    let t = tree_of(times);
    let test = tree_of(p)->Char_0;
    assert(tree_of(p) == Tree::Char(test));
    assert(t == Tree::Repeat {
        atom: Box::new(Tree::Char(test)),
        min: bounds_of(amount).0,
        max: bounds_of(amount).1,
        greedy: !lazy,
    });
    if amount is Maybe {
        engine_laws::lemma_optional_character(test, !lazy, b, start, found, other);
    } else {
        engine_laws::lemma_unbounded_repetition(
            test,
            bounds_of(amount).0,
            !lazy,
            b,
            start,
            found,
            other,
        );
    }
}

/// The numbers of an amount fit in 32 bits.
pub open spec fn is_readable(a: Amount) -> bool {
    match a {
        Amount::Exactly(n) => n <= u32::MAX,
        Amount::AtLeast(n) => n <= u32::MAX,
        Amount::Between(n, m) => n <= u32::MAX && m <= u32::MAX,
        _ => true,
    }
}

proof fn lemma_bad_amount(a: Amount, s: Seq<char>, p: int)
    requires
        is_readable(a),
        !is_amount(a),
        stands(s, p, write_amount(a)),
    ensures
        engine::at(s, p, '{'),
        engine::braces(s, p) is Err,
{
    let open = seq!['{'];
    match a {
        Amount::Exactly(n) => {
            let rest = seq!['}'];
            lemma_stands_split(s, p, open, text::dec(n) + rest);
            lemma_stands(s, p, open, 0);
            let d = lemma_number(s, p + 1, n, rest);
        },
        Amount::AtLeast(n) => {
            let rest = seq![',', '}'];
            lemma_stands_split(s, p, open, text::dec(n) + rest);
            lemma_stands(s, p, open, 0);
            let d = lemma_number(s, p + 1, n, rest);
            lemma_stands(s, d, rest, 0);
            lemma_stands(s, d, rest, 1);
            assert(engine::digits_end(s, d + 1) == d + 1);
        },
        Amount::Between(n, m) => {
            let last = seq!['}'];
            let more = text::dec(m) + last;
            let rest = seq![','] + more;
            lemma_stands_split(s, p, open, text::dec(n) + rest);
            lemma_stands(s, p, open, 0);
            let d = lemma_number(s, p + 1, n, rest);
            lemma_stands_split(s, d, seq![','], more);
            let e = lemma_number(s, d + 1, m, last);
        },
        _ => {},
    }
}

proof fn lemma_bad_start(s: Seq<char>)
    requires
        s.len() > 0,
        s[0] != '|',
        s[0] != ')',
        engine::repetition(s, 0) is Err,
    ensures
        engine::pattern(s) is Err,
{
    assert(engine::sequence(s, 0) is Err);
    assert(engine::concatenation(s, 0) is Err);
    assert(engine::alternation(s, 0) is Err);
}

/// An amount with a bound over 64, or with bounds out of order, is refused.
pub proof fn lemma_bad_amounts_are_refused(p: Pat, a: Amount)
    requires
        is_writable(p),
        !(p is Times),
        is_readable(a),
        !is_amount(a),
    ensures
        engine::pattern(write(p) + write_amount(a)) is Err,
{
    let w = write(p);
    let s = w + write_amount(a);
    assert(s.subrange(0, s.len() as int) =~= s);
    lemma_stands_split(s, 0, w, write_amount(a));
    lemma_atom(p, s, 0);
    lemma_bad_amount(a, s, w.len() as int);
    lemma_first_char(p);
    lemma_stands(s, 0, w, 0);
    assert(engine::quantified(s, w.len() as int, tree_of(p)) is Err);
    assert(engine::repetition(s, 0) is Err);
    lemma_bad_start(s);
}

/// A pattern that starts with an amount or a closing bracket is refused, and so is one that starts
/// with a group with a flag.
pub proof fn lemma_bad_starts_are_refused(c: char, rest: Seq<char>)
    requires
        c == '*' || c == '+' || c == '?' || c == ')',
    ensures
        engine::pattern(seq![c] + rest) is Err,
        engine::pattern(seq!['(', '?'] + rest) is Err,
{
    let s = seq![c] + rest;
    assert(s[0] == c);
    if c == ')' {
        let none: Seq<Tree> = seq![];
        assert(engine::sequence(s, 0) == ok(none, 0));
        assert(engine::concatenation(s, 0) == ok(Tree::Concat(none), 0));
        assert(engine::alternatives(s, 0) == ok(none, 0));
        lemma_alternation_step(s, 0, Tree::Concat(none), 0, none, 0);
    } else {
        assert(engine::atom(s, 0) is Err);
        assert(engine::repetition(s, 0) is Err);
        lemma_bad_start(s);
    }
    let g = seq!['(', '?'] + rest;
    assert(g[0] == '(' && g[1] == '?');
    assert(engine::atom(g, 0) is Err);
    assert(engine::repetition(g, 0) is Err);
    lemma_bad_start(g);
}

/// A group that is not closed is refused, and so is a bracket that closes none.
pub proof fn lemma_brackets_come_in_pairs(alts: Seq<Seq<Pat>>)
    requires
        alts.len() > 0,
        are_writable(alts),
    ensures
        engine::pattern(seq!['('] + write_alts(alts, 0)) is Err,
        engine::pattern(write_alts(alts, 0) + seq![')']) is Err,
{
    let w = write_alts(alts, 0);
    let s = seq!['('] + w;
    assert(s.subrange(0, s.len() as int) =~= s);
    lemma_stands_split(s, 0, seq!['('], w);
    assert(s[0] == '(');
    lemma_choice(alts, s, 1);
    assert(engine::atom(s, 0) is Err);
    assert(engine::repetition(s, 0) is Err);
    lemma_bad_start(s);
    let t = w + seq![')'];
    assert(t.subrange(0, t.len() as int) =~= t);
    lemma_stands_split(t, 0, w, seq![')']);
    assert(t[w.len() as int] == ')');
    lemma_choice(alts, t, 0);
}

/// Of several alternatives the first one that is written is preferred: where it finds a match by
/// itself, two steps under the limit, the whole pattern finds the same match.
pub proof fn lemma_first_alternative_is_found(
    alts: Seq<Seq<Pat>>,
    b: Seq<u8>,
    start: int,
    end: int,
)
    requires
        alts.len() > 1,
        are_writable(alts),
        engine::run(
            engine::program(engine::pattern(write_pattern(seq![alts[0]]))->Ok_0),
            b,
            seq![(0, start)],
            (engine::STEP_CAP - 2) as nat,
        ) == Outcome::Found(end),
    ensures
        engine::match_end(
            engine::program(engine::pattern(write_pattern(alts))->Ok_0),
            b,
            start,
        ) == Some(end),
{
    let one = seq![alts[0]];
    assert(is_writable_seq(alts[0]));
    assert(are_writable(one)) by {
        assert forall|k: int| 0 <= k < one.len() implies is_writable_seq(#[trigger] one[k]) by {}
    }
    lemma_read_well(one);
    lemma_read_well(alts);
    assert(one[0] == alts[0]);
    let ts = lines_of(alts);
    assert(ts[0] == line_of(alts[0]));
    engine_laws::lemma_first_alternative_is_preferred(ts, b, start, end);
}

proof fn lemma_open_set(s: Seq<char>, p: int, first: bool)
    requires
        forall|i: int| p <= i < s.len() && !(first && i == p) ==> #[trigger] s[i] != ']',
        0 <= p,
    ensures
        engine::class_items(s, p, first) is Err,
    decreases s.len() - p,
{
    if p < s.len() && engine::class_char(s, p) is Ok {
        let q = engine::class_char(s, p)->Ok_0.1;
        if p < q <= s.len() {
            if engine::at(s, q, '-') && q + 1 < s.len() && s[q + 1] != ']' {
                if engine::class_char(s, q + 1) is Ok {
                    let r = engine::class_char(s, q + 1)->Ok_0.1;
                    if q < r <= s.len() {
                        lemma_open_set(s, r, false);
                    }
                }
            } else {
                lemma_open_set(s, q, false);
            }
        }
    }
}

/// A set that is not closed is refused; so are a range whose ends stand in the wrong order, an
/// escape that stands for several characters inside a set, and a backslash with nothing behind it.
pub proof fn lemma_bad_sets_are_refused(rest: Seq<char>, lo: char, hi: char, e: char)
    ensures
        (forall|i: int| 0 <= i < rest.len() ==> #[trigger] rest[i] != ']') ==> engine::pattern(
            seq!['['] + rest,
        ) is Err,
        hi < lo && lo != '\\' && lo != '^' && hi != ']' && hi != '\\' ==> engine::pattern(
            seq!['[', lo, '-', hi] + rest,
        ) is Err,
        e == 'd' || e == 'D' || e == 'w' || e == 'W' || e == 's' || e == 'S' ==> engine::pattern(
            seq!['[', '\\', e] + rest,
        ) is Err,
        engine::pattern(seq!['\\']) is Err,
{
    let open = seq!['['] + rest;
    assert(open[0] == '[');
    if forall|i: int| 0 <= i < rest.len() ==> #[trigger] rest[i] != ']' {
        assert forall|i: int| 1 <= i < open.len() implies #[trigger] open[i] != ']' by {
            assert(open[i] == rest[i - 1]);
        }
        lemma_open_set(open, 1, true);
        lemma_open_set(open, 2, true);
        assert(engine::class(open, 0) is Err);
        assert(engine::atom(open, 0) is Err);
        assert(engine::repetition(open, 0) is Err);
        lemma_bad_start(open);
    }
    if hi < lo && lo != '\\' && lo != '^' && hi != ']' && hi != '\\' {
        let s = seq!['[', lo, '-', hi] + rest;
        assert(s[0] == '[' && s[1] == lo && s[2] == '-' && s[3] == hi);
        assert(engine::class_char(s, 1) == ok(lo, 2));
        assert(engine::class_char(s, 3) == ok(hi, 4));
        assert(engine::class_items(s, 1, true) is Err);
        assert(engine::atom(s, 0) is Err);
        assert(engine::repetition(s, 0) is Err);
        lemma_bad_start(s);
    }
    if e == 'd' || e == 'D' || e == 'w' || e == 'W' || e == 's' || e == 'S' {
        let s = seq!['[', '\\', e] + rest;
        assert(s[0] == '[' && s[1] == '\\' && s[2] == e);
        assert(engine::class_char(s, 1) is Err);
        assert(engine::class_items(s, 1, true) is Err);
        assert(engine::atom(s, 0) is Err);
        assert(engine::repetition(s, 0) is Err);
        lemma_bad_start(s);
    }
    let s = seq!['\\'];
    assert(engine::atom(s, 0) is Err);
    assert(engine::repetition(s, 0) is Err);
    lemma_bad_start(s);
}

/// A pattern that is one test on a character is read as that test.
proof fn lemma_one_atom(s: Seq<char>, t: Tree)
    requires
        s.len() > 0,
        s[0] == '[',
        engine::atom(s, 0) == ok(t, s.len() as int),
    ensures
        engine::pattern(s) == Ok::<Tree, Seq<char>>(t),
{
    let n = s.len() as int;
    let none: Seq<Tree> = seq![];
    assert(engine::quantified(s, n, t) == ok(t, n));
    assert(engine::repetition(s, 0) == ok(t, n));
    assert(engine::sequence(s, n) == ok(none, n));
    assert(seq![t] + none =~= seq![t]);
    assert(engine::sequence(s, 0) == ok(seq![t], n));
    assert(engine::concatenation(s, 0) == ok(t, n));
    assert(engine::alternatives(s, n) == ok(none, n));
    lemma_alternation_step(s, 0, t, n, none, n);
}

/// In the first place of a set a closing bracket or a hyphen stands for itself, and so does a
/// circumflex in any other place.
pub proof fn lemma_marks_inside_sets(x: char, c: char)
    requires
        x != ']' && x != '\\' && x != '-' && x != '^',
    ensures
        engine::pattern(seq!['[', ']', x, ']']) matches Ok(Tree::Char(t)) && (t.accepts(c) <==> c
            == ']' || c == x),
        engine::pattern(seq!['[', '-', x, ']']) matches Ok(Tree::Char(t)) && (t.accepts(c) <==> c
            == '-' || c == x),
        engine::pattern(seq!['[', x, '^', ']']) matches Ok(Tree::Char(t)) && (t.accepts(c) <==> c
            == '^' || c == x),
{
    lemma_two_in_a_set(']', x, c);
    lemma_two_in_a_set('-', x, c);
    lemma_two_in_a_set(x, '^', c);
}

proof fn lemma_two_in_a_set(x: char, y: char, c: char)
    requires
        x != '\\' && x != '^',
        y != ']' && y != '\\' && y != '-',
    ensures
        engine::pattern(seq!['[', x, y, ']']) matches Ok(Tree::Char(t)) && (t.accepts(c) <==> c == x
            || c == y),
{
    let s = seq!['[', x, y, ']'];
    let none: Seq<(char, char)> = seq![];
    let last = seq![(y, y)];
    let both = seq![(x, x), (y, y)];
    assert(engine::class_items(s, 3, false) == ok(none, 4));
    assert(engine::class_char(s, 2) == ok(y, 3));
    assert(last + none =~= last);
    assert(engine::class_items(s, 2, false) == ok(last, 4));
    assert(engine::class_char(s, 1) == ok(x, 2));
    assert(seq![(x, x)] + last =~= both);
    assert(engine::class_items(s, 1, true) == ok(both, 4));
    let t = CharTest::Class { negated: false, ranges: both };
    assert(engine::class(s, 0) == ok(Tree::Char(t), 4));
    assert(engine::atom(s, 0) == ok(Tree::Char(t), 4));
    lemma_one_atom(s, Tree::Char(t));
    assert(both[0] == (x, x) && both[1] == (y, y));
    if c == x || c == y {
        assert(engine::in_ranges(both, c));
    }
}

proof fn lemma_amount_read(s: Seq<char>, p: int, t: Tree, u: Tree)
    requires
        0 <= p < s.len(),
        s[p] == '*' || s[p] == '+' || s[p] == '?',
        !engine::at(s, p + 1, '?'),
        u == (Tree::Repeat {
            atom: Box::new(t),
            min: if s[p] == '+' {
                1u32
            } else {
                0u32
            },
            max: if s[p] == '?' {
                Some(1u32)
            } else {
                None
            },
            greedy: true,
        }),
    ensures
        engine::quantified(s, p, t) == engine::quantified(s, p + 1, u),
{
}

proof fn lemma_one_part(s: Seq<char>, t: Tree)
    requires
        s.len() > 0,
        s[0] != '|',
        s[0] != ')',
        engine::repetition(s, 0) == ok(t, s.len() as int),
    ensures
        engine::pattern(s) == Ok::<Tree, Seq<char>>(t),
{
    let n = s.len() as int;
    let none: Seq<Tree> = seq![];
    assert(engine::sequence(s, n) == ok(none, n));
    assert(seq![t] + none =~= seq![t]);
    assert(engine::sequence(s, 0) == ok(seq![t], n));
    assert(engine::concatenation(s, 0) == ok(t, n));
    assert(engine::alternatives(s, n) == ok(none, n));
    lemma_alternation_step(s, 0, t, n, none, n);
}

/// An amount behind an amount applies to all that stands before it, as if that stood in brackets.
pub proof fn lemma_amounts_stack(x: char, m: char, n: char)
    requires
        !is_special(x),
        m == '*' || m == '+' || m == '?',
        n == '*' || n == '+',
    ensures
        engine::pattern(seq![x, m, n]) is Ok,
        engine::pattern(seq![x, m, n]) == engine::pattern(seq!['(', x, m, ')', n]),
{
    let s = seq![x, m, n];
    let g = seq!['(', x, m, ')', n];
    let a = Tree::Char(CharTest::Literal(x));
    let none: Seq<Tree> = seq![];
    let once = Tree::Repeat {
        atom: Box::new(a),
        min: if m == '+' {
            1u32
        } else {
            0u32
        },
        max: if m == '?' {
            Some(1u32)
        } else {
            None
        },
        greedy: true,
    };
    let twice = Tree::Repeat {
        atom: Box::new(once),
        min: if n == '+' {
            1u32
        } else {
            0u32
        },
        max: None,
        greedy: true,
    };
    assert(engine::atom(s, 0) == ok(a, 1));
    lemma_amount_read(s, 1, a, once);
    lemma_amount_read(s, 2, once, twice);
    assert(engine::quantified(s, 3, twice) == ok(twice, 3));
    assert(engine::repetition(s, 0) == ok(twice, 3));
    lemma_one_part(s, twice);
    assert(engine::atom(g, 1) == ok(a, 2));
    lemma_amount_read(g, 2, a, once);
    assert(engine::quantified(g, 3, once) == ok(once, 3));
    assert(engine::repetition(g, 1) == ok(once, 3));
    assert(engine::sequence(g, 3) == ok(none, 3));
    assert(seq![once] + none =~= seq![once]);
    assert(engine::sequence(g, 1) == ok(seq![once], 3));
    assert(engine::concatenation(g, 1) == ok(once, 3));
    assert(engine::alternatives(g, 3) == ok(none, 3));
    lemma_alternation_step(g, 1, once, 3, none, 3);
    assert(engine::atom(g, 0) == ok(once, 4));
    lemma_amount_read(g, 4, once, twice);
    assert(engine::quantified(g, 5, twice) == ok(twice, 5));
    assert(engine::repetition(g, 0) == ok(twice, 5));
    lemma_one_part(g, twice);
}

/// The three tests one behind the other.
proof fn lemma_three_parts(s: Seq<char>, a: Tree, b: Tree, c: Tree, q: int, r: int)
    requires
        0 < q < r < s.len(),
        s[0] != '|' && s[0] != ')',
        s[q] != '|' && s[q] != ')',
        s[r] != '|' && s[r] != ')',
        engine::repetition(s, 0) == ok(a, q),
        engine::repetition(s, q) == ok(b, r),
        engine::repetition(s, r) == ok(c, s.len() as int),
    ensures
        engine::pattern(s) == Ok::<Tree, Seq<char>>(Tree::Concat(seq![a, b, c])),
{
    let n = s.len() as int;
    let none: Seq<Tree> = seq![];
    assert(engine::sequence(s, n) == ok(none, n));
    assert(seq![c] + none =~= seq![c]);
    assert(engine::sequence(s, r) == ok(seq![c], n));
    assert(seq![b] + seq![c] =~= seq![b, c]);
    assert(engine::sequence(s, q) == ok(seq![b, c], n));
    assert(seq![a] + seq![b, c] =~= seq![a, b, c]);
    assert(engine::sequence(s, 0) == ok(seq![a, b, c], n));
    let t = Tree::Concat(seq![a, b, c]);
    assert(engine::concatenation(s, 0) == ok(t, n));
    assert(engine::alternatives(s, n) == ok(none, n));
    lemma_alternation_step(s, 0, t, n, none, n);
}

/// A brace with no number behind it is a brace, as if it stood behind a backslash.
pub proof fn lemma_lone_braces_are_braces(x: char, y: char)
    requires
        !is_special(x),
        !is_special(y),
        !('0' <= y <= '9'),
    ensures
        engine::pattern(seq![x, '{', y]) is Ok,
        engine::pattern(seq![x, '{', y]) == engine::pattern(seq![x, '\\', '{', y]),
{
    let s = seq![x, '{', y];
    let g = seq![x, '\\', '{', y];
    let a = Tree::Char(CharTest::Literal(x));
    let b = Tree::Char(CharTest::Literal('{'));
    let c = Tree::Char(CharTest::Literal(y));
    assert(engine::atom(s, 0) == ok(a, 1));
    assert(engine::digits_end(s, 2) == 2);
    assert(engine::quantified(s, 1, a) == ok(a, 1));
    assert(engine::repetition(s, 0) == ok(a, 1));
    assert(engine::atom(s, 1) == ok(b, 2));
    assert(engine::quantified(s, 2, b) == ok(b, 2));
    assert(engine::repetition(s, 1) == ok(b, 2));
    assert(engine::atom(s, 2) == ok(c, 3));
    assert(engine::quantified(s, 3, c) == ok(c, 3));
    assert(engine::repetition(s, 2) == ok(c, 3));
    lemma_three_parts(s, a, b, c, 1, 2);
    assert(engine::atom(g, 0) == ok(a, 1));
    assert(engine::quantified(g, 1, a) == ok(a, 1));
    assert(engine::repetition(g, 0) == ok(a, 1));
    assert(engine::atom(g, 1) == ok(b, 3));
    assert(engine::quantified(g, 3, b) == ok(b, 3));
    assert(engine::repetition(g, 1) == ok(b, 3));
    assert(engine::atom(g, 3) == ok(c, 4));
    assert(engine::quantified(g, 4, c) == ok(c, 4));
    assert(engine::repetition(g, 3) == ok(c, 4));
    lemma_three_parts(g, a, b, c, 1, 3);
}

}
