//! A small regular expression engine: patterns are parsed to a tree, compiled to a
//! linear program and run with backtracking. It knows what masking rules need:
//! character classes, quantifiers, groups, anchors and alternation.

use crate::text;
use vstd::prelude::*;
use vstd::string::*;
use vstd::utf8::*;

verus! {

broadcast use vstd::seq::group_seq_axioms;

/// A test on one character.
#[derive(Debug, PartialEq, Eq)]
pub enum Pred {
    Any,
    Class { negated: bool, ranges: Vec<(char, char)> },
    Literal(char),
}

/// The mathematical form of a `Pred`.
pub enum CharTest {
    Any,
    Class { negated: bool, ranges: Seq<(char, char)> },
    Literal(char),
}

/// `c` lies in one of the closed ranges.
pub open spec fn in_ranges(ranges: Seq<(char, char)>, c: char) -> bool {
    exists|i: int| 0 <= i < ranges.len() && (#[trigger] ranges[i]).0 <= c <= ranges[i].1
}

impl CharTest {
    /// The characters that pass the test; `.` passes everything but a line feed.
    pub open spec fn accepts(self, c: char) -> bool {
        match self {
            CharTest::Any => c != '\n',
            CharTest::Literal(l) => c == l,
            CharTest::Class { negated, ranges } => in_ranges(ranges, c) != negated,
        }
    }
}

impl View for Pred {
    type V = CharTest;

    open spec fn view(&self) -> CharTest {
        match *self {
            Pred::Any => CharTest::Any,
            Pred::Literal(l) => CharTest::Literal(l),
            Pred::Class { negated, ranges } => CharTest::Class { negated, ranges: ranges@ },
        }
    }
}

impl Clone for Pred {
    fn clone(&self) -> (r: Self)
        ensures
            r@ == self@,
    {
        match self {
            Pred::Any => Pred::Any,
            Pred::Literal(l) => Pred::Literal(*l),
            Pred::Class { negated, ranges } => {
                let mut copy: Vec<(char, char)> = Vec::new();
                let mut i: usize = 0;
                while i < ranges.len()
                    invariant
                        0 <= i <= ranges@.len(),
                        copy@ == ranges@.take(i as int),
                    decreases ranges@.len() - i,
                {
                    copy.push((ranges[i].0, ranges[i].1));
                    i = i + 1;
                    assert(ranges@.take(i as int) =~= ranges@.take(i - 1).push(ranges@[i - 1]));
                }
                assert(copy@ =~= ranges@);
                Pred::Class { negated: *negated, ranges: copy }
            },
        }
    }
}

impl Pred {
    /// Whether `c` passes the test.
    pub fn matches(&self, c: char) -> (r: bool)
        ensures
            r == self@.accepts(c),
    {
        match self {
            Pred::Any => c != '\n',
            Pred::Literal(l) => c == *l,
            Pred::Class { negated, ranges } => {
                let mut inside: bool = false;
                let mut i: usize = 0;
                while i < ranges.len() && !inside
                    invariant
                        0 <= i <= ranges@.len(),
                        inside ==> in_ranges(ranges@, c),
                        !inside ==> forall|k: int|
                            0 <= k < i ==> !((#[trigger] ranges@[k]).0 <= c <= ranges@[k].1),
                    decreases ranges@.len() - i, !inside as int,
                {
                    if c >= ranges[i].0 && c <= ranges[i].1 {
                        inside = true;
                        assert(ranges@[i as int].0 <= c <= ranges@[i as int].1);
                    } else {
                        i = i + 1;
                    }
                }
                inside != *negated
            },
        }
    }
}

/// A parsed pattern.
#[derive(Debug)]
pub enum Expr {
    Char(Pred),
    Start,
    End,
    Concat(Vec<Expr>),
    Alt(Vec<Expr>),
    Repeat { atom: Box<Expr>, min: u32, max: Option<u32>, greedy: bool },
}

/// The mathematical form of an `Expr`.
pub enum Tree {
    Char(CharTest),
    Start,
    End,
    Concat(Seq<Tree>),
    Alt(Seq<Tree>),
    Repeat { atom: Box<Tree>, min: u32, max: Option<u32>, greedy: bool },
}

impl Expr {
    /// The tree that the expression stands for.
    pub open spec fn tree(self) -> Tree
        decreases self,
    {
        match self {
            Expr::Char(p) => Tree::Char(p@),
            Expr::Start => Tree::Start,
            Expr::End => Tree::End,
            Expr::Concat(parts) => Tree::Concat(
                Seq::new(
                    parts@.len(),
                    |i: int|
                        if 0 <= i < parts@.len() {
                            parts[i].tree()
                        } else {
                            arbitrary()
                        },
                ),
            ),
            Expr::Alt(alts) => Tree::Alt(
                Seq::new(
                    alts@.len(),
                    |i: int|
                        if 0 <= i < alts@.len() {
                            alts[i].tree()
                        } else {
                            arbitrary()
                        },
                ),
            ),
            Expr::Repeat { atom, min, max, greedy } => Tree::Repeat {
                atom: Box::new(atom.tree()),
                min,
                max,
                greedy,
            },
        }
    }
}

/// The trees of a list of expressions.
pub open spec fn trees(es: Seq<Expr>) -> Seq<Tree> {
    Seq::new(es.len(), |i: int| es[i].tree())
}

impl Clone for Expr {
    fn clone(&self) -> (r: Self)
        ensures
            r.tree() == self.tree(),
    {
        copy_of(self)
    }
}

/// A copy of an expression.
fn copy_of(e: &Expr) -> (r: Expr)
    ensures
        r.tree() == e.tree(),
    decreases e,
{
    match e {
        Expr::Char(p) => Expr::Char(p.clone()),
        Expr::Start => Expr::Start,
        Expr::End => Expr::End,
        Expr::Concat(parts) => {
            let mut copy: Vec<Expr> = Vec::new();
            let mut i: usize = 0;
            while i < parts.len()
                invariant
                    0 <= i <= parts@.len(),
                    *e == Expr::Concat(*parts),
                    copy@.len() == i,
                    forall|k: int| 0 <= k < i ==> (#[trigger] copy@[k]).tree() == parts@[k].tree(),
                decreases parts@.len() - i,
            {
                assert(decreases_to!(*e => e->Concat_0));
                copy.push(copy_of(&parts[i]));
                i = i + 1;
            }
            let r: Expr = Expr::Concat(copy);
            assert(r.tree()->Concat_0 =~= e.tree()->Concat_0);
            r
        },
        Expr::Alt(alts) => {
            let mut copy: Vec<Expr> = Vec::new();
            let mut i: usize = 0;
            while i < alts.len()
                invariant
                    0 <= i <= alts@.len(),
                    *e == Expr::Alt(*alts),
                    copy@.len() == i,
                    forall|k: int| 0 <= k < i ==> (#[trigger] copy@[k]).tree() == alts@[k].tree(),
                decreases alts@.len() - i,
            {
                assert(decreases_to!(*e => e->Alt_0));
                copy.push(copy_of(&alts[i]));
                i = i + 1;
            }
            let r: Expr = Expr::Alt(copy);
            assert(r.tree()->Alt_0 =~= e.tree()->Alt_0);
            r
        },
        Expr::Repeat { atom, min, max, greedy } => Expr::Repeat {
            atom: Box::new(copy_of(atom)),
            min: *min,
            max: *max,
            greedy: *greedy,
        },
    }
}

/// The largest bound that a counted repetition may have.
pub const MAX_REPEAT: u32 = 64;

/// What a parsing step gives: a value with the position behind it, or an error text.
pub type Parsed<T> = Result<(T, int), Seq<char>>;

/// The character `c` stands at position `p`.
pub open spec fn at(s: Seq<char>, p: int, c: char) -> bool {
    0 <= p < s.len() && s[p] == c
}

/// The first position from `p` on that holds no digit.
pub open spec fn digits_end(s: Seq<char>, p: int) -> int
    decreases s.len() - p,
{
    if 0 <= p < s.len() && text::is_digit(s[p]) {
        digits_end(s, p + 1)
    } else {
        p
    }
}

/// The complaint about the character at position `p`.
pub open spec fn unexpected(c: char, p: int) -> Seq<char> {
    "unexpected '"@ + seq![c] + "' at "@ + text::dec(p as nat)
}

/// `r` with `front` put before the parsed items.
pub open spec fn prepend<T>(front: Seq<T>, r: Parsed<Seq<T>>) -> Parsed<Seq<T>> {
    match r {
        Ok((items, q)) => Ok((front + items, q)),
        Err(e) => Err(e),
    }
}

/// Concatenations separated by `|`.
pub open spec fn alternation(s: Seq<char>, p: int) -> Parsed<Tree>
    decreases s.len() - p, 5int,
{
    match concatenation(s, p) {
        Err(e) => Err(e),
        Ok((first, q)) => if p <= q <= s.len() {
            match prepend(seq![first], alternatives(s, q)) {
                Err(e) => Err(e),
                Ok((alts, r)) => Ok(
                    (
                        if alts.len() == 1 {
                            alts[0]
                        } else {
                            Tree::Alt(alts)
                        },
                        r,
                    ),
                ),
            }
        } else {
            Err(seq![])
        },
    }
}

/// The alternatives that follow a first one.
pub open spec fn alternatives(s: Seq<char>, p: int) -> Parsed<Seq<Tree>>
    decreases s.len() - p, 3int,
{
    if at(s, p, '|') {
        match concatenation(s, p + 1) {
            Err(e) => Err(e),
            Ok((alt, q)) => if p < q <= s.len() {
                prepend(seq![alt], alternatives(s, q))
            } else {
                Err(seq![])
            },
        }
    } else {
        Ok((seq![], p))
    }
}

/// Repeated atoms side by side.
pub open spec fn concatenation(s: Seq<char>, p: int) -> Parsed<Tree>
    decreases s.len() - p, 4int,
{
    match sequence(s, p) {
        Err(e) => Err(e),
        Ok((parts, q)) => Ok(
            (
                if parts.len() == 1 {
                    parts[0]
                } else {
                    Tree::Concat(parts)
                },
                q,
            ),
        ),
    }
}

/// The parts of a concatenation, up to `|`, `)` or the end.
pub open spec fn sequence(s: Seq<char>, p: int) -> Parsed<Seq<Tree>>
    decreases s.len() - p, 3int,
{
    if 0 <= p < s.len() && s[p] != '|' && s[p] != ')' {
        match repetition(s, p) {
            Err(e) => Err(e),
            Ok((part, q)) => if p < q <= s.len() {
                prepend(seq![part], sequence(s, q))
            } else {
                Err(seq![])
            },
        }
    } else {
        Ok((seq![], p))
    }
}

/// An atom with its quantifiers.
pub open spec fn repetition(s: Seq<char>, p: int) -> Parsed<Tree>
    decreases s.len() - p, 2int,
{
    match atom(s, p) {
        Err(e) => Err(e),
        Ok((t, q)) => quantified(s, q, t),
    }
}

/// The position behind a quantifier whose optional `?` stands at `p`.
pub open spec fn after_greediness(s: Seq<char>, p: int) -> int {
    if at(s, p, '?') {
        p + 1
    } else {
        p
    }
}

/// `t` under all the quantifiers from position `p` on.
pub open spec fn quantified(s: Seq<char>, p: int, t: Tree) -> Parsed<Tree>
    decreases s.len() - p,
{
    if at(s, p, '*') || at(s, p, '+') || at(s, p, '?') {
        let min = if s[p] == '+' {
            1u32
        } else {
            0u32
        };
        let max = if s[p] == '?' {
            Some(1u32)
        } else {
            None
        };
        quantified(
            s,
            after_greediness(s, p + 1),
            Tree::Repeat { atom: Box::new(t), min, max, greedy: !at(s, p + 1, '?') },
        )
    } else if at(s, p, '{') {
        match braces(s, p) {
            Err(e) => Err(e),
            Ok((None, _)) => Ok((t, p)),
            Ok((Some((min, max)), q)) => if p < q <= s.len() {
                quantified(
                    s,
                    after_greediness(s, q),
                    Tree::Repeat { atom: Box::new(t), min, max, greedy: !at(s, q, '?') },
                )
            } else {
                Err(seq![])
            },
        }
    } else {
        Ok((t, p))
    }
}

/// A counted repetition `{min}`, `{min,}` or `{min,max}` at position `p`;
/// what has no such form is no quantifier and is left where it stands.
pub open spec fn braces(s: Seq<char>, p: int) -> Parsed<Option<(u32, Option<u32>)>> {
    let d = digits_end(s, p + 1);
    let low = text::digits_value(s.subrange(p + 1, d));
    if d == p + 1 || low > u32::MAX {
        Ok((None, p))
    } else if at(s, d, ',') {
        let e = digits_end(s, d + 1);
        let high = text::digits_value(s.subrange(d + 1, e));
        if e == d + 1 {
            bounds(s, p, e, low as u32, None)
        } else if high > u32::MAX {
            Err("bad repeat"@)
        } else {
            bounds(s, p, e, low as u32, Some(high as u32))
        }
    } else {
        bounds(s, p, d, low as u32, Some(low as u32))
    }
}

/// The checks on the bounds of a counted repetition whose `}` is due at `e`.
pub open spec fn bounds(s: Seq<char>, p: int, e: int, min: u32, max: Option<u32>) -> Parsed<
    Option<(u32, Option<u32>)>,
> {
    if !at(s, e, '}') {
        Ok((None, p))
    } else if min > MAX_REPEAT || (max is Some && max->0 > MAX_REPEAT) {
        Err("repeat bound exceeds "@ + text::dec(MAX_REPEAT as nat))
    } else if max is Some && max->0 < min {
        Err("repeat max < min"@)
    } else {
        Ok((Some((min, max)), e + 1))
    }
}

/// A group, a class, an anchor, an escape or a plain character.
pub open spec fn atom(s: Seq<char>, p: int) -> Parsed<Tree>
    decreases s.len() - p, 1int,
{
    if !(0 <= p < s.len()) {
        Err("unexpected end of pattern"@)
    } else if s[p] == '(' {
        if at(s, p + 1, '?') {
            Err("lookaround/groups flags are not supported"@)
        } else {
            match alternation(s, p + 1) {
                Err(e) => Err(e),
                Ok((inner, q)) => if at(s, q, ')') {
                    Ok((inner, q + 1))
                } else {
                    Err("missing closing ')'"@)
                },
            }
        }
    } else if s[p] == '[' {
        class(s, p)
    } else if s[p] == '.' {
        Ok((Tree::Char(CharTest::Any), p + 1))
    } else if s[p] == '^' {
        Ok((Tree::Start, p + 1))
    } else if s[p] == '$' {
        Ok((Tree::End, p + 1))
    } else if s[p] == '\\' {
        if p + 1 < s.len() {
            Ok((Tree::Char(escaped(s[p + 1])), p + 2))
        } else {
            Err("dangling escape"@)
        }
    } else if s[p] == ')' || s[p] == '|' || s[p] == '*' || s[p] == '+' || s[p] == '?' {
        Err(unexpected(s[p], p))
    } else {
        Ok((Tree::Char(CharTest::Literal(s[p])), p + 1))
    }
}

/// A bracketed class whose `[` stands at `p`.
pub open spec fn class(s: Seq<char>, p: int) -> Parsed<Tree> {
    let negated = at(s, p + 1, '^');
    let start = if negated {
        p + 2
    } else {
        p + 1
    };
    match class_items(s, start, true) {
        Err(e) => Err(e),
        Ok((ranges, q)) => Ok((Tree::Char(CharTest::Class { negated, ranges }), q)),
    }
}

/// The ranges of a class, up to its `]`; a `]` in the first place is an ordinary character.
pub open spec fn class_items(s: Seq<char>, p: int, first: bool) -> Parsed<Seq<(char, char)>>
    decreases s.len() - p,
{
    if !(0 <= p < s.len()) {
        Err("unterminated character class"@)
    } else if s[p] == ']' && !first {
        Ok((seq![], p + 1))
    } else {
        match class_char(s, p) {
            Err(e) => Err(e),
            Ok((lo, q)) => if !(p < q <= s.len()) {
                Err(seq![])
            } else if at(s, q, '-') && q + 1 < s.len() && s[q + 1] != ']' {
                match class_char(s, q + 1) {
                    Err(e) => Err(e),
                    Ok((hi, r)) => if hi < lo {
                        Err("character range reversed"@)
                    } else if q < r <= s.len() {
                        prepend(seq![(lo, hi)], class_items(s, r, false))
                    } else {
                        Err(seq![])
                    },
                }
            } else {
                prepend(seq![(lo, lo)], class_items(s, q, false))
            },
        }
    }
}

/// One character of a class, plain or escaped.
pub open spec fn class_char(s: Seq<char>, p: int) -> Parsed<char> {
    if s[p] != '\\' {
        Ok((s[p], p + 1))
    } else if p + 1 >= s.len() {
        Err("dangling escape in class"@)
    } else {
        match class_escaped(s[p + 1]) {
            Err(e) => Err(e),
            Ok(c) => Ok((c, p + 2)),
        }
    }
}

/// The character that an escape inside a class denotes.
pub open spec fn class_escaped(c: char) -> Result<char, Seq<char>> {
    if c == 'n' {
        Ok('\n')
    } else if c == 'r' {
        Ok('\r')
    } else if c == 't' {
        Ok('\t')
    } else if c == 'd' || c == 'D' || c == 'w' || c == 'W' || c == 's' || c == 'S' {
        Err("shorthand classes not supported inside explicit classes; list the ranges"@)
    } else {
        Ok(c)
    }
}

/// The test that an escape outside a class denotes.
pub open spec fn escaped(c: char) -> CharTest {
    let digits = seq![('0', '9')];
    let word = seq![('a', 'z'), ('A', 'Z'), ('0', '9'), ('_', '_')];
    let space = seq![(' ', ' '), ('\t', '\t'), ('\n', '\n'), ('\r', '\r')];
    if c == 'd' || c == 'D' {
        CharTest::Class { negated: c == 'D', ranges: digits }
    } else if c == 'w' || c == 'W' {
        CharTest::Class { negated: c == 'W', ranges: word }
    } else if c == 's' || c == 'S' {
        CharTest::Class { negated: c == 'S', ranges: space }
    } else if c == 'n' {
        CharTest::Literal('\n')
    } else if c == 'r' {
        CharTest::Literal('\r')
    } else if c == 't' {
        CharTest::Literal('\t')
    } else {
        CharTest::Literal(c)
    }
}

/// The tree of a whole pattern.
pub open spec fn pattern(s: Seq<char>) -> Result<Tree, Seq<char>> {
    match alternation(s, 0) {
        Err(e) => Err(e),
        Ok((t, p)) => if p == s.len() {
            Ok(t)
        } else {
            Err(unexpected(s[p], p))
        },
    }
}

/// Every counted repetition has bounds in order.
pub open spec fn well_formed(t: Tree) -> bool
    decreases t,
{
    match t {
        Tree::Concat(ts) => forall|i: int| 0 <= i < ts.len() ==> well_formed(#[trigger] ts[i]),
        Tree::Alt(ts) => forall|i: int| 0 <= i < ts.len() ==> well_formed(#[trigger] ts[i]),
        Tree::Repeat { atom, min, max, .. } => {
            &&& well_formed(*atom)
            &&& max is Some ==> min <= max->0
        },
        _ => true,
    }
}

/// Every tree of a list is well-formed.
pub open spec fn all_well_formed(ts: Seq<Tree>) -> bool {
    forall|i: int| 0 <= i < ts.len() ==> well_formed(#[trigger] ts[i])
}

proof fn lemma_prepend_twice<T>(a: Seq<T>, b: Seq<T>, r: Parsed<Seq<T>>)
    ensures
        prepend(a, prepend(b, r)) == prepend(a + b, r),
{
    if let Ok((items, _)) = r {
        assert(a + (b + items) =~= (a + b) + items);
    }
}

proof fn lemma_prepend_nothing<T>(r: Parsed<Seq<T>>)
    ensures
        prepend(Seq::empty(), r) == r,
{
    if let Ok((items, _)) = r {
        assert(Seq::<T>::empty() + items =~= items);
    }
}

proof fn lemma_trees_push(es: Seq<Expr>, e: Expr)
    ensures
        trees(es.push(e)) == trees(es) + seq![e.tree()],
{
    assert(trees(es.push(e)) =~= trees(es) + seq![e.tree()]);
}

/// `r` is what `spec` says, and `pos` the position behind it.
spec fn gives(r: Result<Expr, String>, pos: int, spec: Parsed<Tree>) -> bool {
    match spec {
        Ok((t, q)) => r is Ok && r->Ok_0.tree() == t && well_formed(t) && pos == q,
        Err(e) => r is Err && r->Err_0@ == e,
    }
}

struct Parser {
    chars: Vec<char>,
    pos: usize,
}

impl Parser {
    spec fn ready(self) -> bool {
        self.pos <= self.chars@.len() <= usize::MAX
    }

    fn peek(&self) -> (r: Option<char>)
        ensures
            r == if self.pos < self.chars@.len() {
                Some(self.chars@[self.pos as int])
            } else {
                None
            },
    {
        if self.pos < self.chars.len() {
            Some(self.chars[self.pos])
        } else {
            None
        }
    }

    fn looks_at(&self, c: char) -> (r: bool)
        ensures
            r == at(self.chars@, self.pos as int, c),
    {
        self.pos < self.chars.len() && self.chars[self.pos] == c
    }

    fn parse_alternation(&mut self) -> (r: Result<Expr, String>)
        requires
            old(self).ready(),
        ensures
            final(self).ready(),
            final(self).chars@ == old(self).chars@,
            gives(r, final(self).pos as int, alternation(old(self).chars@, old(self).pos as int)),
            r is Ok ==> old(self).pos <= final(self).pos,
        decreases old(self).chars@.len() - old(self).pos, 5int,
    {
        let ghost s = self.chars@;
        let ghost p = self.pos as int;
        let first = match self.parse_concat() {
            Ok(e) => e,
            Err(e) => {
                return Err(e);
            },
        };
        let ghost q = self.pos as int;
        let ghost t = first.tree();
        let mut alts: Vec<Expr> = Vec::new();
        alts.push(first);
        proof {
            assert(trees(alts@) =~= seq![t]);
        }
        while self.looks_at('|')
            invariant
                self.ready(),
                self.chars@ == s,
                p <= q <= self.pos,
                p == old(self).pos,
                s == old(self).chars@,
                concatenation(s, p) == Ok::<(Tree, int), Seq<char>>((t, q)),
                alts@.len() >= 1,
                all_well_formed(trees(alts@)),
                prepend(seq![t], alternatives(s, q)) == prepend(
                    trees(alts@),
                    alternatives(s, self.pos as int),
                ),
            decreases s.len() - self.pos,
        {
            let ghost before = self.pos as int;
            self.pos = self.pos + 1;
            let ghost done = alts@;
            match self.parse_concat() {
                Ok(e) => {
                    proof {
                        lemma_trees_push(done, e);
                        lemma_prepend_twice(
                            trees(done),
                            seq![e.tree()],
                            alternatives(s, self.pos as int),
                        );
                    }
                    alts.push(e);
                },
                Err(e) => {
                    return Err(e);
                },
            }
        }
        proof {
            assert(trees(alts@) + Seq::<Tree>::empty() =~= trees(alts@));
        }
        if alts.len() == 1 {
            let ghost only = alts@[0];
            proof {
                assert(trees(alts@)[0] == only.tree());
            }
            Ok(alts.remove(0))
        } else {
            let ghost all = alts@;
            let e = Expr::Alt(alts);
            proof {
                assert(e.tree()->Alt_0 =~= trees(all));
            }
            Ok(e)
        }
    }

    fn parse_concat(&mut self) -> (r: Result<Expr, String>)
        requires
            old(self).ready(),
        ensures
            final(self).ready(),
            final(self).chars@ == old(self).chars@,
            gives(r, final(self).pos as int, concatenation(old(self).chars@, old(self).pos as int)),
            r is Ok ==> old(self).pos <= final(self).pos,
        decreases old(self).chars@.len() - old(self).pos, 4int,
    {
        let ghost s = self.chars@;
        let ghost p = self.pos as int;
        let mut parts: Vec<Expr> = Vec::new();
        proof {
            assert(trees(parts@) =~= Seq::empty());
            lemma_prepend_nothing(sequence(s, p));
        }
        while self.pos < self.chars.len() && !self.looks_at('|') && !self.looks_at(')')
            invariant
                self.ready(),
                self.chars@ == s,
                p <= self.pos,
                p == old(self).pos,
                s == old(self).chars@,
                all_well_formed(trees(parts@)),
                sequence(s, p) == prepend(trees(parts@), sequence(s, self.pos as int)),
            decreases s.len() - self.pos,
        {
            let ghost done = parts@;
            match self.parse_repeat() {
                Ok(e) => {
                    proof {
                        lemma_trees_push(done, e);
                        lemma_prepend_twice(
                            trees(done),
                            seq![e.tree()],
                            sequence(s, self.pos as int),
                        );
                    }
                    parts.push(e);
                },
                Err(e) => {
                    return Err(e);
                },
            }
        }
        proof {
            assert(trees(parts@) + Seq::<Tree>::empty() =~= trees(parts@));
        }
        if parts.len() == 1 {
            proof {
                assert(trees(parts@)[0] == parts@[0].tree());
            }
            Ok(parts.remove(0))
        } else {
            let ghost all = parts@;
            let e = Expr::Concat(parts);
            proof {
                assert(e.tree()->Concat_0 =~= trees(all));
            }
            Ok(e)
        }
    }

    fn parse_repeat(&mut self) -> (r: Result<Expr, String>)
        requires
            old(self).ready(),
        ensures
            final(self).ready(),
            final(self).chars@ == old(self).chars@,
            gives(r, final(self).pos as int, repetition(old(self).chars@, old(self).pos as int)),
            r is Ok ==> old(self).pos < final(self).pos,
        decreases old(self).chars@.len() - old(self).pos, 2int,
    {
        let ghost s = self.chars@;
        let ghost p = self.pos as int;
        let mut expr = match self.parse_atom() {
            Ok(e) => e,
            Err(e) => {
                return Err(e);
            },
        };
        while self.pos < self.chars.len()
            invariant
                self.ready(),
                self.chars@ == s,
                p < self.pos,
                p == old(self).pos,
                s == old(self).chars@,
                well_formed(expr.tree()),
                repetition(s, p) == quantified(s, self.pos as int, expr.tree()),
            decreases s.len() - self.pos,
        {
            let c: char = self.chars[self.pos];
            if c == '*' || c == '+' || c == '?' {
                self.pos = self.pos + 1;
                let min: u32 = if c == '+' {
                    1
                } else {
                    0
                };
                let max: Option<u32> = if c == '?' {
                    Some(1)
                } else {
                    None
                };
                let greedy: bool = self.parse_greediness();
                expr = Expr::Repeat { atom: Box::new(expr), min, max, greedy };
            } else if c == '{' {
                match self.try_parse_braces() {
                    Err(e) => {
                        return Err(e);
                    },
                    Ok(None) => {
                        return Ok(expr);
                    },
                    Ok(Some((min, max))) => {
                        let greedy: bool = self.parse_greediness();
                        expr = Expr::Repeat { atom: Box::new(expr), min, max, greedy };
                    },
                }
            } else {
                return Ok(expr);
            }
        }
        Ok(expr)
    }

    fn parse_greediness(&mut self) -> (r: bool)
        requires
            old(self).ready(),
        ensures
            final(self).ready(),
            final(self).chars@ == old(self).chars@,
            r == !at(old(self).chars@, old(self).pos as int, '?'),
            final(self).pos == after_greediness(old(self).chars@, old(self).pos as int),
    {
        if self.looks_at('?') {
            self.pos = self.pos + 1;
            false
        } else {
            true
        }
    }

    /// Consumes a run of digits; its number, if there is one that fits 32 bits.
    fn parse_digits(&mut self) -> (r: Option<u32>)
        requires
            old(self).ready(),
        ensures
            final(self).ready(),
            final(self).chars@ == old(self).chars@,
            old(self).pos <= final(self).pos,
            final(self).pos == digits_end(old(self).chars@, old(self).pos as int),
            ({
                let run = old(self).chars@.subrange(old(self).pos as int, final(self).pos as int);
                r == if run.len() > 0 && text::digits_value(run) <= u32::MAX {
                    Some(text::digits_value(run) as u32)
                } else {
                    None
                }
            }),
    {
        let start: usize = self.pos;
        let ghost s = self.chars@;
        while self.pos < self.chars.len() && '0' <= self.chars[self.pos] && self.chars[self.pos]
            <= '9'
            invariant
                self.ready(),
                self.chars@ == s,
                start <= self.pos,
                digits_end(s, start as int) == digits_end(s, self.pos as int),
                text::all_digits(s.subrange(start as int, self.pos as int)),
            decreases s.len() - self.pos,
        {
            self.pos = self.pos + 1;
            assert(s.subrange(start as int, self.pos as int) =~= s.subrange(
                start as int,
                self.pos - 1,
            ).push(s[self.pos - 1]));
        }
        if start == self.pos {
            return None;
        }
        let run: &[char] = vstd::slice::slice_subrange(self.chars.as_slice(), start, self.pos);
        match text::digits_up_to(run, u32::MAX as u64) {
            Some(v) => Some(v as u32),
            None => None,
        }
    }

    fn try_parse_braces(&mut self) -> (r: Result<Option<(u32, Option<u32>)>, String>)
        requires
            old(self).ready(),
            at(old(self).chars@, old(self).pos as int, '{'),
        ensures
            final(self).ready(),
            final(self).chars@ == old(self).chars@,
            match braces(old(self).chars@, old(self).pos as int) {
                Ok((found, q)) => r == Ok::<Option<(u32, Option<u32>)>, String>(found)
                    && final(self).pos == q,
                Err(e) => r is Err && r->Err_0@ == e,
            },
            r matches Ok(Some((min, max))) ==> old(self).pos < final(self).pos && (max is Some ==> min
                <= max->0),
    {
        let save: usize = self.pos;
        self.pos = self.pos + 1;
        let min: u32 = match self.parse_digits() {
            Some(v) => v,
            None => {
                self.pos = save;
                return Ok(None);
            },
        };
        let max: Option<u32> = if self.looks_at(',') {
            self.pos = self.pos + 1;
            let from: usize = self.pos;
            match self.parse_digits() {
                Some(v) => Some(v),
                None => if self.pos == from {
                    None
                } else {
                    return Err("bad repeat".to_string());
                },
            }
        } else {
            Some(min)
        };
        if !self.looks_at('}') {
            self.pos = save;
            return Ok(None);
        }
        self.pos = self.pos + 1;
        let too_large: bool = match max {
            Some(m) => m > MAX_REPEAT,
            None => false,
        };
        if min > MAX_REPEAT || too_large {
            let mut message: String = "repeat bound exceeds ".to_string();
            text::push_decimal(&mut message, MAX_REPEAT as u64);
            return Err(message);
        }
        if let Some(m) = max {
            if m < min {
                return Err("repeat max < min".to_string());
            }
        }
        Ok(Some((min, max)))
    }

    fn parse_atom(&mut self) -> (r: Result<Expr, String>)
        requires
            old(self).ready(),
        ensures
            final(self).ready(),
            final(self).chars@ == old(self).chars@,
            gives(r, final(self).pos as int, atom(old(self).chars@, old(self).pos as int)),
            r is Ok ==> old(self).pos < final(self).pos,
        decreases old(self).chars@.len() - old(self).pos, 1int,
    {
        let c: char = match self.peek() {
            Some(c) => c,
            None => {
                return Err("unexpected end of pattern".to_string());
            },
        };
        if c == '(' {
            self.pos = self.pos + 1;
            if self.looks_at('?') {
                return Err("lookaround/groups flags are not supported".to_string());
            }
            match self.parse_alternation() {
                Ok(inner) => {
                    if !self.looks_at(')') {
                        return Err("missing closing ')'".to_string());
                    }
                    self.pos = self.pos + 1;
                    Ok(inner)
                },
                Err(e) => Err(e),
            }
        } else if c == '[' {
            self.parse_class()
        } else if c == '.' {
            self.pos = self.pos + 1;
            let e: Expr = Expr::Char(Pred::Any);
            assert(e.tree() == Tree::Char(CharTest::Any));
            Ok(e)
        } else if c == '^' {
            self.pos = self.pos + 1;
            let e: Expr = Expr::Start;
            assert(e.tree() == Tree::Start);
            Ok(e)
        } else if c == '$' {
            self.pos = self.pos + 1;
            let e: Expr = Expr::End;
            assert(e.tree() == Tree::End);
            Ok(e)
        } else if c == '\\' {
            self.pos = self.pos + 1;
            match self.peek() {
                Some(e) => {
                    self.pos = self.pos + 1;
                    Ok(escape_expr(e))
                },
                None => Err("dangling escape".to_string()),
            }
        } else if c == ')' || c == '|' || c == '*' || c == '+' || c == '?' {
            Err(unexpected_at(c, self.pos))
        } else {
            self.pos = self.pos + 1;
            Ok(literal_expr(c))
        }
    }

    /// One character of a class, plain or escaped.
    fn parse_class_char(&mut self) -> (r: Result<char, String>)
        requires
            old(self).ready(),
            old(self).pos < old(self).chars@.len(),
        ensures
            final(self).ready(),
            final(self).chars@ == old(self).chars@,
            match class_char(old(self).chars@, old(self).pos as int) {
                Ok((c, q)) => r == Ok::<char, String>(c) && final(self).pos == q && q > old(
                    self,
                ).pos,
                Err(e) => r is Err && r->Err_0@ == e,
            },
    {
        let c: char = self.chars[self.pos];
        self.pos = self.pos + 1;
        if c != '\\' {
            return Ok(c);
        }
        match self.peek() {
            Some(e) => {
                self.pos = self.pos + 1;
                class_escape(e)
            },
            None => Err("dangling escape in class".to_string()),
        }
    }

    fn parse_class(&mut self) -> (r: Result<Expr, String>)
        requires
            old(self).ready(),
            at(old(self).chars@, old(self).pos as int, '['),
        ensures
            final(self).ready(),
            final(self).chars@ == old(self).chars@,
            gives(r, final(self).pos as int, class(old(self).chars@, old(self).pos as int)),
            r is Ok ==> old(self).pos < final(self).pos,
    {
        let ghost s = self.chars@;
        self.pos = self.pos + 1;
        let negated: bool = self.looks_at('^');
        if negated {
            self.pos = self.pos + 1;
        }
        let ghost start = self.pos as int;
        let mut ranges: Vec<(char, char)> = Vec::new();
        let mut first: bool = true;
        proof {
            lemma_prepend_nothing(class_items(s, start, true));
        }
        while self.pos < self.chars.len()
            invariant
                self.ready(),
                self.chars@ == s,
                old(self).pos < start <= self.pos,
                s == old(self).chars@,
                class(s, old(self).pos as int) == match class_items(s, start, true) {
                    Err(e) => Err::<(Tree, int), Seq<char>>(e),
                    Ok((rs, q)) => Ok((Tree::Char(CharTest::Class { negated, ranges: rs }), q)),
                },
                class_items(s, start, true) == prepend(
                    ranges@,
                    class_items(s, self.pos as int, first),
                ),
            decreases s.len() - self.pos,
        {
            let ghost here = self.pos as int;
            let ghost done = ranges@;
            if self.chars[self.pos] == ']' && !first {
                self.pos = self.pos + 1;
                proof {
                    assert(ranges@ + Seq::<(char, char)>::empty() =~= ranges@);
                }
                return Ok(Expr::Char(Pred::Class { negated, ranges }));
            }
            let ghost was_first = first;
            first = false;
            let lo: char = match self.parse_class_char() {
                Ok(c) => c,
                Err(e) => {
                    return Err(e);
                },
            };
            let ghost q = self.pos as int;
            if self.looks_at('-') && self.pos + 1 < self.chars.len() && self.chars[self.pos + 1]
                != ']' {
                self.pos = self.pos + 1;
                let hi: char = match self.parse_class_char() {
                    Ok(c) => c,
                    Err(e) => {
                        return Err(e);
                    },
                };
                if hi < lo {
                    return Err("character range reversed".to_string());
                }
                proof {
                    lemma_prepend_twice(
                        done,
                        seq![(lo, hi)],
                        class_items(s, self.pos as int, false),
                    );
                    assert(done.push((lo, hi)) =~= done + seq![(lo, hi)]);
                }
                ranges.push((lo, hi));
            } else {
                proof {
                    lemma_prepend_twice(done, seq![(lo, lo)], class_items(s, q, false));
                    assert(done.push((lo, lo)) =~= done + seq![(lo, lo)]);
                }
                ranges.push((lo, lo));
            }
        }
        Err("unterminated character class".to_string())
    }
}

fn unexpected_at(c: char, pos: usize) -> (r: String)
    ensures
        r@ == unexpected(c, pos as int),
{
    let mut message: String = "unexpected '".to_string();
    message.push(c);
    message.append("' at ");
    text::push_decimal(&mut message, pos as u64);
    proof {
        assert(message@ =~= unexpected(c, pos as int));
    }
    message
}

fn class_escape(c: char) -> (r: Result<char, String>)
    ensures
        match class_escaped(c) {
            Ok(d) => r == Ok::<char, String>(d),
            Err(e) => r is Err && r->Err_0@ == e,
        },
{
    if c == 'n' {
        Ok('\n')
    } else if c == 'r' {
        Ok('\r')
    } else if c == 't' {
        Ok('\t')
    } else if c == 'd' || c == 'D' || c == 'w' || c == 'W' || c == 's' || c == 'S' {
        Err(
            "shorthand classes not supported inside explicit classes; list the ranges".to_string(),
        )
    } else {
        Ok(c)
    }
}

fn literal_expr(c: char) -> (r: Expr)
    ensures
        r.tree() == Tree::Char(CharTest::Literal(c)),
{
    Expr::Char(Pred::Literal(c))
}

fn escape_expr(c: char) -> (r: Expr)
    ensures
        r.tree() == Tree::Char(escaped(c)),
{
    let test: Pred = if c == 'd' || c == 'D' {
        Pred::Class { negated: c == 'D', ranges: vec![('0', '9')] }
    } else if c == 'w' || c == 'W' {
        Pred::Class {
            negated: c == 'W',
            ranges: vec![('a', 'z'), ('A', 'Z'), ('0', '9'), ('_', '_')],
        }
    } else if c == 's' || c == 'S' {
        Pred::Class {
            negated: c == 'S',
            ranges: vec![(' ', ' '), ('\t', '\t'), ('\n', '\n'), ('\r', '\r')],
        }
    } else if c == 'n' {
        Pred::Literal('\n')
    } else if c == 'r' {
        Pred::Literal('\r')
    } else if c == 't' {
        Pred::Literal('\t')
    } else {
        Pred::Literal(c)
    };
    proof {
        if let CharTest::Class { ranges, .. } = test@ {
            assert(ranges =~= escaped(c)->ranges);
        }
        assert(test@ == escaped(c));
    }
    Expr::Char(test)
}

/// Parses a pattern.
pub fn parse(pattern: &str) -> (r: Result<Expr, String>)
    ensures
        match self::pattern(pattern@) {
            Ok(t) => r is Ok && r->Ok_0.tree() == t && well_formed(t),
            Err(e) => r is Err && r->Err_0@ == e,
        },
{
    let chars: Vec<char> = text::chars_of(pattern);
    assert(chars.len() <= usize::MAX);
    let mut p: Parser = Parser { chars, pos: 0 };
    let expr = match p.parse_alternation() {
        Ok(e) => e,
        Err(e) => {
            return Err(e);
        },
    };
    if p.pos != p.chars.len() {
        return Err(unexpected_at(p.chars[p.pos], p.pos));
    }
    Ok(expr)
}
/// One instruction of a compiled pattern.
#[derive(Debug, Clone, PartialEq, Eq)]
pub enum Op {
    Char(Pred),
    Start,
    End,
    Jump(usize),
    Split(usize, usize),
    Match,
}

/// The mathematical form of an `Op`.
pub enum Step {
    Char(CharTest),
    Start,
    End,
    Jump(int),
    Split(int, int),
    Match,
}

impl View for Op {
    type V = Step;

    open spec fn view(&self) -> Step {
        match *self {
            Op::Char(p) => Step::Char(p@),
            Op::Start => Step::Start,
            Op::End => Step::End,
            Op::Jump(t) => Step::Jump(t as int),
            Op::Split(a, b) => Step::Split(a as int, b as int),
            Op::Match => Step::Match,
        }
    }
}

/// The steps of a list of instructions.
pub open spec fn steps(ops: Seq<Op>) -> Seq<Step> {
    Seq::new(ops.len(), |i: int| ops[i]@)
}

/// A compiled pattern.
#[derive(Debug, Clone)]
pub struct Program {
    pub ops: Vec<Op>,
}

impl View for Program {
    type V = Seq<Step>;

    open spec fn view(&self) -> Seq<Step> {
        steps(self.ops@)
    }
}

/// Every instruction leads to another one, so that a run never leaves the program.
pub open spec fn closed(code: Seq<Step>) -> bool {
    &&& code.len() > 0
    &&& forall|pc: int|
        0 <= pc < code.len() ==> match #[trigger] code[pc] {
            Step::Jump(t) => 0 <= t < code.len(),
            Step::Split(a, b) => 0 <= a < code.len() && 0 <= b < code.len(),
            Step::Match => true,
            _ => pc + 1 < code.len(),
        }
}

/// How many instructions a tree takes.
pub open spec fn size(t: Tree) -> nat
    decreases t, 0int,
{
    match t {
        Tree::Concat(ts) => size_of_first(ts, ts.len() as int),
        Tree::Alt(ts) => alt_size(ts, ts.len() as int),
        Tree::Repeat { atom, min, max, .. } => match max {
            Some(m) => min as nat * size(*atom) + ((if m > min {
                m - min
            } else {
                0
            }) as nat) * (size(*atom) + 1),
            None => min as nat * size(*atom) + size(*atom) + 2,
        },
        _ => 1,
    }
}

/// How many instructions the first `n` parts of a concatenation take.
pub open spec fn size_of_first(ts: Seq<Tree>, n: int) -> nat
    decreases ts, n,
{
    if 0 < n <= ts.len() {
        size_of_first(ts, n - 1) + size(ts[n - 1])
    } else {
        0
    }
}

/// How many instructions the first `n` alternatives take.
pub open spec fn alt_size(ts: Seq<Tree>, n: int) -> nat
    decreases ts, n,
{
    if 0 < n <= ts.len() {
        alt_size(ts, n - 1) + size(ts[n - 1]) + if n < ts.len() {
            2nat
        } else {
            0nat
        }
    } else {
        0
    }
}

/// The instructions of a tree that stand from index `base` on.
pub open spec fn code(t: Tree, base: int) -> Seq<Step>
    decreases t, 0int, 0int,
{
    match t {
        Tree::Char(k) => seq![Step::Char(k)],
        Tree::Start => seq![Step::Start],
        Tree::End => seq![Step::End],
        Tree::Concat(ts) => concat_code(ts, ts.len() as int, base),
        Tree::Alt(ts) => alt_code(
            ts,
            ts.len() as int,
            base,
            base + alt_size(ts, ts.len() as int),
        ),
        Tree::Repeat { atom, min, max, greedy } => {
            let head = copies(*atom, min as int, base);
            let from = base + head.len();
            match max {
                Some(m) => head + options(*atom, m - min, from, greedy),
                None => head + seq![fork(greedy, from + 1, from + size(*atom) + 2)] + code(
                    *atom,
                    from + 1,
                ) + seq![Step::Jump(from)],
            }
        },
    }
}

/// A choice between going into a body and going past it; the preferred way comes first.
pub open spec fn fork(greedy: bool, body: int, past: int) -> Step {
    if greedy {
        Step::Split(body, past)
    } else {
        Step::Split(past, body)
    }
}

/// The first `n` parts of a concatenation, one behind the other.
pub open spec fn concat_code(ts: Seq<Tree>, n: int, base: int) -> Seq<Step>
    decreases ts, n, 0int,
{
    if 0 < n <= ts.len() {
        concat_code(ts, n - 1, base) + code(ts[n - 1], base + size_of_first(ts, n - 1))
    } else {
        seq![]
    }
}

/// The first `n` alternatives: each but the last is a body that may be skipped and
/// that ends in a jump behind the last one.
pub open spec fn alt_code(ts: Seq<Tree>, n: int, base: int, end: int) -> Seq<Step>
    decreases ts, n, 0int,
{
    if 0 < n <= ts.len() {
        let front = alt_code(ts, n - 1, base, end);
        let here = base + alt_size(ts, n - 1);
        if n < ts.len() {
            front + seq![Step::Split(here + 1, here + size(ts[n - 1]) + 2)] + code(
                ts[n - 1],
                here + 1,
            ) + seq![Step::Jump(end)]
        } else {
            front + code(ts[n - 1], here)
        }
    } else {
        seq![]
    }
}

/// `n` copies of a tree, one behind the other.
pub open spec fn copies(t: Tree, n: int, base: int) -> Seq<Step>
    decreases t, 1int, n,
{
    if n > 0 {
        copies(t, n - 1, base) + code(t, base + (n - 1) * size(t))
    } else {
        seq![]
    }
}

/// `n` copies of a tree that may each be skipped.
pub open spec fn options(t: Tree, n: int, base: int, greedy: bool) -> Seq<Step>
    decreases t, 1int, n,
{
    if n > 0 {
        let here = base + (n - 1) * (size(t) + 1);
        options(t, n - 1, base, greedy) + seq![fork(greedy, here + 1, here + size(t) + 1)] + code(
            t,
            here + 1,
        )
    } else {
        seq![]
    }
}

/// The code of a tree is as long as its size, wherever it stands.
pub proof fn lemma_code_len(t: Tree, base: int)
    ensures
        code(t, base).len() == size(t),
    decreases t, 0int, 0int,
{
    match t {
        Tree::Concat(ts) => {
            lemma_concat_code_len(ts, ts.len() as int, base);
        },
        Tree::Alt(ts) => {
            lemma_alt_code_len(ts, ts.len() as int, base, base + alt_size(ts, ts.len() as int));
        },
        Tree::Repeat { atom, min, max, greedy } => {
            lemma_copies_len(*atom, min as int, base);
            let from = base + copies(*atom, min as int, base).len();
            match max {
                Some(m) => {
                    lemma_options_len(*atom, m - min, from, greedy);
                },
                None => {
                    lemma_code_len(*atom, from + 1);
                },
            }
        },
        _ => {},
    }
}

pub proof fn lemma_concat_code_len(ts: Seq<Tree>, n: int, base: int)
    ensures
        concat_code(ts, n, base).len() == size_of_first(ts, n),
    decreases ts, n, 0int,
{
    if 0 < n <= ts.len() {
        lemma_concat_code_len(ts, n - 1, base);
        lemma_code_len(ts[n - 1], base + size_of_first(ts, n - 1));
    }
}

pub proof fn lemma_alt_code_len(ts: Seq<Tree>, n: int, base: int, end: int)
    ensures
        alt_code(ts, n, base, end).len() == alt_size(ts, n),
    decreases ts, n, 0int,
{
    if 0 < n <= ts.len() {
        lemma_alt_code_len(ts, n - 1, base, end);
        let here = base + alt_size(ts, n - 1);
        lemma_code_len(ts[n - 1], here + 1);
        lemma_code_len(ts[n - 1], here);
    }
}

pub proof fn lemma_copies_len(t: Tree, n: int, base: int)
    ensures
        copies(t, n, base).len() == (if n > 0 {
            n
        } else {
            0
        }) * size(t),
    decreases t, 1int, n,
{
    if n > 0 {
        lemma_copies_len(t, n - 1, base);
        lemma_code_len(t, base + (n - 1) * size(t));
        assert(n * size(t) == (n - 1) * size(t) + size(t)) by (nonlinear_arith);
    } else {
        assert(0 * size(t) == 0) by (nonlinear_arith);
    }
}

pub proof fn lemma_options_len(t: Tree, n: int, base: int, greedy: bool)
    ensures
        options(t, n, base, greedy).len() == (if n > 0 {
            n
        } else {
            0
        }) * (size(t) + 1),
    decreases t, 1int, n,
{
    if n > 0 {
        lemma_options_len(t, n - 1, base, greedy);
        lemma_code_len(t, base + (n - 1) * (size(t) + 1) + 1);
        assert(n * (size(t) + 1) == (n - 1) * (size(t) + 1) + size(t) + 1) by (nonlinear_arith);
    } else {
        assert(0 * (size(t) + 1) == 0) by (nonlinear_arith);
    }
}

/// The index of the jump that ends alternative `k`.
spec fn jump_at(ts: Seq<Tree>, k: int, base: int) -> int {
    base + alt_size(ts, k + 1) - 1
}

/// Alternatives aimed at `e1` and at `e2` differ in the jumps at their ends, and nowhere else.
proof fn lemma_alt_retarget(ts: Seq<Tree>, n: int, base: int, e1: int, e2: int)
    requires
        0 <= n <= ts.len(),
    ensures
        alt_code(ts, n, base, e1).len() == alt_size(ts, n),
        alt_code(ts, n, base, e2).len() == alt_size(ts, n),
        forall|k: int|
            0 <= k < n && k + 1 < ts.len() ==> base <= #[trigger] jump_at(ts, k, base) < base
                + alt_size(ts, n) && alt_code(ts, n, base, e2)[jump_at(ts, k, base) - base]
                == Step::Jump(e2),
        forall|i: int|
            0 <= i < alt_size(ts, n) ==> #[trigger] alt_code(ts, n, base, e2)[i] == alt_code(
                ts,
                n,
                base,
                e1,
            )[i] || exists|k: int|
                0 <= k < n && k + 1 < ts.len() && #[trigger] jump_at(ts, k, base) == base + i,
    decreases n,
{
    lemma_alt_code_len(ts, n, base, e1);
    lemma_alt_code_len(ts, n, base, e2);
    if n > 0 {
        lemma_alt_retarget(ts, n - 1, base, e1, e2);
        lemma_alt_code_len(ts, n - 1, base, e1);
        lemma_alt_code_len(ts, n - 1, base, e2);
        let here = base + alt_size(ts, n - 1);
        lemma_code_len(ts[n - 1], here + 1);
        lemma_code_len(ts[n - 1], here);
        let old1 = alt_code(ts, n - 1, base, e1);
        let old2 = alt_code(ts, n - 1, base, e2);
        let new1 = alt_code(ts, n, base, e1);
        let new2 = alt_code(ts, n, base, e2);
        assert forall|k: int| 0 <= k < n && k + 1 < ts.len() implies base <= #[trigger] jump_at(
            ts,
            k,
            base,
        ) < base + alt_size(ts, n) && new2[jump_at(ts, k, base) - base] == Step::Jump(e2) by {
            if k < n - 1 {
                assert(new2[jump_at(ts, k, base) - base] == old2[jump_at(ts, k, base) - base]);
            }
        }
        assert forall|i: int| 0 <= i < alt_size(ts, n) implies #[trigger] new2[i] == new1[i]
            || exists|k: int|
            0 <= k < n && k + 1 < ts.len() && #[trigger] jump_at(ts, k, base) == base + i by {
            if i < alt_size(ts, n - 1) {
                assert(new2[i] == old2[i] && new1[i] == old1[i]);
            } else if n < ts.len() && i == alt_size(ts, n) - 1 {
                assert(jump_at(ts, n - 1, base) == base + i);
            }
        }
    }
}

proof fn lemma_steps_push(ops: Seq<Op>, op: Op)
    ensures
        steps(ops.push(op)) == steps(ops).push(op@),
{
    assert(steps(ops.push(op)) =~= steps(ops).push(op@));
}

proof fn lemma_steps_update(ops: Seq<Op>, i: int, op: Op)
    requires
        0 <= i < ops.len(),
    ensures
        steps(ops.update(i, op)) == steps(ops).update(i, op@),
{
    assert(steps(ops.update(i, op)) =~= steps(ops).update(i, op@));
}

/// Appends the instructions of an expression.
fn compile_expr(expr: &Expr, ops: &mut Vec<Op>) -> (r: Result<(), String>)
    requires
        well_formed(expr.tree()),
    ensures
        r is Ok,
        steps(final(ops)@) == steps(old(ops)@) + code(expr.tree(), old(ops)@.len() as int),
    decreases expr, 1int,
{
    let ghost base = ops@.len() as int;
    let ghost before = steps(ops@);
    match expr {
        Expr::Char(p) => {
            ops.push(Op::Char(p.clone()));
            assert(steps(ops@) =~= before + code(expr.tree(), base));
        },
        Expr::Start => {
            ops.push(Op::Start);
            assert(steps(ops@) =~= before + code(expr.tree(), base));
        },
        Expr::End => {
            ops.push(Op::End);
            assert(steps(ops@) =~= before + code(expr.tree(), base));
        },
        Expr::Concat(parts) => {
            let ghost ts = trees(parts@);
            assert(expr.tree()->Concat_0 =~= ts);
            let mut i: usize = 0;
            assert(steps(ops@) =~= before + concat_code(ts, 0, base));
            while i < parts.len()
                invariant
                    0 <= i <= parts@.len(),
                    *expr == Expr::Concat(*parts),
                    ts == trees(parts@),
                    all_well_formed(ts),
                    before.len() == base,
                    steps(ops@) == before + concat_code(ts, i as int, base),
                decreases parts@.len() - i,
            {
                proof {
                    lemma_concat_code_len(ts, i as int, base);
                    assert(ts[i as int] == parts@[i as int].tree());
                }
                compile_expr(&parts[i], ops)?;
                proof {
                    assert(steps(ops@) =~= before + concat_code(ts, i + 1, base));
                }
                i = i + 1;
            }
        },
        Expr::Alt(alts) => {
            compile_alt(expr, alts, ops)?;
        },
        Expr::Repeat { atom, min, max, greedy } => {
            let ghost t = atom.tree();
            let mut i: u32 = 0;
            assert(steps(ops@) =~= before + copies(t, 0, base));
            while i < *min
                invariant
                    0 <= i <= *min,
                    *expr == (Expr::Repeat { atom: *atom, min: *min, max: *max, greedy: *greedy }),
                    t == atom.tree(),
                    well_formed(t),
                    before.len() == base,
                    steps(ops@) == before + copies(t, i as int, base),
                decreases *min - i,
            {
                proof {
                    lemma_copies_len(t, i as int, base);
                }
                compile_expr(atom, ops)?;
                proof {
                    assert(steps(ops@) =~= before + copies(t, i + 1, base));
                }
                i = i + 1;
            }
            let ghost from = ops@.len() as int;
            let ghost head = steps(ops@);
            proof {
                lemma_copies_len(t, *min as int, base);
                assert(head.len() == from);
            }
            match max {
                Some(m) => {
                    let optional: u32 = *m - *min;
                    let mut k: u32 = 0;
                    assert(steps(ops@) =~= head + options(t, 0, from, *greedy));
                    while k < optional
                        invariant
                            0 <= k <= optional,
                            *expr == (Expr::Repeat {
                                atom: *atom,
                                min: *min,
                                max: *max,
                                greedy: *greedy,
                            }),
                            t == atom.tree(),
                            well_formed(t),
                            head.len() == from,
                            steps(ops@) == head + options(t, k as int, from, *greedy),
                        decreases optional - k,
                    {
                        proof {
                            lemma_options_len(t, k as int, from, *greedy);
                        }
                        let split_at: usize = ops.len();
                        let ghost so_far = steps(ops@);
                        ops.push(Op::Split(usize::MAX, usize::MAX));
                        let body: usize = ops.len();
                        compile_expr(atom, ops)?;
                        let ghost draft = ops@;
                        proof {
                            lemma_code_len(t, split_at + 1);
                            assert(steps(ops@).len() == split_at + 1 + size(t));
                        }
                        let past: usize = ops.len();
                        let choice: Op = if *greedy {
                            Op::Split(body, past)
                        } else {
                            Op::Split(past, body)
                        };
                        let ghost set = choice@;
                        proof {
                            lemma_steps_update(draft, split_at as int, choice);
                        }
                        ops.set(split_at, choice);
                        proof {
                            assert(set == fork(*greedy, split_at + 1, split_at + size(t) + 1));
                            assert(steps(ops@) =~= so_far + seq![
                                fork(*greedy, split_at + 1, split_at + size(t) + 1),
                            ] + code(t, split_at + 1));
                            assert(steps(ops@) =~= head + options(t, k + 1, from, *greedy));
                        }
                        k = k + 1;
                    }
                    assert(steps(ops@) =~= before + code(expr.tree(), base));
                },
                None => {
                    let split_at: usize = ops.len();
                    proof {
                        lemma_steps_push(ops@, Op::Split(usize::MAX, usize::MAX));
                    }
                    ops.push(Op::Split(usize::MAX, usize::MAX));
                    let body: usize = ops.len();
                    compile_expr(atom, ops)?;
                    proof {
                        lemma_code_len(t, split_at + 1);
                        assert(steps(ops@).len() == split_at + 1 + size(t));
                        lemma_steps_push(ops@, Op::Jump(split_at));
                    }
                    ops.push(Op::Jump(split_at));
                    let past: usize = ops.len();
                    let choice: Op = if *greedy {
                        Op::Split(body, past)
                    } else {
                        Op::Split(past, body)
                    };
                    let ghost set = choice@;
                    proof {
                        lemma_steps_update(ops@, split_at as int, choice);
                    }
                    ops.set(split_at, choice);
                    assert(set == fork(*greedy, split_at + 1, split_at + size(t) + 2));
                    assert(steps(ops@) =~= head + seq![set] + code(t, from + 1) + seq![
                        Step::Jump(from),
                    ]);
                    assert(steps(ops@) =~= before + code(expr.tree(), base));
                },
            }
        },
    }
    Ok(())
}

/// Appends the instructions of an alternation.
fn compile_alt(expr: &Expr, alts: &Vec<Expr>, ops: &mut Vec<Op>) -> (r: Result<(), String>)
    requires
        *expr == Expr::Alt(*alts),
        well_formed(expr.tree()),
    ensures
        r is Ok,
        steps(final(ops)@) == steps(old(ops)@) + code(expr.tree(), old(ops)@.len() as int),
    decreases expr, 0int,
{
    let ghost base = ops@.len() as int;
    let ghost before = steps(ops@);
    let ghost open_end = usize::MAX as int;
    let ghost ts = trees(alts@);
    assert(expr.tree()->Alt_0 =~= ts);
    let mut jumps: Vec<usize> = Vec::new();
    let mut i: usize = 0;
    assert(steps(ops@) =~= before + alt_code(ts, 0, base, open_end));
    while i < alts.len()
        invariant
            0 <= i <= alts@.len(),
            *expr == Expr::Alt(*alts),
            ts == trees(alts@),
            all_well_formed(ts),
            before.len() == base,
            open_end == usize::MAX,
            steps(ops@) == before + alt_code(ts, i as int, base, open_end),
            jumps@.len() == (if i < ts.len() {
                i as int
            } else if ts.len() > 0 {
                ts.len() - 1
            } else {
                0
            }),
            forall|k: int| 0 <= k < jumps@.len() ==> #[trigger] jumps@[k] == jump_at(ts, k, base),
        decreases alts@.len() - i,
    {
        proof {
            lemma_alt_code_len(ts, i as int, base, open_end);
            assert(steps(ops@).len() == base + alt_size(ts, i as int));
            assert(ts[i as int] == alts@[i as int].tree());
        }
        let ghost so_far = steps(ops@);
        let ghost here = ops@.len() as int;
        if i + 1 < alts.len() {
            let split_at: usize = ops.len();
            proof {
                lemma_steps_push(ops@, Op::Split(usize::MAX, usize::MAX));
            }
            ops.push(Op::Split(usize::MAX, usize::MAX));
            let body: usize = ops.len();
            compile_expr(&alts[i], ops)?;
            proof {
                lemma_code_len(ts[i as int], here + 1);
                assert(steps(ops@).len() == here + 1 + size(ts[i as int]));
                lemma_steps_push(ops@, Op::Jump(usize::MAX));
            }
            jumps.push(ops.len());
            ops.push(Op::Jump(usize::MAX));
            let next: usize = ops.len();
            proof {
                lemma_steps_update(ops@, split_at as int, Op::Split(body, next));
            }
            ops.set(split_at, Op::Split(body, next));
            proof {
                assert(jump_at(ts, i as int, base) == here + 1 + size(ts[i as int]));
                assert(steps(ops@) =~= before + alt_code(ts, i + 1, base, open_end));
            }
        } else {
            compile_expr(&alts[i], ops)?;
            proof {
                assert(steps(ops@) =~= before + alt_code(ts, i + 1, base, open_end));
            }
        }
        i = i + 1;
    }
    let end: usize = ops.len();
    let ghost n = ts.len() as int;
    proof {
        lemma_alt_code_len(ts, n, base, open_end);
        lemma_alt_retarget(ts, n, base, open_end, end as int);
    }
    let ghost draft = steps(ops@);
    let mut j: usize = 0;
    while j < jumps.len()
        invariant
            0 <= j <= jumps@.len(),
            jumps@.len() == (if n > 0 {
                n - 1
            } else {
                0
            }),
            n == ts.len(),
            base >= 0,
            forall|k: int| 0 <= k < jumps@.len() ==> #[trigger] jumps@[k] == jump_at(ts, k, base),
            forall|k: int|
                0 <= k < n && k + 1 < n ==> base <= #[trigger] jump_at(ts, k, base) < end,
            ops@.len() == end,
            draft.len() == end,
            forall|k: int| 0 <= k < j ==> steps(ops@)[#[trigger] jump_at(ts, k, base)]
                == Step::Jump(end as int),
            forall|x: int| 0 <= x < end ==> #[trigger] steps(ops@)[x] == draft[x] || steps(
                ops@,
            )[x] == Step::Jump(end as int),
            forall|x: int|
                0 <= x < end && (forall|k: int| 0 <= k < n - 1 ==> #[trigger] jump_at(ts, k, base) != x)
                    ==> #[trigger] steps(ops@)[x] == draft[x],
        decreases jumps@.len() - j,
    {
        let at: usize = jumps[j];
        assert(at == jump_at(ts, j as int, base));
        proof {
            lemma_steps_update(ops@, at as int, Op::Jump(end));
        }
        ops.set(at, Op::Jump(end));
        j = j + 1;
    }
    proof {
        let final_code = alt_code(ts, n, base, end as int);
        let goal = before + final_code;
        assert(goal.len() == end);
        assert forall|x: int| 0 <= x < end implies steps(ops@)[x] == goal[x] by {
            if x >= base {
                let d = alt_code(ts, n, base, open_end);
                assert(draft[x] == d[x - base]);
                if exists|k: int| 0 <= k < n - 1 && #[trigger] jump_at(ts, k, base) == x {
                    let k = choose|k: int| 0 <= k < n - 1 && #[trigger] jump_at(ts, k, base) == x;
                    assert(steps(ops@)[jump_at(ts, k, base)] == Step::Jump(end as int));
                    assert(final_code[jump_at(ts, k, base) - base] == Step::Jump(end as int));
                } else {
                    assert(steps(ops@)[x] == draft[x]);
                    assert(final_code[x - base] == d[x - base]);
                }
            } else {
                assert(forall|k: int| 0 <= k < n - 1 ==> #[trigger] jump_at(ts, k, base) != x);
                assert(steps(ops@)[x] == draft[x]);
            }
        }
        assert(steps(ops@) =~= goal);
    }
    Ok(())
}

/// Compiles a pattern; the last instruction reports the match.
pub fn compile(expr: &Expr) -> (r: Result<Program, String>)
    requires
        well_formed(expr.tree()),
    ensures
        r is Ok,
        r->Ok_0@ == program(expr.tree()),
        closed(r->Ok_0@),
{
    let mut ops: Vec<Op> = Vec::new();
    assert(steps(ops@) =~= Seq::empty());
    compile_expr(expr, &mut ops)?;
    ops.push(Op::Match);
    proof {
        assert(steps(ops@) =~= program(expr.tree()));
        lemma_program_is_closed(expr.tree());
    }
    Ok(Program { ops })
}

/// The whole program of a tree.
pub open spec fn program(t: Tree) -> Seq<Step> {
    code(t, 0).push(Step::Match)
}

/// Every target lies in `lo..=hi`, and none of the instructions reports a match.
pub open spec fn targets_within(c: Seq<Step>, lo: int, hi: int) -> bool {
    forall|i: int|
        0 <= i < c.len() ==> match #[trigger] c[i] {
            Step::Jump(t) => lo <= t <= hi,
            Step::Split(a, b) => lo <= a <= hi && lo <= b <= hi,
            Step::Match => false,
            _ => true,
        }
}

/// The code of a tree jumps inside itself or right behind itself.
pub proof fn lemma_targets_within(t: Tree, base: int)
    ensures
        targets_within(code(t, base), base, base + size(t)),
    decreases t, 0int, 0int,
{
    match t {
        Tree::Concat(ts) => {
            lemma_concat_targets(ts, ts.len() as int, base);
        },
        Tree::Alt(ts) => {
            lemma_alt_targets(ts, ts.len() as int, base, base + alt_size(ts, ts.len() as int));
        },
        Tree::Repeat { atom, min, max, greedy } => {
            lemma_code_len(t, base);
            lemma_copies_targets(*atom, min as int, base);
            lemma_copies_len(*atom, min as int, base);
            let head = copies(*atom, min as int, base);
            let from = base + head.len();
            match max {
                Some(m) => {
                    lemma_options_targets(*atom, m - min, from, greedy);
                    lemma_options_len(*atom, m - min, from, greedy);
                },
                None => {
                    lemma_code_len(*atom, from + 1);
                    lemma_targets_within(*atom, from + 1);
                },
            }
        },
        _ => {},
    }
}

proof fn lemma_concat_targets(ts: Seq<Tree>, n: int, base: int)
    ensures
        targets_within(concat_code(ts, n, base), base, base + size_of_first(ts, n)),
    decreases ts, n, 0int,
{
    if 0 < n <= ts.len() {
        lemma_concat_targets(ts, n - 1, base);
        lemma_concat_code_len(ts, n - 1, base);
        lemma_targets_within(ts[n - 1], base + size_of_first(ts, n - 1));
    }
}

proof fn lemma_alt_targets(ts: Seq<Tree>, n: int, base: int, end: int)
    requires
        base + alt_size(ts, n) <= end,
    ensures
        targets_within(alt_code(ts, n, base, end), base, end),
    decreases ts, n, 0int,
{
    if 0 < n <= ts.len() {
        lemma_alt_targets(ts, n - 1, base, end);
        lemma_alt_code_len(ts, n - 1, base, end);
        let here = base + alt_size(ts, n - 1);
        lemma_targets_within(ts[n - 1], here + 1);
        lemma_targets_within(ts[n - 1], here);
        lemma_code_len(ts[n - 1], here + 1);
    }
}

proof fn lemma_copies_targets(t: Tree, n: int, base: int)
    ensures
        targets_within(copies(t, n, base), base, base + copies(t, n, base).len()),
    decreases t, 1int, n,
{
    if n > 0 {
        lemma_copies_targets(t, n - 1, base);
        lemma_copies_len(t, n - 1, base);
        lemma_code_len(t, base + (n - 1) * size(t));
        lemma_targets_within(t, base + (n - 1) * size(t));
    }
}

proof fn lemma_options_targets(t: Tree, n: int, base: int, greedy: bool)
    ensures
        targets_within(
            options(t, n, base, greedy),
            base,
            base + options(t, n, base, greedy).len(),
        ),
    decreases t, 1int, n,
{
    if n > 0 {
        lemma_options_targets(t, n - 1, base, greedy);
        lemma_options_len(t, n - 1, base, greedy);
        let here = base + (n - 1) * (size(t) + 1);
        lemma_code_len(t, here + 1);
        lemma_targets_within(t, here + 1);
    }
}

/// A compiled program is closed: its runs never leave it.
pub proof fn lemma_program_is_closed(t: Tree)
    ensures
        closed(program(t)),
{
    lemma_targets_within(t, 0);
    lemma_code_len(t, 0);
    let c = code(t, 0);
    let p = program(t);
    assert forall|pc: int| 0 <= pc < p.len() implies match #[trigger] p[pc] {
        Step::Jump(t) => 0 <= t < p.len(),
        Step::Split(a, b) => 0 <= a < p.len() && 0 <= b < p.len(),
        Step::Match => true,
        _ => pc + 1 < p.len(),
    } by {
        if pc < c.len() {
            assert(p[pc] == c[pc]);
        }
    }
}

/// How a run ends.
pub enum Outcome {
    /// The pattern matches up to this byte.
    Found(int),
    /// No way through the program matches.
    Exhausted,
    /// A thread stood in the middle of a character.
    Undecodable,
    /// The limit on the number of steps was reached.
    OverBudget,
}

/// How many steps a run may take.
pub const STEP_CAP: u64 = 2_000_000;

/// The threads that follow a thread `(pc, pos)`, the preferred one last;
/// `None` where its character cannot be decoded.
pub open spec fn successors(p: Seq<Step>, b: Seq<u8>, pc: int, pos: int) -> Option<
    Seq<(int, int)>,
> {
    match p[pc] {
        Step::Char(test) => if pos >= b.len() {
            Some(seq![])
        } else {
            match text::char_at(b, pos) {
                None => None,
                Some(c) => if test.accepts(c) {
                    Some(seq![(pc + 1, pos + text::width(c))])
                } else {
                    Some(seq![])
                },
            }
        },
        Step::Start => if pos == 0 {
            Some(seq![(pc + 1, pos)])
        } else {
            Some(seq![])
        },
        Step::End => if pos == b.len() {
            Some(seq![(pc + 1, pos)])
        } else {
            Some(seq![])
        },
        Step::Jump(t) => Some(seq![(t, pos)]),
        Step::Split(a, c) => Some(seq![(c, pos), (a, pos)]),
        Step::Match => Some(seq![]),
    }
}

/// Runs a stack of threads, the topmost first: the first thread that reaches a `Match` wins.
pub open spec fn run(p: Seq<Step>, b: Seq<u8>, threads: Seq<(int, int)>, budget: nat) -> Outcome
    decreases budget,
{
    if threads.len() == 0 {
        Outcome::Exhausted
    } else if budget == 0 {
        Outcome::OverBudget
    } else {
        let (pc, pos) = threads.last();
        if p[pc] is Match {
            Outcome::Found(pos)
        } else {
            match successors(p, b, pc, pos) {
                None => Outcome::Undecodable,
                Some(next) => run(p, b, threads.drop_last() + next, (budget - 1) as nat),
            }
        }
    }
}

/// The outcome of a program started at byte `start`.
pub open spec fn outcome(p: Seq<Step>, b: Seq<u8>, start: int) -> Outcome {
    run(p, b, seq![(0, start)], STEP_CAP as nat)
}

/// The end of the match that starts at byte `start`.
pub open spec fn match_end(p: Seq<Step>, b: Seq<u8>, start: int) -> Option<int> {
    match outcome(p, b, start) {
        Outcome::Found(end) => Some(end),
        _ => None,
    }
}

/// The positions of a stack of threads, in mathematical form.
spec fn thread_list(threads: Seq<(usize, usize)>) -> Seq<(int, int)> {
    Seq::new(threads.len(), |i: int| (threads[i].0 as int, threads[i].1 as int))
}

proof fn lemma_threads_push(threads: Seq<(usize, usize)>, pc: usize, pos: usize)
    ensures
        thread_list(threads.push((pc, pos))) == thread_list(threads) + seq![
            (pc as int, pos as int),
        ],
{
    assert(thread_list(threads.push((pc, pos))) =~= thread_list(threads) + seq![
        (pc as int, pos as int),
    ]);
}

impl Program {
    /// Tries to match at byte `byte_start`: the byte behind the match that the pattern prefers,
    /// or `None` where there is no match or the run is given up.
    pub fn matches_at(&self, text: &str, byte_start: usize) -> (r: Option<usize>)
        requires
            closed(self@),
        ensures
            match match_end(self@, encode_utf8(text@), byte_start as int) {
                Some(end) => r == Some(end as usize) && end <= usize::MAX,
                None => r is None,
            },
    {
        let bytes: &[u8] = text.as_bytes();
        let ghost b = encode_utf8(text@);
        let ghost p = self@;
        let count: usize = self.ops.len();
        let mut threads: Vec<(usize, usize)> = Vec::new();
        threads.push((0, byte_start));
        proof {
            assert(thread_list(threads@) =~= seq![(0int, byte_start as int)]);
        }
        let mut taken: u64 = 0;
        while threads.len() > 0
            invariant
                closed(p),
                p == self@,
                count == p.len(),
                bytes@ == b,
                b == encode_utf8(text@),
                taken <= STEP_CAP,
                forall|i: int| 0 <= i < threads@.len() ==> (#[trigger] threads@[i]).0 < p.len(),
                outcome(p, b, byte_start as int) == run(
                    p,
                    b,
                    thread_list(threads@),
                    (STEP_CAP - taken) as nat,
                ),
            decreases STEP_CAP - taken,
        {
            let ghost all = threads@;
            let (pc, pos): (usize, usize) = match threads.pop() {
                Some(thread) => thread,
                None => {
                    return None;
                },
            };
            let ghost rest = threads@;
            proof {
                assert(thread_list(all).drop_last() =~= thread_list(rest));
                assert(thread_list(all).last() == (pc as int, pos as int));
                assert(all[all.len() - 1] == (pc, pos));
                assert(p[pc as int] == self.ops@[pc as int]@);
                assert(thread_list(rest) + Seq::<(int, int)>::empty() =~= thread_list(rest));
            }
            if taken == STEP_CAP {
                return None;
            }
            taken = taken + 1;
            match &self.ops[pc] {
                Op::Char(pred) => {
                    if pos < bytes.len() {
                        match text::next_char(bytes, pos) {
                            None => {
                                return None;
                            },
                            Some((c, w)) => {
                                proof {
                                    text::lemma_char_at_width(b, pos as int);
                                }
                                if pred.matches(c) {
                                    proof {
                                        lemma_threads_push(rest, (pc + 1) as usize, (pos + w) as usize);
                                    }
                                    threads.push((pc + 1, pos + w));
                                }
                            },
                        }
                    }
                },
                Op::Start => {
                    if pos == 0 {
                        proof {
                            lemma_threads_push(rest, (pc + 1) as usize, pos);
                        }
                        threads.push((pc + 1, pos));
                    }
                },
                Op::End => {
                    if pos == bytes.len() {
                        proof {
                            lemma_threads_push(rest, (pc + 1) as usize, pos);
                        }
                        threads.push((pc + 1, pos));
                    }
                },
                Op::Jump(t) => {
                    proof {
                        lemma_threads_push(rest, *t, pos);
                    }
                    threads.push((*t, pos));
                },
                Op::Split(a, c) => {
                    proof {
                        lemma_threads_push(rest, *c, pos);
                        lemma_threads_push(rest.push((*c, pos)), *a, pos);
                        assert(thread_list(rest) + seq![(*c as int, pos as int)] + seq![
                            (*a as int, pos as int),
                        ] =~= thread_list(rest) + seq![
                            (*c as int, pos as int),
                            (*a as int, pos as int),
                        ]);
                    }
                    threads.push((*c, pos));
                    threads.push((*a, pos));
                },
                Op::Match => {
                    return Some(pos);
                },
            }
        }
        None
    }
}

/// Whatever a run finds lies between its lowest thread and the end of the text. In
/// well-formed text, threads at character boundaries stay at boundaries, so that every
/// character can be decoded.
pub proof fn lemma_run_stays_in_text(
    p: Seq<Step>,
    b: Seq<u8>,
    threads: Seq<(int, int)>,
    budget: nat,
    start: int,
)
    requires
        forall|i: int|
            0 <= i < threads.len() ==> start <= (#[trigger] threads[i]).1 <= b.len(),
        0 <= start,
    ensures
        run(p, b, threads, budget) matches Outcome::Found(end) ==> start <= end <= b.len(),
        valid_utf8(b) && (forall|i: int|
            0 <= i < threads.len() ==> is_char_boundary(b, (#[trigger] threads[i]).1)) ==> {
            &&& !(run(p, b, threads, budget) is Undecodable)
            &&& run(p, b, threads, budget) matches Outcome::Found(end) ==> is_char_boundary(b, end)
        },
    decreases budget,
{
    if threads.len() > 0 && budget > 0 {
        let (pc, pos) = threads.last();
        assert(threads[threads.len() - 1] == (pc, pos));
        if !(p[pc] is Match) {
            if pos < b.len() && text::char_at(b, pos) is Some {
                text::lemma_char_at_width(b, pos);
            }
            if valid_utf8(b) && pos < b.len() {
                text::lemma_char_at_boundary(b, pos);
            }
            if let Some(next) = successors(p, b, pc, pos) {
                let after = threads.drop_last() + next;
                assert forall|i: int| 0 <= i < after.len() implies start <= (#[trigger] after[i]).1
                    <= b.len() by {
                    if i < threads.len() - 1 {
                        assert(after[i] == threads[i]);
                    }
                }
                lemma_run_stays_in_text(p, b, after, (budget - 1) as nat, start);
                if valid_utf8(b) && (forall|i: int|
                    0 <= i < threads.len() ==> is_char_boundary(b, (#[trigger] threads[i]).1)) {
                    assert forall|i: int| 0 <= i < after.len() implies is_char_boundary(
                        b,
                        (#[trigger] after[i]).1,
                    ) by {
                        if i < threads.len() - 1 {
                            assert(after[i] == threads[i]);
                        }
                    }
                }
            }
        }
    }
}

/// A match found from `start` lies behind it and inside the text, and ends at a character
/// boundary if it starts at one.
pub proof fn lemma_match_end_in_text(p: Seq<Step>, b: Seq<u8>, start: int)
    requires
        valid_utf8(b),
        0 <= start <= b.len(),
    ensures
        match_end(p, b, start) matches Some(end) ==> start <= end <= b.len(),
        match_end(p, b, start) matches Some(end) ==> is_char_boundary(b, start)
            ==> is_char_boundary(b, end),
        is_char_boundary(b, start) ==> !(outcome(p, b, start) is Undecodable),
{
    lemma_run_stays_in_text(p, b, seq![(0, start)], STEP_CAP as nat, start);
}

/// A fragment that matches, as a range of bytes.
#[derive(Debug, Clone, Copy)]
pub struct RawHit {
    pub start: usize,
    pub end: usize,
}

/// Where the search goes on after a place without a match.
pub open spec fn next_place(b: Seq<u8>, pos: int) -> int {
    match text::char_at(b, pos) {
        Some(c) => pos + text::width(c),
        None => pos + 1,
    }
}

/// The matches from byte `pos` on, from left to right without overlap; empty matches are
/// passed over by one byte.
pub open spec fn scan(p: Seq<Step>, b: Seq<u8>, pos: int) -> Seq<(int, int)>
    decreases b.len() - pos,
{
    if !(0 <= pos <= b.len()) {
        seq![]
    } else {
        match match_end(p, b, pos) {
            Some(end) => if pos < end <= b.len() {
                seq![(pos, end)] + scan(p, b, end)
            } else if pos < b.len() {
                scan(p, b, pos + 1)
            } else {
                seq![]
            },
            None => if pos < b.len() && next_place(b, pos) > pos && next_place(b, pos) <= b.len() {
                scan(p, b, next_place(b, pos))
            } else {
                seq![]
            },
        }
    }
}

/// The ranges of a list of hits.
pub open spec fn hit_ranges(hits: Seq<RawHit>) -> Seq<(int, int)> {
    Seq::new(hits.len(), |i: int| (hits[i].start as int, hits[i].end as int))
}

/// Finds all matches, from left to right without overlap.
pub fn find_matches(program: &Program, text: &str) -> (hits: Vec<RawHit>)
    requires
        closed(program@),
    ensures
        hit_ranges(hits@) == scan(program@, encode_utf8(text@), 0),
{
    let bytes: &[u8] = text.as_bytes();
    let ghost b = encode_utf8(text@);
    let ghost p = program@;
    proof {
        encode_utf8_valid_utf8(text@);
    }
    let mut hits: Vec<RawHit> = Vec::new();
    let mut pos: usize = 0;
    proof {
        assert(hit_ranges(hits@) + scan(p, b, 0) =~= scan(p, b, 0));
    }
    loop
        invariant_except_break
            pos <= b.len(),
            hit_ranges(hits@) + scan(p, b, pos as int) == scan(p, b, 0),
        invariant
            closed(p),
            p == program@,
            valid_utf8(b),
            bytes@ == b,
            b == encode_utf8(text@),
        ensures
            hit_ranges(hits@) == scan(p, b, 0),
        decreases b.len() - pos,
    {
        proof {
            lemma_match_end_in_text(p, b, pos as int);
        }
        match program.matches_at(text, pos) {
            Some(end) => {
                if end == pos {
                    if pos == bytes.len() {
                        proof {
                            assert(hit_ranges(hits@) + Seq::<(int, int)>::empty() =~= hit_ranges(
                                hits@,
                            ));
                        }
                        break ;
                    }
                    pos = pos + 1;
                } else {
                    let ghost found = hits@;
                    hits.push(RawHit { start: pos, end });
                    proof {
                        assert(hit_ranges(hits@) + scan(p, b, end as int) =~= hit_ranges(found) + (
                        seq![(pos as int, end as int)] + scan(p, b, end as int)));
                    }
                    pos = end;
                }
            },
            None => {
                if pos < bytes.len() {
                    proof {
                        text::lemma_char_at_boundary(b, pos as int);
                    }
                    let step: usize = match text::next_char(bytes, pos) {
                        Some((_, w)) => w,
                        None => 1,
                    };
                    pos = pos + step;
                } else {
                    proof {
                        assert(hit_ranges(hits@) + Seq::<(int, int)>::empty() =~= hit_ranges(
                            hits@,
                        ));
                    }
                    break ;
                }
            },
        }
    }
    hits
}

}
