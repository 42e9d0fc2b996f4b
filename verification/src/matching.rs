//! What a pattern means, apart from how it is run, and the laws that tie the two together.

use crate::engine;
use crate::engine::{Outcome, Step, Tree};
use crate::text;
use vstd::prelude::*;
use vstd::utf8::*;

verus! {

broadcast use vstd::seq::group_seq_axioms;

/// Marks a number that a definition below asks for: the place where one match ends and
/// the next begins, the number of an alternative, or the number of repetitions.
pub open spec fn pick(m: int) -> bool {
    true
}

/// The bytes from `i` to `j` of the text `b` are a match of the tree.
pub open spec fn matches(t: Tree, b: Seq<u8>, i: int, j: int) -> bool
    decreases t, 0int, 0int,
{
    match t {
        Tree::Char(test) => match text::char_at(b, i) {
            Some(c) => test.accepts(c) && j == i + text::width(c),
            None => false,
        },
        Tree::Start => i == 0 && j == i,
        Tree::End => i == b.len() && j == i,
        Tree::Concat(ts) => matches_parts(ts, ts.len() as int, b, i, j),
        Tree::Alt(ts) => if ts.len() == 0 {
            i == j
        } else {
            exists|k: int| #[trigger] pick(k) && 0 <= k < ts.len() && matches(ts[k], b, i, j)
        },
        Tree::Repeat { atom, min, max, .. } => exists|c: int|
            #[trigger] pick(c) && min <= c && (max is Some ==> c <= max->0) && matches_times(
                *atom,
                c,
                b,
                i,
                j,
            ),
    }
}

/// The first `n` trees match one behind the other.
pub open spec fn matches_parts(ts: Seq<Tree>, n: int, b: Seq<u8>, i: int, j: int) -> bool
    decreases ts, n, 0int,
{
    if 0 < n <= ts.len() {
        exists|m: int| #[trigger]
            pick(m) && matches_parts(ts, n - 1, b, i, m) && matches(ts[n - 1], b, m, j)
    } else {
        i == j
    }
}

/// The tree matches `c` times, one match behind the other.
pub open spec fn matches_times(t: Tree, c: int, b: Seq<u8>, i: int, j: int) -> bool
    decreases t, 1int, c,
{
    if c > 0 {
        exists|m: int| #[trigger] pick(m) && matches_times(t, c - 1, b, i, m) && matches(t, b, m, j)
    } else {
        i == j
    }
}

/// A thread at `(pc, i)` can come to report a match up to `z` in at most `n` steps.
spec fn leads(p: Seq<Step>, b: Seq<u8>, pc: int, i: int, n: nat, z: int) -> bool
    decreases n,
{
    n > 0 && if p[pc] is Match {
        z == i
    } else {
        match engine::successors(p, b, pc, i) {
            None => false,
            Some(next) => {
                ||| next.len() > 0 && leads(p, b, next[0].0, next[0].1, (n - 1) as nat, z)
                ||| next.len() > 1 && leads(p, b, next[1].0, next[1].1, (n - 1) as nat, z)
            },
        }
    }
}

/// What a run finds, one of its threads leads to.
proof fn lemma_run_found(
    p: Seq<Step>,
    b: Seq<u8>,
    threads: Seq<(int, int)>,
    budget: nat,
    z: int,
) -> (r: (int, nat))
    requires
        engine::run(p, b, threads, budget) == Outcome::Found(z),
    ensures
        0 <= r.0 < threads.len(),
        leads(p, b, threads[r.0].0, threads[r.0].1, r.1, z),
    decreases budget,
{
    let last = threads.len() - 1;
    let (pc, pos) = threads.last();
    if p[pc] is Match {
        assert(leads(p, b, pc, pos, 1, z));
        (last, 1)
    } else {
        let next = engine::successors(p, b, pc, pos)->0;
        let after = threads.drop_last() + next;
        let (k, n) = lemma_run_found(p, b, after, (budget - 1) as nat, z);
        if k < last {
            assert(after[k] == threads[k]);
            (k, n)
        } else {
            assert(after[k] == next[k - last]);
            assert(next.len() <= 2);
            assert(((n + 1) - 1) as nat == n);
            assert(leads(p, b, pc, pos, n + 1, z));
            (last, n + 1)
        }
    }
}

/// Where a run is exhausted, none of its threads leads anywhere.
proof fn lemma_run_exhausted(
    p: Seq<Step>,
    b: Seq<u8>,
    threads: Seq<(int, int)>,
    budget: nat,
    k: int,
    n: nat,
    z: int,
)
    requires
        engine::run(p, b, threads, budget) is Exhausted,
        0 <= k < threads.len(),
    ensures
        !leads(p, b, threads[k].0, threads[k].1, n, z),
    decreases budget,
{
    let last = threads.len() - 1;
    let (pc, pos) = threads.last();
    let next = engine::successors(p, b, pc, pos)->0;
    let after = threads.drop_last() + next;
    if k < last {
        lemma_run_exhausted(p, b, after, (budget - 1) as nat, k, n, z);
        assert(after[k] == threads[k]);
    } else if leads(p, b, pc, pos, n, z) {
        let m: int = if next.len() > 0 && leads(
            p,
            b,
            next[0].0,
            next[0].1,
            (n - 1) as nat,
            z,
        ) {
            0
        } else {
            1
        };
        lemma_run_exhausted(p, b, after, (budget - 1) as nat, last + m, (n - 1) as nat, z);
        assert(after[last + m] == next[m]);
    }
}

/// The instructions `c` stand in the program from index `base` on.
spec fn stands(p: Seq<Step>, base: int, c: Seq<Step>) -> bool {
    &&& 0 <= base
    &&& base + c.len() <= p.len()
    &&& forall|k: int| 0 <= k < c.len() ==> p[base + k] == #[trigger] c[k]
}

proof fn lemma_stands_split(p: Seq<Step>, base: int, c: Seq<Step>, d: Seq<Step>)
    requires
        stands(p, base, c + d),
    ensures
        stands(p, base, c),
        stands(p, base + c.len(), d),
{
    assert forall|k: int| 0 <= k < c.len() implies p[base + k] == #[trigger] c[k] by {
        assert((c + d)[k] == c[k]);
    }
    assert forall|k: int| 0 <= k < d.len() implies p[base + c.len() + k] == #[trigger] d[k] by {
        assert((c + d)[c.len() + k] == d[k]);
    }
}

proof fn lemma_stands_one(p: Seq<Step>, base: int, s: Step)
    requires
        stands(p, base, seq![s]),
    ensures
        p[base] == s,
{
    assert(seq![s][0] == s);
}

/// A choice leads where one of its two ways leads.
proof fn lemma_fork_leads(
    p: Seq<Step>,
    b: Seq<u8>,
    pc: int,
    greedy: bool,
    body: int,
    past: int,
    i: int,
    n: nat,
    z: int,
)
    requires
        p[pc] == engine::fork(greedy, body, past),
    ensures
        leads(p, b, body, i, n, z) ==> leads(p, b, pc, i, n + 1, z),
        leads(p, b, past, i, n, z) ==> leads(p, b, pc, i, n + 1, z),
        leads(p, b, pc, i, n, z) ==> n > 0 && (leads(p, b, body, i, (n - 1) as nat, z) || leads(
            p,
            b,
            past,
            i,
            (n - 1) as nat,
            z,
        )),
{
    assert(((n + 1) - 1) as nat == n);
    let next = engine::successors(p, b, pc, i)->0;
    assert(next.len() == 2);
}

/// A jump leads where its target leads.
proof fn lemma_jump_leads(p: Seq<Step>, b: Seq<u8>, pc: int, t: int, i: int, n: nat, z: int)
    requires
        p[pc] == Step::Jump(t),
    ensures
        leads(p, b, t, i, n, z) ==> leads(p, b, pc, i, n + 1, z),
        leads(p, b, pc, i, n, z) ==> n > 0 && leads(p, b, t, i, (n - 1) as nat, z),
{
    assert(((n + 1) - 1) as nat == n);
    let next = engine::successors(p, b, pc, i)->0;
    assert(next.len() == 1);
}

proof fn lemma_parts_intro(ts: Seq<Tree>, n: int, b: Seq<u8>, i: int, m: int, j: int)
    requires
        0 < n <= ts.len(),
        matches_parts(ts, n - 1, b, i, m),
        matches(ts[n - 1], b, m, j),
    ensures
        matches_parts(ts, n, b, i, j),
{
    assert(pick(m));
}

proof fn lemma_parts_elim(ts: Seq<Tree>, n: int, b: Seq<u8>, i: int, j: int) -> (m: int)
    requires
        0 < n <= ts.len(),
        matches_parts(ts, n, b, i, j),
    ensures
        matches_parts(ts, n - 1, b, i, m),
        matches(ts[n - 1], b, m, j),
{
    choose|m: int| #[trigger] pick(m) && matches_parts(ts, n - 1, b, i, m) && matches(ts[n - 1], b, m, j)
}

proof fn lemma_times_intro(t: Tree, c: int, b: Seq<u8>, i: int, m: int, j: int)
    requires
        c > 0,
        matches_times(t, c - 1, b, i, m),
        matches(t, b, m, j),
    ensures
        matches_times(t, c, b, i, j),
{
    assert(pick(m));
}

proof fn lemma_times_elim(t: Tree, c: int, b: Seq<u8>, i: int, j: int) -> (m: int)
    requires
        c > 0,
        matches_times(t, c, b, i, j),
    ensures
        matches_times(t, c - 1, b, i, m),
        matches(t, b, m, j),
{
    choose|m: int| #[trigger] pick(m) && matches_times(t, c - 1, b, i, m) && matches(t, b, m, j)
}

proof fn lemma_repeat_intro(
    t: Tree,
    c: int,
    b: Seq<u8>,
    i: int,
    j: int,
)
    requires
        t is Repeat,
        t->min <= c,
        t->max is Some ==> c <= t->max->0,
        matches_times(*t->atom, c, b, i, j),
    ensures
        matches(t, b, i, j),
{
    assert(pick(c));
}

proof fn lemma_repeat_elim(t: Tree, b: Seq<u8>, i: int, j: int) -> (c: int)
    requires
        t is Repeat,
        matches(t, b, i, j),
    ensures
        t->min <= c,
        t->max is Some ==> c <= t->max->0,
        matches_times(*t->atom, c, b, i, j),
{
    choose|c: int|
        #[trigger] pick(c) && t->min <= c && (t->max is Some ==> c <= t->max->0) && matches_times(
            *t->atom,
            c,
            b,
            i,
            j,
        )
}

proof fn lemma_alt_intro(ts: Seq<Tree>, k: int, b: Seq<u8>, i: int, j: int)
    requires
        0 <= k < ts.len(),
        matches(ts[k], b, i, j),
    ensures
        matches(Tree::Alt(ts), b, i, j),
{
    assert(pick(k));
}

proof fn lemma_alt_elim(ts: Seq<Tree>, b: Seq<u8>, i: int, j: int) -> (k: int)
    requires
        ts.len() > 0,
        matches(Tree::Alt(ts), b, i, j),
    ensures
        0 <= k < ts.len(),
        matches(ts[k], b, i, j),
{
    choose|k: int| #[trigger] pick(k) && 0 <= k < ts.len() && matches(ts[k], b, i, j)
}

/// Matching `a + c` times is matching `a` times and then `c` times.
proof fn lemma_times_join(t: Tree, a: int, c: int, b: Seq<u8>, i: int, m: int, j: int)
    requires
        a >= 0,
        c >= 0,
        matches_times(t, a, b, i, m),
        matches_times(t, c, b, m, j),
    ensures
        matches_times(t, a + c, b, i, j),
    decreases c,
{
    if c > 0 {
        let x = lemma_times_elim(t, c, b, m, j);
        lemma_times_join(t, a, c - 1, b, i, m, x);
        lemma_times_intro(t, a + c, b, i, x, j);
    }
}

pub proof fn lemma_times_split(t: Tree, a: int, c: int, b: Seq<u8>, i: int, j: int) -> (m: int)
    requires
        a >= 0,
        c >= 0,
        matches_times(t, a + c, b, i, j),
    ensures
        matches_times(t, a, b, i, m),
        matches_times(t, c, b, m, j),
    decreases c,
{
    if c > 0 {
        let x = lemma_times_elim(t, a + c, b, i, j);
        let m = lemma_times_split(t, a, c - 1, b, i, x);
        lemma_times_intro(t, c, b, m, x, j);
        m
    } else {
        j
    }
}

/// Where the blocks of an alternation stand.
proof fn lemma_alt_blocks(ts: Seq<Tree>, n: int, p: Seq<Step>, base: int, end: int, k: int)
    requires
        0 <= k < n <= ts.len(),
        stands(p, base, engine::alt_code(ts, n, base, end)),
    ensures
        ({
            let here = base + engine::alt_size(ts, k);
            if k + 1 < ts.len() {
                &&& p[here] == Step::Split(here + 1, here + engine::size(ts[k]) + 2)
                &&& stands(p, here + 1, engine::code(ts[k], here + 1))
                &&& p[here + 1 + engine::size(ts[k])] == Step::Jump(end)
            } else {
                stands(p, here, engine::code(ts[k], here))
            }
        }),
    decreases n,
{
    engine::lemma_alt_code_len(ts, n - 1, base, end);
    let front = engine::alt_code(ts, n - 1, base, end);
    let here = base + engine::alt_size(ts, n - 1);
    let split = Step::Split(here + 1, here + engine::size(ts[n - 1]) + 2);
    if n < ts.len() {
        let body = engine::code(ts[n - 1], here + 1);
        engine::lemma_code_len(ts[n - 1], here + 1);
        lemma_stands_split(p, base, front + seq![split] + body, seq![Step::Jump(end)]);
        lemma_stands_split(p, base, front + seq![split], body);
        lemma_stands_split(p, base, front, seq![split]);
        lemma_stands_one(p, here, split);
        lemma_stands_one(p, here + 1 + body.len(), Step::Jump(end));
    } else {
        lemma_stands_split(p, base, front, engine::code(ts[n - 1], here));
    }
    if k < n - 1 {
        lemma_alt_blocks(ts, n - 1, p, base, end, k);
    }
}

/// Where the parts of an unbounded repetition stand.
proof fn lemma_star_blocks(p: Seq<Step>, base: int, head: Seq<Step>, t: Tree, greedy: bool)
    requires
        ({
            let from = base + head.len();
            stands(
                p,
                base,
                head + seq![engine::fork(greedy, from + 1, from + engine::size(t) + 2)]
                    + engine::code(t, from + 1) + seq![Step::Jump(from)],
            )
        }),
    ensures
        ({
            let from = base + head.len();
            &&& stands(p, base, head)
            &&& p[from] == engine::fork(greedy, from + 1, from + engine::size(t) + 2)
            &&& stands(p, from + 1, engine::code(t, from + 1))
            &&& p[from + 1 + engine::size(t)] == Step::Jump(from)
        }),
{
    let from = base + head.len();
    let choice = engine::fork(greedy, from + 1, from + engine::size(t) + 2);
    let body = engine::code(t, from + 1);
    engine::lemma_code_len(t, from + 1);
    lemma_stands_split(p, base, head + seq![choice] + body, seq![Step::Jump(from)]);
    lemma_stands_split(p, base, head + seq![choice], body);
    lemma_stands_split(p, base, head, seq![choice]);
    lemma_stands_one(p, from, choice);
    lemma_stands_one(p, from + 1 + body.len(), Step::Jump(from));
}

/// Where the last of a row of options stands.
proof fn lemma_last_option(p: Seq<Step>, base: int, t: Tree, n: int, greedy: bool)
    requires
        n > 0,
        stands(p, base, engine::options(t, n, base, greedy)),
    ensures
        ({
            let here = base + (n - 1) * (engine::size(t) + 1);
            &&& stands(p, base, engine::options(t, n - 1, base, greedy))
            &&& p[here] == engine::fork(greedy, here + 1, here + engine::size(t) + 1)
            &&& stands(p, here + 1, engine::code(t, here + 1))
            &&& here + engine::size(t) + 1 == base + n * (engine::size(t) + 1)
        }),
{
    let here = base + (n - 1) * (engine::size(t) + 1);
    let front = engine::options(t, n - 1, base, greedy);
    let choice = engine::fork(greedy, here + 1, here + engine::size(t) + 1);
    let body = engine::code(t, here + 1);
    engine::lemma_options_len(t, n - 1, base, greedy);
    engine::lemma_code_len(t, here + 1);
    assert(n * (engine::size(t) + 1) == (n - 1) * (engine::size(t) + 1) + engine::size(t) + 1)
        by (nonlinear_arith);
    if n == 1 {
        assert(0 * (engine::size(t) + 1) == 0) by (nonlinear_arith);
    }
    lemma_stands_split(p, base, front + seq![choice], body);
    lemma_stands_split(p, base, front, seq![choice]);
    lemma_stands_one(p, here, choice);
}

/// Where the last of a row of copies stands.
proof fn lemma_last_copy(p: Seq<Step>, base: int, t: Tree, n: int)
    requires
        n > 0,
        stands(p, base, engine::copies(t, n, base)),
    ensures
        ({
            let here = base + (n - 1) * engine::size(t);
            &&& stands(p, base, engine::copies(t, n - 1, base))
            &&& stands(p, here, engine::code(t, here))
            &&& here + engine::size(t) == base + n * engine::size(t)
        }),
{
    let here = base + (n - 1) * engine::size(t);
    engine::lemma_copies_len(t, n - 1, base);
    assert(n * engine::size(t) == (n - 1) * engine::size(t) + engine::size(t))
        by (nonlinear_arith);
    if n == 1 {
        assert(0 * engine::size(t) == 0) by (nonlinear_arith);
    }
    lemma_stands_split(p, base, engine::copies(t, n - 1, base), engine::code(t, here));
}

/// Where the two parts of a repetition stand.
proof fn lemma_repeat_parts(p: Seq<Step>, base: int, t: Tree) -> (from: int)
    requires
        t is Repeat,
        engine::well_formed(t),
        stands(p, base, engine::code(t, base)),
    ensures
        from == base + t->min as int * engine::size(*t->atom),
        stands(p, base, engine::copies(*t->atom, t->min as int, base)),
        t->max matches Some(m) ==> {
            &&& stands(p, from, engine::options(*t->atom, m - t->min, from, t->greedy))
            &&& base + engine::size(t) == from + (m - t->min) * (engine::size(*t->atom) + 1)
        },
        t->max is None ==> {
            &&& p[from] == engine::fork(t->greedy, from + 1, from + engine::size(*t->atom) + 2)
            &&& stands(p, from + 1, engine::code(*t->atom, from + 1))
            &&& p[from + 1 + engine::size(*t->atom)] == Step::Jump(from)
            &&& base + engine::size(t) == from + engine::size(*t->atom) + 2
        },
{
    let a = *t->atom;
    let head = engine::copies(a, t->min as int, base);
    engine::lemma_copies_len(a, t->min as int, base);
    if t->min == 0 {
        assert(0 * engine::size(a) == 0) by (nonlinear_arith);
    }
    let from = base + head.len();
    match t->max {
        Some(m) => {
            lemma_stands_split(p, base, head, engine::options(a, m - t->min, from, t->greedy));
            if m == t->min {
                assert(0 * (engine::size(a) + 1) == 0) by (nonlinear_arith);
            }
        },
        None => {
            lemma_star_blocks(p, base, head, a, t->greedy);
        },
    }
    from
}

/// A match of the tree takes a thread through its code.
proof fn lemma_match_leads_through(
    t: Tree,
    p: Seq<Step>,
    base: int,
    b: Seq<u8>,
    i: int,
    j: int,
    n: nat,
    z: int,
) -> (r: nat)
    requires
        engine::well_formed(t),
        stands(p, base, engine::code(t, base)),
        matches(t, b, i, j),
        leads(p, b, base + engine::size(t), j, n, z),
    ensures
        leads(p, b, base, i, r, z),
    decreases t, 0int, 0int,
{
    assert(((n + 1) - 1) as nat == n);
    match t {
        Tree::Char(test) => {
            lemma_stands_one(p, base, Step::Char(test));
            n + 1
        },
        Tree::Start => {
            lemma_stands_one(p, base, Step::Start);
            n + 1
        },
        Tree::End => {
            lemma_stands_one(p, base, Step::End);
            n + 1
        },
        Tree::Concat(ts) => lemma_parts_lead_through(ts, ts.len() as int, p, base, b, i, j, n, z),
        Tree::Alt(ts) => {
            if ts.len() == 0 {
                n
            } else {
                let k = lemma_alt_elim(ts, b, i, j);
                let end = base + engine::alt_size(ts, ts.len() as int);
                let here = base + engine::alt_size(ts, k);
                lemma_alt_blocks(ts, ts.len() as int, p, base, end, k);
                let r = if k + 1 < ts.len() {
                    lemma_jump_leads(p, b, here + 1 + engine::size(ts[k]), end, j, n, z);
                    let r = lemma_match_leads_through(
                        ts[k],
                        p,
                        here + 1,
                        b,
                        i,
                        j,
                        n + 1,
                        z,
                    );
                    lemma_fork_leads(
                        p,
                        b,
                        here,
                        true,
                        here + 1,
                        here + engine::size(ts[k]) + 2,
                        i,
                        r,
                        z,
                    );
                    r + 1
                } else {
                    assert(end == here + engine::size(ts[k]));
                    lemma_match_leads_through(ts[k], p, here, b, i, j, n, z)
                };
                lemma_reach_alternative(ts, p, base, end, k, b, i, r, z)
            }
        },
        Tree::Repeat { atom, min, max, greedy } => {
            let from = lemma_repeat_parts(p, base, t);
            let c = lemma_repeat_elim(t, b, i, j);
            let m = lemma_times_split(*atom, min as int, c - min, b, i, j);
            let r = match max {
                Some(limit) => lemma_options_lead_through(
                    *atom,
                    limit - min,
                    c - min,
                    p,
                    from,
                    greedy,
                    b,
                    m,
                    j,
                    n,
                    z,
                ),
                None => {
                    lemma_fork_leads(
                        p,
                        b,
                        from,
                        greedy,
                        from + 1,
                        from + engine::size(*atom) + 2,
                        j,
                        n,
                        z,
                    );
                    lemma_star_leads_through(*atom, c - min, p, from, greedy, b, m, j, n + 1, z)
                },
            };
            lemma_copies_lead_through(*atom, min as int, p, base, b, i, m, r, z)
        },
    }
}

proof fn lemma_parts_lead_through(
    ts: Seq<Tree>,
    k: int,
    p: Seq<Step>,
    base: int,
    b: Seq<u8>,
    i: int,
    j: int,
    n: nat,
    z: int,
) -> (r: nat)
    requires
        0 <= k <= ts.len(),
        engine::all_well_formed(ts),
        stands(p, base, engine::concat_code(ts, k, base)),
        matches_parts(ts, k, b, i, j),
        leads(p, b, base + engine::size_of_first(ts, k), j, n, z),
    ensures
        leads(p, b, base, i, r, z),
    decreases ts, k, 0int,
{
    if k == 0 {
        n
    } else {
        let here = base + engine::size_of_first(ts, k - 1);
        engine::lemma_concat_code_len(ts, k - 1, base);
        lemma_stands_split(
            p,
            base,
            engine::concat_code(ts, k - 1, base),
            engine::code(ts[k - 1], here),
        );
        let m = lemma_parts_elim(ts, k, b, i, j);
        let r = lemma_match_leads_through(ts[k - 1], p, here, b, m, j, n, z);
        lemma_parts_lead_through(ts, k - 1, p, base, b, i, m, r, z)
    }
}

/// A thread at the start of an alternation can come to each alternative.
proof fn lemma_reach_alternative(
    ts: Seq<Tree>,
    p: Seq<Step>,
    base: int,
    end: int,
    k: int,
    b: Seq<u8>,
    i: int,
    n: nat,
    z: int,
) -> (r: nat)
    requires
        0 <= k < ts.len(),
        stands(p, base, engine::alt_code(ts, ts.len() as int, base, end)),
        leads(p, b, base + engine::alt_size(ts, k), i, n, z),
    ensures
        leads(p, b, base, i, r, z),
    decreases ts, k, 1int,
{
    if k == 0 {
        n
    } else {
        let here = base + engine::alt_size(ts, k - 1);
        lemma_alt_blocks(ts, ts.len() as int, p, base, end, k - 1);
        lemma_fork_leads(
            p,
            b,
            here,
            true,
            here + 1,
            here + engine::size(ts[k - 1]) + 2,
            i,
            n,
            z,
        );
        lemma_reach_alternative(ts, p, base, end, k - 1, b, i, n + 1, z)
    }
}

proof fn lemma_copies_lead_through(
    t: Tree,
    c: int,
    p: Seq<Step>,
    base: int,
    b: Seq<u8>,
    i: int,
    j: int,
    n: nat,
    z: int,
) -> (r: nat)
    requires
        c >= 0,
        engine::well_formed(t),
        stands(p, base, engine::copies(t, c, base)),
        matches_times(t, c, b, i, j),
        leads(p, b, base + c * engine::size(t), j, n, z),
    ensures
        leads(p, b, base, i, r, z),
    decreases t, 1int, c,
{
    if c == 0 {
        assert(0 * engine::size(t) == 0) by (nonlinear_arith);
        n
    } else {
        lemma_last_copy(p, base, t, c);
        let here = base + (c - 1) * engine::size(t);
        let m = lemma_times_elim(t, c, b, i, j);
        let r = lemma_match_leads_through(t, p, here, b, m, j, n, z);
        lemma_copies_lead_through(t, c - 1, p, base, b, i, m, r, z)
    }
}

proof fn lemma_options_lead_through(
    t: Tree,
    k: int,
    c: int,
    p: Seq<Step>,
    base: int,
    greedy: bool,
    b: Seq<u8>,
    i: int,
    j: int,
    n: nat,
    z: int,
) -> (r: nat)
    requires
        0 <= c <= k,
        engine::well_formed(t),
        stands(p, base, engine::options(t, k, base, greedy)),
        matches_times(t, c, b, i, j),
        leads(p, b, base + k * (engine::size(t) + 1), j, n, z),
    ensures
        leads(p, b, base, i, r, z),
    decreases t, 1int, k,
{
    if k == 0 {
        assert(0 * (engine::size(t) + 1) == 0) by (nonlinear_arith);
        n
    } else {
        lemma_last_option(p, base, t, k, greedy);
        let here = base + (k - 1) * (engine::size(t) + 1);
        let past = here + engine::size(t) + 1;
        if c == k {
            let m = lemma_times_elim(t, c, b, i, j);
            let r = lemma_match_leads_through(t, p, here + 1, b, m, j, n, z);
            lemma_fork_leads(p, b, here, greedy, here + 1, past, m, r, z);
            lemma_options_lead_through(t, k - 1, c - 1, p, base, greedy, b, i, m, r + 1, z)
        } else {
            lemma_fork_leads(p, b, here, greedy, here + 1, past, j, n, z);
            lemma_options_lead_through(t, k - 1, c, p, base, greedy, b, i, j, n + 1, z)
        }
    }
}

proof fn lemma_star_leads_through(
    t: Tree,
    c: int,
    p: Seq<Step>,
    from: int,
    greedy: bool,
    b: Seq<u8>,
    i: int,
    j: int,
    n: nat,
    z: int,
) -> (r: nat)
    requires
        c >= 0,
        engine::well_formed(t),
        p[from] == engine::fork(greedy, from + 1, from + engine::size(t) + 2),
        stands(p, from + 1, engine::code(t, from + 1)),
        p[from + 1 + engine::size(t)] == Step::Jump(from),
        matches_times(t, c, b, i, j),
        leads(p, b, from, j, n, z),
    ensures
        leads(p, b, from, i, r, z),
    decreases t, 1int, c,
{
    if c == 0 {
        n
    } else {
        let m = lemma_times_elim(t, c, b, i, j);
        lemma_jump_leads(p, b, from + 1 + engine::size(t), from, j, n, z);
        let r = lemma_match_leads_through(t, p, from + 1, b, m, j, n + 1, z);
        lemma_fork_leads(
            p,
            b,
            from,
            greedy,
            from + 1,
            from + engine::size(t) + 2,
            m,
            r,
            z,
        );
        lemma_star_leads_through(t, c - 1, p, from, greedy, b, i, m, r + 1, z)
    }
}

/// A thread that leads somewhere from the start of a tree's code does so by a match of the tree.
proof fn lemma_leading_through_matches(
    t: Tree,
    p: Seq<Step>,
    base: int,
    b: Seq<u8>,
    i: int,
    n: nat,
    z: int,
) -> (r: (int, nat))
    requires
        engine::well_formed(t),
        stands(p, base, engine::code(t, base)),
        leads(p, b, base, i, n, z),
    ensures
        matches(t, b, i, r.0),
        r.1 <= n,
        leads(p, b, base + engine::size(t), r.0, r.1, z),
    decreases t, 0int, 0int,
{
    match t {
        Tree::Char(test) => {
            lemma_stands_one(p, base, Step::Char(test));
            let next = engine::successors(p, b, base, i)->0;
            (next[0].1, (n - 1) as nat)
        },
        Tree::Start => {
            lemma_stands_one(p, base, Step::Start);
            (i, (n - 1) as nat)
        },
        Tree::End => {
            lemma_stands_one(p, base, Step::End);
            (i, (n - 1) as nat)
        },
        Tree::Concat(ts) => lemma_leading_through_parts(
            ts,
            ts.len() as int,
            p,
            base,
            b,
            i,
            n,
            z,
        ),
        Tree::Alt(ts) => {
            if ts.len() == 0 {
                (i, n)
            } else {
                lemma_leading_through_alternatives(ts, 0, p, base, b, i, n, z)
            }
        },
        Tree::Repeat { atom, min, max, greedy } => {
            let from = lemma_repeat_parts(p, base, t);
            let (m, n1) = lemma_leading_through_copies(*atom, min as int, p, base, b, i, n, z);
            let (c, j, n2) = match max {
                Some(limit) => lemma_leading_through_options(
                    *atom,
                    limit - min,
                    p,
                    from,
                    greedy,
                    b,
                    m,
                    n1,
                    z,
                ),
                None => lemma_leading_through_star(*atom, p, from, greedy, b, m, n1, z),
            };
            lemma_times_join(*atom, min as int, c, b, i, m, j);
            lemma_repeat_intro(t, min + c, b, i, j);
            (j, n2)
        },
    }
}

proof fn lemma_leading_through_parts(
    ts: Seq<Tree>,
    k: int,
    p: Seq<Step>,
    base: int,
    b: Seq<u8>,
    i: int,
    n: nat,
    z: int,
) -> (r: (int, nat))
    requires
        0 <= k <= ts.len(),
        engine::all_well_formed(ts),
        stands(p, base, engine::concat_code(ts, k, base)),
        leads(p, b, base, i, n, z),
    ensures
        matches_parts(ts, k, b, i, r.0),
        r.1 <= n,
        leads(p, b, base + engine::size_of_first(ts, k), r.0, r.1, z),
    decreases ts, k, 0int,
{
    if k == 0 {
        (i, n)
    } else {
        let here = base + engine::size_of_first(ts, k - 1);
        engine::lemma_concat_code_len(ts, k - 1, base);
        lemma_stands_split(
            p,
            base,
            engine::concat_code(ts, k - 1, base),
            engine::code(ts[k - 1], here),
        );
        let (m, n1) = lemma_leading_through_parts(ts, k - 1, p, base, b, i, n, z);
        let (j, n2) = lemma_leading_through_matches(ts[k - 1], p, here, b, m, n1, z);
        lemma_parts_intro(ts, k, b, i, m, j);
        (j, n2)
    }
}

proof fn lemma_leading_through_alternatives(
    ts: Seq<Tree>,
    k: int,
    p: Seq<Step>,
    base: int,
    b: Seq<u8>,
    i: int,
    n: nat,
    z: int,
) -> (r: (int, nat))
    requires
        0 <= k < ts.len(),
        engine::all_well_formed(ts),
        stands(
            p,
            base,
            engine::alt_code(
                ts,
                ts.len() as int,
                base,
                base + engine::alt_size(ts, ts.len() as int),
            ),
        ),
        leads(p, b, base + engine::alt_size(ts, k), i, n, z),
    ensures
        matches(Tree::Alt(ts), b, i, r.0),
        r.1 <= n,
        leads(p, b, base + engine::alt_size(ts, ts.len() as int), r.0, r.1, z),
    decreases ts, ts.len() - k, 0int,
{
    let end = base + engine::alt_size(ts, ts.len() as int);
    let here = base + engine::alt_size(ts, k);
    lemma_alt_blocks(ts, ts.len() as int, p, base, end, k);
    if k + 1 < ts.len() {
        let next = here + engine::size(ts[k]) + 2;
        lemma_fork_leads(p, b, here, true, here + 1, next, i, n, z);
        if leads(p, b, here + 1, i, (n - 1) as nat, z) {
            let (j, n1) = lemma_leading_through_matches(
                ts[k],
                p,
                here + 1,
                b,
                i,
                (n - 1) as nat,
                z,
            );
            lemma_jump_leads(p, b, here + 1 + engine::size(ts[k]), end, j, n1, z);
            lemma_alt_intro(ts, k, b, i, j);
            (j, (n1 - 1) as nat)
        } else {
            assert(next == base + engine::alt_size(ts, k + 1));
            lemma_leading_through_alternatives(ts, k + 1, p, base, b, i, (n - 1) as nat, z)
        }
    } else {
        let (j, n1) = lemma_leading_through_matches(ts[k], p, here, b, i, n, z);
        assert(end == here + engine::size(ts[k]));
        lemma_alt_intro(ts, k, b, i, j);
        (j, n1)
    }
}

proof fn lemma_leading_through_copies(
    t: Tree,
    c: int,
    p: Seq<Step>,
    base: int,
    b: Seq<u8>,
    i: int,
    n: nat,
    z: int,
) -> (r: (int, nat))
    requires
        c >= 0,
        engine::well_formed(t),
        stands(p, base, engine::copies(t, c, base)),
        leads(p, b, base, i, n, z),
    ensures
        matches_times(t, c, b, i, r.0),
        r.1 <= n,
        leads(p, b, base + c * engine::size(t), r.0, r.1, z),
    decreases t, 1int, c,
{
    if c == 0 {
        assert(0 * engine::size(t) == 0) by (nonlinear_arith);
        (i, n)
    } else {
        lemma_last_copy(p, base, t, c);
        let here = base + (c - 1) * engine::size(t);
        let (m, n1) = lemma_leading_through_copies(t, c - 1, p, base, b, i, n, z);
        let (j, n2) = lemma_leading_through_matches(t, p, here, b, m, n1, z);
        lemma_times_intro(t, c, b, i, m, j);
        (j, n2)
    }
}

proof fn lemma_leading_through_options(
    t: Tree,
    k: int,
    p: Seq<Step>,
    base: int,
    greedy: bool,
    b: Seq<u8>,
    i: int,
    n: nat,
    z: int,
) -> (r: (int, int, nat))
    requires
        k >= 0,
        engine::well_formed(t),
        stands(p, base, engine::options(t, k, base, greedy)),
        leads(p, b, base, i, n, z),
    ensures
        0 <= r.0 <= k,
        matches_times(t, r.0, b, i, r.1),
        r.2 <= n,
        leads(p, b, base + k * (engine::size(t) + 1), r.1, r.2, z),
    decreases t, 1int, k,
{
    if k == 0 {
        assert(0 * (engine::size(t) + 1) == 0) by (nonlinear_arith);
        (0, i, n)
    } else {
        lemma_last_option(p, base, t, k, greedy);
        let here = base + (k - 1) * (engine::size(t) + 1);
        let past = here + engine::size(t) + 1;
        let (c, m, n1) = lemma_leading_through_options(t, k - 1, p, base, greedy, b, i, n, z);
        lemma_fork_leads(p, b, here, greedy, here + 1, past, m, n1, z);
        if leads(p, b, here + 1, m, (n1 - 1) as nat, z) {
            let (j, n2) = lemma_leading_through_matches(
                t,
                p,
                here + 1,
                b,
                m,
                (n1 - 1) as nat,
                z,
            );
            lemma_times_intro(t, c + 1, b, i, m, j);
            (c + 1, j, n2)
        } else {
            (c, m, (n1 - 1) as nat)
        }
    }
}

proof fn lemma_leading_through_star(
    t: Tree,
    p: Seq<Step>,
    from: int,
    greedy: bool,
    b: Seq<u8>,
    i: int,
    n: nat,
    z: int,
) -> (r: (int, int, nat))
    requires
        engine::well_formed(t),
        p[from] == engine::fork(greedy, from + 1, from + engine::size(t) + 2),
        stands(p, from + 1, engine::code(t, from + 1)),
        p[from + 1 + engine::size(t)] == Step::Jump(from),
        leads(p, b, from, i, n, z),
    ensures
        0 <= r.0,
        matches_times(t, r.0, b, i, r.1),
        r.2 <= n,
        leads(p, b, from + engine::size(t) + 2, r.1, r.2, z),
    decreases t, 1int, n,
{
    let past = from + engine::size(t) + 2;
    lemma_fork_leads(p, b, from, greedy, from + 1, past, i, n, z);
    if leads(p, b, past, i, (n - 1) as nat, z) {
        (0, i, (n - 1) as nat)
    } else {
        let (m, n1) = lemma_leading_through_matches(
            t,
            p,
            from + 1,
            b,
            i,
            (n - 1) as nat,
            z,
        );
        lemma_jump_leads(p, b, from + 1 + engine::size(t), from, m, n1, z);
        let (c, j, n2) = lemma_leading_through_star(
            t,
            p,
            from,
            greedy,
            b,
            m,
            (n1 - 1) as nat,
            z,
        );
        assert(matches_times(t, 0, b, i, i));
        lemma_times_intro(t, 1, b, i, i, m);
        lemma_times_join(t, 1, c, b, i, m, j);
        (c + 1, j, n2)
    }
}

/// What the program of a pattern finds is a match of the pattern.
pub proof fn lemma_found_is_a_match(t: Tree, b: Seq<u8>, start: int, end: int)
    requires
        engine::well_formed(t),
        engine::match_end(engine::program(t), b, start) == Some(end),
    ensures
        matches(t, b, start, end),
{
    let p = engine::program(t);
    engine::lemma_code_len(t, 0);
    let (k, n) = lemma_run_found(p, b, seq![(0, start)], engine::STEP_CAP as nat, end);
    assert(stands(p, 0, engine::code(t, 0)));
    let (j, m) = lemma_leading_through_matches(t, p, 0, b, start, n, end);
    assert(p[engine::size(t) as int] is Match);
}

/// Where the program of a pattern exhausts its ways, the pattern has no match.
pub proof fn lemma_exhausted_means_no_match(t: Tree, b: Seq<u8>, start: int, end: int)
    requires
        engine::well_formed(t),
        engine::outcome(engine::program(t), b, start) is Exhausted,
    ensures
        !matches(t, b, start, end),
{
    let p = engine::program(t);
    engine::lemma_code_len(t, 0);
    if matches(t, b, start, end) {
        assert(stands(p, 0, engine::code(t, 0)));
        assert(p[engine::size(t) as int] is Match);
        assert(leads(p, b, engine::size(t) as int, end, 1, end));
        let n = lemma_match_leads_through(t, p, 0, b, start, end, 1, end);
        lemma_run_exhausted(p, b, seq![(0, start)], engine::STEP_CAP as nat, 0, n, end);
    }
}

/// In well-formed text a pattern is found at a character boundary exactly where it has a
/// match, unless the limit on the number of steps is reached.
pub proof fn lemma_found_iff_a_match_exists(t: Tree, s: Seq<char>, start: int)
    requires
        engine::well_formed(t),
        0 <= start <= encode_utf8(s).len(),
        is_char_boundary(encode_utf8(s), start),
        !(engine::outcome(engine::program(t), encode_utf8(s), start) is OverBudget),
    ensures
        engine::match_end(engine::program(t), encode_utf8(s), start) is Some <==> exists|end: int|
            matches(t, encode_utf8(s), start, end),
{
    let b = encode_utf8(s);
    let p = engine::program(t);
    encode_utf8_valid_utf8(s);
    engine::lemma_match_end_in_text(p, b, start);
    match engine::match_end(p, b, start) {
        Some(end) => {
            lemma_found_is_a_match(t, b, start, end);
        },
        None => {
            assert forall|end: int| !matches(t, b, start, end) by {
                lemma_exhausted_means_no_match(t, b, start, end);
            }
        },
    }
}

/// Inside a character nothing is found but the empty match.
proof fn lemma_no_way_out_of_a_character(
    p: Seq<Step>,
    b: Seq<u8>,
    threads: Seq<(int, int)>,
    budget: nat,
    pos: int,
)
    requires
        pos < b.len(),
        text::char_at(b, pos) is None,
        forall|i: int| 0 <= i < threads.len() ==> (#[trigger] threads[i]).1 == pos,
    ensures
        engine::run(p, b, threads, budget) matches Outcome::Found(end) ==> end == pos,
    decreases budget,
{
    if threads.len() > 0 && budget > 0 {
        let (pc, here) = threads.last();
        assert(threads[threads.len() - 1] == (pc, here));
        if !(p[pc] is Match) {
            if let Some(next) = engine::successors(p, b, pc, here) {
                let after = threads.drop_last() + next;
                assert forall|i: int| 0 <= i < after.len() implies (#[trigger] after[i]).1
                    == pos by {
                    if i < threads.len() - 1 {
                        assert(after[i] == threads[i]);
                    }
                }
                lemma_no_way_out_of_a_character(p, b, after, (budget - 1) as nat, pos);
            }
        }
    }
}

/// The hits of a scan are not empty, lie in the text between character boundaries, and
/// follow one another without overlap.
pub proof fn lemma_hits_are_apart(p: Seq<Step>, s: Seq<char>, pos: int)
    requires
        0 <= pos <= encode_utf8(s).len(),
    ensures
        ({
            let b = encode_utf8(s);
            let hits = engine::scan(p, b, pos);
            &&& forall|k: int|
                0 <= k < hits.len() ==> pos <= (#[trigger] hits[k]).0 < hits[k].1 <= b.len()
            &&& forall|k: int, l: int|
                0 <= k < l < hits.len() ==> (#[trigger] hits[k]).1 <= (#[trigger] hits[l]).0
            &&& forall|k: int|
                0 <= k < hits.len() ==> is_char_boundary(b, (#[trigger] hits[k]).0)
                    && is_char_boundary(b, hits[k].1)
            &&& forall|k: int|
                0 <= k < hits.len() ==> engine::match_end(p, b, (#[trigger] hits[k]).0) == Some(
                    hits[k].1,
                )
        }),
    decreases encode_utf8(s).len() - pos,
{
    let b = encode_utf8(s);
    encode_utf8_valid_utf8(s);
    engine::lemma_match_end_in_text(p, b, pos);
    if pos < b.len() {
        text::lemma_char_at_boundary(b, pos);
    }
    match engine::match_end(p, b, pos) {
        Some(end) => if pos < end <= b.len() {
            if text::char_at(b, pos) is None {
                lemma_no_way_out_of_a_character(
                    p,
                    b,
                    seq![(0, pos)],
                    engine::STEP_CAP as nat,
                    pos,
                );
            }
            lemma_hits_are_apart(p, s, end);
        } else if pos < b.len() {
            lemma_hits_are_apart(p, s, pos + 1);
        },
        None => if pos < b.len() {
            lemma_hits_are_apart(p, s, engine::next_place(b, pos));
        },
    }
}

/// No character boundary lies inside a character.
proof fn lemma_no_boundary_inside(b: Seq<u8>, pos: int, q: int)
    requires
        valid_utf8(b),
        0 <= pos < q < b.len(),
        text::char_at(b, pos) is Some,
        q < pos + text::width(text::char_at(b, pos)->0),
    ensures
        !is_char_boundary(b, q),
{
    let rest = b.skip(pos);
    text::lemma_char_at_boundary(b, pos);
    text::lemma_char_at_width(b, pos);
    assert(rest[q - pos] == b[q]);
    assert(is_continuation_byte(rest[q - pos]));
    is_char_boundary_iff_not_is_continuation_byte(b, q);
}

/// The byte `q` lies inside one of the hits.
pub open spec fn is_covered(hits: Seq<(int, int)>, q: int) -> bool {
    exists|k: int| 0 <= k < hits.len() && (#[trigger] hits[k]).0 <= q < hits[k].1
}

/// A scan misses nothing: at every character boundary behind its start that lies in none of
/// its hits, the program finds nothing, or nothing but the empty match.
pub proof fn lemma_scan_misses_nothing(p: Seq<Step>, s: Seq<char>, pos: int, q: int)
    requires
        0 <= pos <= q <= encode_utf8(s).len(),
        is_char_boundary(encode_utf8(s), q),
        !is_covered(engine::scan(p, encode_utf8(s), pos), q),
    ensures
        engine::match_end(p, encode_utf8(s), q) matches Some(end) ==> end == q,
    decreases encode_utf8(s).len() - pos,
{
    let b = encode_utf8(s);
    encode_utf8_valid_utf8(s);
    engine::lemma_match_end_in_text(p, b, pos);
    if pos < b.len() {
        text::lemma_char_at_boundary(b, pos);
    }
    let hits = engine::scan(p, b, pos);
    match engine::match_end(p, b, pos) {
        Some(end) => if pos < end <= b.len() {
            let rest = engine::scan(p, b, end);
            assert(hits[0] == (pos, end));
            assert(q >= end);
            assert(!is_covered(rest, q)) by {
                if is_covered(rest, q) {
                    let k = choose|k: int|
                        0 <= k < rest.len() && (#[trigger] rest[k]).0 <= q < rest[k].1;
                    assert(hits[k + 1] == rest[k]);
                }
            }
            lemma_scan_misses_nothing(p, s, end, q);
        } else if pos < q {
            lemma_scan_misses_nothing(p, s, pos + 1, q);
        },
        None => if pos < q {
            let next = engine::next_place(b, pos);
            if q < next {
                lemma_no_boundary_inside(b, pos, q);
            }
            lemma_scan_misses_nothing(p, s, next, q);
        },
    }
}

/// Where the pattern has a match that is not empty, at a character boundary, a scan of the whole
/// text has a hit that covers the place, unless the run there prefers the empty match or
/// reaches the limit on the number of steps.
pub proof fn lemma_scan_covers_matches(t: Tree, s: Seq<char>, start: int, end: int)
    requires
        engine::well_formed(t),
        0 <= start < end,
        start <= encode_utf8(s).len(),
        is_char_boundary(encode_utf8(s), start),
        matches(t, encode_utf8(s), start, end),
        !(engine::outcome(engine::program(t), encode_utf8(s), start) is OverBudget),
        engine::match_end(engine::program(t), encode_utf8(s), start) != Some(start),
    ensures
        is_covered(engine::scan(engine::program(t), encode_utf8(s), 0), start),
{
    let p = engine::program(t);
    lemma_found_iff_a_match_exists(t, s, start);
    if !is_covered(engine::scan(p, encode_utf8(s), 0), start) {
        lemma_scan_misses_nothing(p, s, 0, start);
    }
}

}
