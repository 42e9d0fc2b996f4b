//! Laws of the order in which the engine tries its ways: as much as possible is taken, or as
//! little as possible where that is asked for.

use crate::engine;
use crate::engine::{CharTest, Outcome, Step, Tree};
use crate::matching;
use crate::text;
use vstd::prelude::*;

verus! {

broadcast use vstd::seq::group_seq_axioms;

proof fn lemma_run_step(
    p: Seq<Step>,
    b: Seq<u8>,
    rest: Seq<(int, int)>,
    pc: int,
    i: int,
    next: Seq<(int, int)>,
    budget: nat,
)
    requires
        budget > 0,
        !(p[pc] is Match),
        engine::successors(p, b, pc, i) == Some(next),
    ensures
        engine::run(p, b, rest.push((pc, i)), budget) == engine::run(
            p,
            b,
            rest + next,
            (budget - 1) as nat,
        ),
{
    let threads = rest.push((pc, i));
    assert(threads.drop_last() =~= rest);
    assert(threads.last() == (pc, i));
}

proof fn lemma_match_step(
    p: Seq<Step>,
    b: Seq<u8>,
    rest: Seq<(int, int)>,
    pc: int,
    i: int,
    budget: nat,
    z: int,
)
    requires
        p[pc] is Match,
        engine::run(p, b, rest.push((pc, i)), budget) == Outcome::Found(z),
    ensures
        z == i,
{
    assert(rest.push((pc, i)).last() == (pc, i));
}

/// No character, no repetition of it.
proof fn lemma_no_times(test: CharTest, c: int, b: Seq<u8>, i: int, j: int)
    requires
        matching::matches_times(Tree::Char(test), c, b, i, j),
        text::char_at(b, i) is None || !test.accepts(text::char_at(b, i)->0),
    ensures
        j == i,
{
    if c > 0 {
        let m = matching::lemma_times_split(Tree::Char(test), 1, c - 1, b, i, j);
        let k = choose|k: int| #[trigger]
            matching::pick(k) && matching::matches_times(Tree::Char(test), 0, b, i, k)
                && matching::matches(Tree::Char(test), b, k, m);
        assert(k == i);
    }
}

proof fn lemma_first_time(test: CharTest, c: int, b: Seq<u8>, i: int, j: int) -> (m: int)
    requires
        c > 0,
        matching::matches_times(Tree::Char(test), c, b, i, j),
    ensures
        text::char_at(b, i) is Some,
        test.accepts(text::char_at(b, i)->0),
        m == i + text::width(text::char_at(b, i)->0),
        matching::matches_times(Tree::Char(test), c - 1, b, m, j),
{
    let m = matching::lemma_times_split(Tree::Char(test), 1, c - 1, b, i, j);
    let k = choose|k: int| #[trigger]
        matching::pick(k) && matching::matches_times(Tree::Char(test), 0, b, i, k)
            && matching::matches(Tree::Char(test), b, k, m);
    assert(k == i);
    m
}

/// The loop of an unbounded repetition of single characters stands at `f`.
spec fn is_loop(p: Seq<Step>, f: int, test: CharTest, greedy: bool) -> bool {
    &&& p[f] == engine::fork(greedy, f + 1, f + 3)
    &&& p[f + 1] == Step::Char(test)
    &&& p[f + 2] == Step::Jump(f)
    &&& p[f + 3] is Match
}

/// A greedy loop does not stop before the last character that it could take.
proof fn lemma_greedy_loop(
    p: Seq<Step>,
    f: int,
    test: CharTest,
    b: Seq<u8>,
    rest: Seq<(int, int)>,
    i: int,
    budget: nat,
    z: int,
    c: int,
    j: int,
)
    requires
        is_loop(p, f, test, true),
        engine::run(p, b, rest.push((f, i)), budget) == Outcome::Found(z),
        matching::matches_times(Tree::Char(test), c, b, i, j),
    ensures
        i <= z,
        j <= z,
    decreases budget,
{
    let both = seq![(f + 3, i), (f + 1, i)];
    let later = rest.push((f + 3, i));
    assert(engine::successors(p, b, f, i) == Some(both));
    lemma_run_step(p, b, rest, f, i, both, budget);
    assert(rest + both =~= later.push((f + 1, i)));
    let n1 = (budget - 1) as nat;
    let none: Seq<(int, int)> = seq![];
    assert(later + none =~= later);
    if i >= b.len() {
        assert(text::char_at(b, i) is None);
        assert(engine::successors(p, b, f + 1, i) == Some(none));
        lemma_run_step(p, b, later, f + 1, i, none, n1);
        lemma_match_step(p, b, rest, f + 3, i, (n1 - 1) as nat, z);
        lemma_no_times(test, c, b, i, j);
    } else {
        match text::char_at(b, i) {
            None => {},
            Some(x) => {
                if test.accepts(x) {
                    text::lemma_char_at_width(b, i);
                    let m = i + text::width(x);
                    let one = seq![(f + 2, m)];
                    assert(engine::successors(p, b, f + 1, i) == Some(one));
                    lemma_run_step(p, b, later, f + 1, i, one, n1);
                    assert(later + one =~= later.push((f + 2, m)));
                    let back = seq![(f, m)];
                    let n2 = (n1 - 1) as nat;
                    assert(engine::successors(p, b, f + 2, m) == Some(back));
                    lemma_run_step(p, b, later, f + 2, m, back, n2);
                    assert(later + back =~= later.push((f, m)));
                    let n3 = (n2 - 1) as nat;
                    if c > 0 {
                        let k = lemma_first_time(test, c, b, i, j);
                        lemma_greedy_loop(p, f, test, b, later, m, n3, z, c - 1, j);
                    } else {
                        assert(matching::matches_times(Tree::Char(test), 0, b, m, m));
                        lemma_greedy_loop(p, f, test, b, later, m, n3, z, 0, m);
                    }
                } else {
                    assert(engine::successors(p, b, f + 1, i) == Some(none));
                    lemma_run_step(p, b, later, f + 1, i, none, n1);
                    lemma_match_step(p, b, rest, f + 3, i, (n1 - 1) as nat, z);
                    lemma_no_times(test, c, b, i, j);
                }
            },
        }
    }
}

/// A loop that is not greedy stops at once.
proof fn lemma_lazy_loop(
    p: Seq<Step>,
    f: int,
    test: CharTest,
    b: Seq<u8>,
    rest: Seq<(int, int)>,
    i: int,
    budget: nat,
    z: int,
)
    requires
        is_loop(p, f, test, false),
        engine::run(p, b, rest.push((f, i)), budget) == Outcome::Found(z),
    ensures
        z == i,
{
    let both = seq![(f + 1, i), (f + 3, i)];
    let later = rest.push((f + 1, i));
    assert(engine::successors(p, b, f, i) == Some(both));
    lemma_run_step(p, b, rest, f, i, both, budget);
    assert(rest + both =~= later.push((f + 3, i)));
    lemma_match_step(p, b, later, f + 3, i, (budget - 1) as nat, z);
}

proof fn lemma_star_program(test: CharTest, min: u32, greedy: bool)
    requires
        min <= 1,
    ensures
        ({
            let t = Tree::Repeat { atom: Box::new(Tree::Char(test)), min, max: None, greedy };
            let p = engine::program(t);
            is_loop(p, min as int, test, greedy) && (min == 1 ==> p[0] == Step::Char(test))
        }),
{
    let a = Tree::Char(test);
    let t = Tree::Repeat { atom: Box::new(a), min, max: None, greedy };
    reveal_with_fuel(engine::copies, 3);
    reveal_with_fuel(engine::code, 3);
    assert(engine::size(a) == 1);
    let head = engine::copies(a, min as int, 0);
    if min == 0 {
        assert(head =~= seq![]);
        assert(engine::code(t, 0) =~= seq![
            engine::fork(greedy, 1, 3),
            Step::Char(test),
            Step::Jump(0),
        ]);
    } else {
        let none: Seq<Step> = seq![];
        assert(engine::copies(a, 0, 0) =~= none);
        assert(head =~= seq![Step::Char(test)]);
        assert(engine::code(t, 0) =~= seq![
            Step::Char(test),
            engine::fork(greedy, 2, 4),
            Step::Char(test),
            Step::Jump(1),
        ]);
    }
}

/// `x*` and `x+` take as many characters as they can, and `x*?` and `x+?` as few: of all the
/// matches from a place on, the longest or the shortest is found.
pub proof fn lemma_unbounded_repetition(
    test: CharTest,
    min: u32,
    greedy: bool,
    b: Seq<u8>,
    start: int,
    found: int,
    other: int,
)
    requires
        min <= 1,
        ({
            let t = Tree::Repeat { atom: Box::new(Tree::Char(test)), min, max: None, greedy };
            &&& engine::match_end(engine::program(t), b, start) == Some(found)
            &&& matching::matches(t, b, start, other)
        }),
    ensures
        greedy ==> other <= found,
        !greedy ==> found <= other,
{
    let a = Tree::Char(test);
    let t = Tree::Repeat { atom: Box::new(a), min, max: None, greedy };
    let p = engine::program(t);
    lemma_star_program(test, min, greedy);
    let c = choose|c: int| #[trigger]
        matching::pick(c) && min <= c && matching::matches_times(a, c, b, start, other);
    let rest: Seq<(int, int)> = seq![];
    let cap = engine::STEP_CAP as nat;
    assert(seq![(0int, start)] =~= rest.push((0, start)));
    if min == 0 {
        if greedy {
            lemma_greedy_loop(p, 0, test, b, rest, start, cap, found, c, other);
        } else {
            lemma_lazy_loop(p, 0, test, b, rest, start, cap, found);
            lemma_times_go_on(test, c, b, start, other);
        }
    } else {
        let m = lemma_first_time(test, c, b, start, other);
        if start >= b.len() {
            assert(text::char_at(b, start) is None);
        }
        let one = seq![(1int, m)];
        assert(engine::successors(p, b, 0, start) == Some(one));
        lemma_run_step(p, b, rest, 0, start, one, cap);
        assert(rest + one =~= rest.push((1, m)));
        if greedy {
            lemma_greedy_loop(p, 1, test, b, rest, m, (cap - 1) as nat, found, c - 1, other);
        } else {
            lemma_lazy_loop(p, 1, test, b, rest, m, (cap - 1) as nat, found);
            lemma_times_go_on(test, c - 1, b, m, other);
        }
    }
}

/// Repetitions do not go back.
proof fn lemma_times_go_on(test: CharTest, c: int, b: Seq<u8>, i: int, j: int)
    requires
        matching::matches_times(Tree::Char(test), c, b, i, j),
    ensures
        i <= j,
    decreases c,
{
    if c > 0 {
        let m = choose|m: int| #[trigger]
            matching::pick(m) && matching::matches_times(Tree::Char(test), c - 1, b, i, m)
                && matching::matches(Tree::Char(test), b, m, j);
        lemma_times_go_on(test, c - 1, b, i, m);
        text::lemma_char_at_width(b, m);
    }
}

/// `x?` takes the character if it is there, and `x??` never does.
pub proof fn lemma_optional_character(
    test: CharTest,
    greedy: bool,
    b: Seq<u8>,
    start: int,
    found: int,
    other: int,
)
    requires
        ({
            let t = Tree::Repeat {
                atom: Box::new(Tree::Char(test)),
                min: 0,
                max: Some(1),
                greedy,
            };
            &&& engine::match_end(engine::program(t), b, start) == Some(found)
            &&& matching::matches(t, b, start, other)
        }),
    ensures
        greedy ==> other <= found,
        !greedy ==> found <= other,
{
    let a = Tree::Char(test);
    let t = Tree::Repeat { atom: Box::new(a), min: 0, max: Some(1), greedy };
    let p = engine::program(t);
    reveal_with_fuel(engine::copies, 2);
    reveal_with_fuel(engine::options, 3);
    reveal_with_fuel(engine::code, 3);
    assert(engine::size(a) == 1);
    let none: Seq<Step> = seq![];
    assert(engine::copies(a, 0, 0) =~= none);
    assert(engine::options(a, 0, 0, greedy) =~= none);
    assert(engine::options(a, 1, 0, greedy) =~= seq![engine::fork(greedy, 1, 2), Step::Char(test)]);
    assert(engine::code(t, 0) =~= seq![engine::fork(greedy, 1, 2), Step::Char(test)]);
    let c = choose|c: int| #[trigger]
        matching::pick(c) && 0 <= c <= 1 && matching::matches_times(a, c, b, start, other);
    let rest: Seq<(int, int)> = seq![];
    let cap = engine::STEP_CAP as nat;
    assert(seq![(0int, start)] =~= rest.push((0, start)));
    if greedy {
        let both = seq![(2int, start), (1int, start)];
        assert(engine::successors(p, b, 0, start) == Some(both));
        lemma_run_step(p, b, rest, 0, start, both, cap);
        let later = rest.push((2, start));
        assert(rest + both =~= later.push((1, start)));
        let n1 = (cap - 1) as nat;
        let nothing: Seq<(int, int)> = seq![];
        assert(later + nothing =~= later);
        if c > 0 {
            let m = lemma_first_time(test, c, b, start, other);
            if start >= b.len() {
                assert(text::char_at(b, start) is None);
            }
            assert(other == m);
            let one = seq![(2int, m)];
            assert(engine::successors(p, b, 1, start) == Some(one));
            lemma_run_step(p, b, later, 1, start, one, n1);
            assert(later + one =~= later.push((2, m)));
            lemma_match_step(p, b, later, 2, m, (n1 - 1) as nat, found);
        } else {
            assert(other == start);
            assert(engine::well_formed(a));
            matching::lemma_found_is_a_match(t, b, start, found);
            let d = choose|d: int| #[trigger]
                matching::pick(d) && 0 <= d <= 1 && matching::matches_times(a, d, b, start, found);
            lemma_times_go_on(test, d, b, start, found);
        }
    } else {
        let both = seq![(1int, start), (2int, start)];
        assert(engine::successors(p, b, 0, start) == Some(both));
        lemma_run_step(p, b, rest, 0, start, both, cap);
        let later = rest.push((1, start));
        assert(rest + both =~= later.push((2, start)));
        lemma_match_step(p, b, later, 2, start, (cap - 1) as nat, found);
        lemma_times_go_on(test, c, b, start, other);
    }
}

/// The instruction with its targets moved.
spec fn moved(s: Step, d: int) -> Step {
    match s {
        Step::Jump(t) => Step::Jump(t + d),
        Step::Split(a, c) => Step::Split(a + d, c + d),
        _ => s,
    }
}

spec fn all_moved(c: Seq<Step>, d: int) -> Seq<Step> {
    c.map_values(|s: Step| moved(s, d))
}

proof fn lemma_moved_parts(a: Seq<Step>, c: Seq<Step>, d: int)
    ensures
        all_moved(a + c, d) == all_moved(a, d) + all_moved(c, d),
{
    assert(all_moved(a + c, d) =~= all_moved(a, d) + all_moved(c, d));
}

proof fn lemma_moved_one(s: Step, d: int)
    ensures
        all_moved(seq![s], d) == seq![moved(s, d)],
{
    assert(all_moved(seq![s], d) =~= seq![moved(s, d)]);
}

/// The instructions of a tree at another place are the same ones with their targets moved.
proof fn lemma_code_moves(t: Tree, base: int, d: int)
    ensures
        engine::code(t, base + d) == all_moved(engine::code(t, base), d),
    decreases t, 0int, 0int,
{
    match t {
        Tree::Char(k) => {
            lemma_moved_one(Step::Char(k), d);
        },
        Tree::Start => {
            lemma_moved_one(Step::Start, d);
        },
        Tree::End => {
            lemma_moved_one(Step::End, d);
        },
        Tree::Concat(ts) => {
            lemma_concat_moves(ts, ts.len() as int, base, d);
        },
        Tree::Alt(ts) => {
            let n = ts.len() as int;
            lemma_alt_moves(ts, n, base, base + engine::alt_size(ts, n), d);
        },
        Tree::Repeat { atom, min, max, greedy } => {
            let head = engine::copies(*atom, min as int, base);
            let from = base + head.len();
            lemma_copies_move(*atom, min as int, base, d);
            match max {
                Some(m) => {
                    lemma_options_move(*atom, m - min, from, greedy, d);
                    lemma_moved_parts(head, engine::options(*atom, m - min, from, greedy), d);
                    assert(engine::copies(*atom, min as int, base + d).len() == head.len());
                },
                None => {
                    let choice = engine::fork(greedy, from + 1, from + engine::size(*atom) + 2);
                    let body = engine::code(*atom, from + 1);
                    lemma_code_moves(*atom, from + 1, d);
                    lemma_moved_one(choice, d);
                    lemma_moved_one(Step::Jump(from), d);
                    lemma_moved_parts(head, seq![choice], d);
                    lemma_moved_parts(head + seq![choice], body, d);
                    lemma_moved_parts(head + seq![choice] + body, seq![Step::Jump(from)], d);
                    assert(engine::copies(*atom, min as int, base + d).len() == head.len());
                    assert(from + 1 + d == (from + d) + 1);
                },
            }
        },
    }
}

proof fn lemma_concat_moves(ts: Seq<Tree>, n: int, base: int, d: int)
    requires
        0 <= n <= ts.len(),
    ensures
        engine::concat_code(ts, n, base + d) == all_moved(engine::concat_code(ts, n, base), d),
    decreases ts, 0int, n,
{
    if n > 0 {
        lemma_concat_moves(ts, n - 1, base, d);
        let here = base + engine::size_of_first(ts, n - 1);
        lemma_code_moves(ts[n - 1], here, d);
        lemma_moved_parts(
            engine::concat_code(ts, n - 1, base),
            engine::code(ts[n - 1], here),
            d,
        );
        assert(here + d == (base + d) + engine::size_of_first(ts, n - 1));
    } else {
        assert(all_moved(engine::concat_code(ts, n, base), d) =~= seq![]);
    }
}

proof fn lemma_alt_moves(ts: Seq<Tree>, n: int, base: int, end: int, d: int)
    requires
        0 <= n <= ts.len(),
    ensures
        engine::alt_code(ts, n, base + d, end + d) == all_moved(
            engine::alt_code(ts, n, base, end),
            d,
        ),
    decreases ts, 0int, n,
{
    if n > 0 {
        lemma_alt_moves(ts, n - 1, base, end, d);
        let front = engine::alt_code(ts, n - 1, base, end);
        let here = base + engine::alt_size(ts, n - 1);
        let t = ts[n - 1];
        assert(here + d == (base + d) + engine::alt_size(ts, n - 1));
        if n < ts.len() {
            let choice = Step::Split(here + 1, here + engine::size(t) + 2);
            let body = engine::code(t, here + 1);
            lemma_code_moves(t, here + 1, d);
            assert(here + 1 + d == (here + d) + 1);
            lemma_moved_one(choice, d);
            lemma_moved_one(Step::Jump(end), d);
            lemma_moved_parts(front, seq![choice], d);
            lemma_moved_parts(front + seq![choice], body, d);
            lemma_moved_parts(front + seq![choice] + body, seq![Step::Jump(end)], d);
        } else {
            lemma_code_moves(t, here, d);
            lemma_moved_parts(front, engine::code(t, here), d);
        }
    } else {
        assert(all_moved(engine::alt_code(ts, n, base, end), d) =~= seq![]);
    }
}

proof fn lemma_copies_move(t: Tree, n: int, base: int, d: int)
    ensures
        engine::copies(t, n, base + d) == all_moved(engine::copies(t, n, base), d),
    decreases t, 1int, n,
{
    if n > 0 {
        lemma_copies_move(t, n - 1, base, d);
        let here = base + (n - 1) * engine::size(t);
        lemma_code_moves(t, here, d);
        lemma_moved_parts(engine::copies(t, n - 1, base), engine::code(t, here), d);
        assert(here + d == (base + d) + (n - 1) * engine::size(t));
    } else {
        assert(all_moved(engine::copies(t, n, base), d) =~= seq![]);
    }
}

proof fn lemma_options_move(t: Tree, n: int, base: int, greedy: bool, d: int)
    ensures
        engine::options(t, n, base + d, greedy) == all_moved(
            engine::options(t, n, base, greedy),
            d,
        ),
    decreases t, 1int, n,
{
    if n > 0 {
        lemma_options_move(t, n - 1, base, greedy, d);
        let here = base + (n - 1) * (engine::size(t) + 1);
        let front = engine::options(t, n - 1, base, greedy);
        let choice = engine::fork(greedy, here + 1, here + engine::size(t) + 1);
        let body = engine::code(t, here + 1);
        lemma_code_moves(t, here + 1, d);
        assert(here + 1 + d == (here + d) + 1);
        assert(here + d == (base + d) + (n - 1) * (engine::size(t) + 1));
        lemma_moved_one(choice, d);
        lemma_moved_parts(front, seq![choice], d);
        lemma_moved_parts(front + seq![choice], body, d);
    } else {
        assert(all_moved(engine::options(t, n, base, greedy), d) =~= seq![]);
    }
}

/// The threads of a run, moved.
spec fn threads_moved(threads: Seq<(int, int)>, d: int) -> Seq<(int, int)> {
    threads.map_values(|x: (int, int)| (x.0 + d, x.1))
}

/// All threads stand in the program of the tree.
spec fn within(threads: Seq<(int, int)>, n: int) -> bool {
    forall|k: int| 0 <= k < threads.len() ==> 0 <= (#[trigger] threads[k]).0 <= n
}

/// What the program of a tree finds by itself, it finds as a part of another program, before
/// anything that waits below it, if its end leads straight to a match.
proof fn lemma_part_finds(
    t: Tree,
    p: Seq<Step>,
    base: int,
    exit: int,
    b: Seq<u8>,
    threads: Seq<(int, int)>,
    rest: Seq<(int, int)>,
    budget: nat,
    z: int,
)
    requires
        engine::well_formed(t),
        0 <= base,
        base + engine::size(t) < p.len(),
        p.subrange(base, (base + engine::size(t)) as int) == engine::code(t, base),
        p[(base + engine::size(t)) as int] == Step::Jump(exit),
        p[exit] is Match,
        within(threads, engine::size(t) as int),
        engine::run(engine::program(t), b, threads, budget) == Outcome::Found(z),
    ensures
        engine::run(p, b, rest + threads_moved(threads, base), budget + 1) == Outcome::Found(z),
    decreases budget,
{
    let own = engine::program(t);
    let size = engine::size(t) as int;
    let (pc, i) = threads.last();
    let front = threads.drop_last();
    let below = rest + threads_moved(front, base);
    assert(threads[threads.len() - 1] == (pc, i));
    assert(threads =~= front.push((pc, i)));
    assert(rest + threads_moved(threads, base) =~= below.push((pc + base, i)));
    engine::lemma_code_len(t, 0);
    engine::lemma_code_len(t, base);
    if pc == size {
        assert(own[pc] is Match);
        let one = seq![(exit, i)];
        assert(engine::successors(p, b, pc + base, i) == Some(one));
        lemma_run_step(p, b, below, pc + base, i, one, budget + 1);
        assert(below + one =~= below.push((exit, i)));
        let now = below.push((exit, i));
        assert(now.last() == (exit, i));
    } else {
        lemma_code_moves(t, 0, base);
        assert(engine::code(t, 0 + base) == engine::code(t, base));
        let step = engine::code(t, 0)[pc];
        assert(own[pc] == step);
        assert(p.subrange(base, base + size)[pc] == engine::code(t, base)[pc]);
        assert(p[pc + base] == moved(step, base));
        engine::lemma_program_is_closed(t);
        assert(own.len() == size + 1);
        if step is Match {
            engine::lemma_targets_within(t, 0);
        }
        assert(!(step is Match));
        let next = engine::successors(own, b, pc, i)->0;
        assert(engine::successors(own, b, pc, i) is Some);
        assert(next.len() <= 2);
        let theirs = threads_moved(next, base);
        assert(engine::successors(p, b, pc + base, i)->0 =~= theirs);
        assert(engine::successors(p, b, pc + base, i) == Some(theirs));
        lemma_run_step(own, b, front, pc, i, next, budget);
        lemma_run_step(p, b, below, pc + base, i, theirs, budget + 1);
        let after = front + next;
        assert(within(after, size)) by {
            assert forall|k: int| 0 <= k < after.len() implies 0 <= (#[trigger] after[k]).0
                <= size by {
                if k < front.len() {
                    assert(after[k] == threads[k]);
                } else {
                    assert(after[k] == next[k - front.len()]);
                }
            }
        }
        lemma_part_finds(t, p, base, exit, b, after, rest, (budget - 1) as nat, z);
        assert(rest + threads_moved(after, base) =~= below + theirs);
        assert((budget - 1) as nat + 1 == (budget + 1 - 1) as nat);
    }
}

/// Where the first of several alternatives finds a match by itself, two steps under the limit, the
/// choice finds the same match, whatever the other alternatives are.
pub proof fn lemma_first_alternative_is_preferred(
    ts: Seq<Tree>,
    b: Seq<u8>,
    start: int,
    end: int,
)
    requires
        ts.len() > 1,
        engine::well_formed(Tree::Alt(ts)),
        engine::run(
            engine::program(ts[0]),
            b,
            seq![(0, start)],
            (engine::STEP_CAP - 2) as nat,
        ) == Outcome::Found(end),
    ensures
        engine::match_end(engine::program(Tree::Alt(ts)), b, start) == Some(end),
{
    let t = ts[0];
    let n = ts.len() as int;
    let all = Tree::Alt(ts);
    let p = engine::program(all);
    let size = engine::size(t) as int;
    let exit = engine::alt_size(ts, n) as int;
    assert(engine::well_formed(ts[0]));
    engine::lemma_code_len(all, 0);
    engine::lemma_code_len(t, 1);
    lemma_first_alternative_stands(ts, n, 0, exit);
    let first = seq![Step::Split(1, size + 2)] + engine::code(t, 1) + seq![Step::Jump(exit)];
    assert(p.take(size + 2) =~= engine::alt_code(ts, n, 0, exit).take(size + 2));
    assert(p.take(size + 2) =~= first);
    assert(p[0] == first[0]);
    assert(p.subrange(1, 1 + size) =~= p.take(size + 2).subrange(1, 1 + size));
    assert(first.subrange(1, 1 + size) =~= engine::code(t, 1));
    assert(p[1 + size] == p.take(size + 2)[1 + size]);
    assert(first[1 + size] == Step::Jump(exit));
    assert(p[exit] is Match);
    let rest: Seq<(int, int)> = seq![];
    let cap = engine::STEP_CAP as nat;
    assert(seq![(0int, start)] =~= rest.push((0, start)));
    let both = seq![(size + 2, start), (1int, start)];
    assert(engine::successors(p, b, 0, start) == Some(both));
    lemma_run_step(p, b, rest, 0, start, both, cap);
    let below = seq![(size + 2, start)];
    let one = seq![(0int, start)];
    lemma_part_finds(t, p, 1, exit, b, one, below, (cap - 2) as nat, end);
    assert(rest + both =~= below + threads_moved(one, 1));
    assert((cap - 2) as nat + 1 == (cap - 1) as nat);
}

proof fn lemma_first_alternative_stands(ts: Seq<Tree>, n: int, base: int, end: int)
    requires
        ts.len() > 1,
        0 < n <= ts.len(),
    ensures
        engine::alt_code(ts, n, base, end).len() >= engine::size(ts[0]) + 2,
        engine::alt_code(ts, n, base, end).take((engine::size(ts[0]) + 2) as int) == seq![
            Step::Split(base + 1, base + engine::size(ts[0]) + 2),
        ] + engine::code(ts[0], base + 1) + seq![Step::Jump(end)],
    decreases n,
{
    let t = ts[0];
    let size = engine::size(t) as int;
    let first = seq![Step::Split(base + 1, base + size + 2)] + engine::code(t, base + 1) + seq![
        Step::Jump(end),
    ];
    let all = engine::alt_code(ts, n, base, end);
    engine::lemma_code_len(t, base + 1);
    if n > 1 {
        lemma_first_alternative_stands(ts, n - 1, base, end);
        let front = engine::alt_code(ts, n - 1, base, end);
        assert(all.take(size + 2) =~= front.take(size + 2));
    } else {
        let none: Seq<Step> = seq![];
        assert(engine::alt_code(ts, 0, base, end) =~= none);
        assert(engine::alt_size(ts, 0) == 0);
        assert(all =~= first);
        assert(all.take(size + 2) =~= first);
    }
}

/// Whatever is repeated: `x*?` and `x??` by themselves find the empty match at once.
pub proof fn lemma_lazy_repetition_is_empty(atom: Tree, max: Option<u32>, b: Seq<u8>, start: int)
    requires
        max is None || max == Some(1u32),
    ensures
        engine::match_end(
            engine::program(
                Tree::Repeat { atom: Box::new(atom), min: 0, max, greedy: false },
            ),
            b,
            start,
        ) == Some(start),
{
    let t = Tree::Repeat { atom: Box::new(atom), min: 0, max, greedy: false };
    let p = engine::program(t);
    let size = engine::size(atom) as int;
    let none: Seq<Step> = seq![];
    reveal_with_fuel(engine::options, 3);
    engine::lemma_code_len(t, 0);
    engine::lemma_code_len(atom, 1);
    assert(engine::copies(atom, 0, 0) =~= none);
    let past = if max is None {
        size + 2
    } else {
        size + 1
    };
    if max is None {
        assert(engine::code(t, 0) =~= seq![Step::Split(past, 1)] + engine::code(atom, 1) + seq![
            Step::Jump(0),
        ]);
    } else {
        assert((1 - 1) * (size + 1) == 0) by (nonlinear_arith);
        assert(engine::options(atom, 0, 0, false) =~= none);
        assert(engine::options(atom, 1, 0, false) =~= seq![Step::Split(past, 1)] + engine::code(
            atom,
            1,
        ));
        assert(engine::code(t, 0) =~= seq![Step::Split(past, 1)] + engine::code(atom, 1));
    }
    assert(p[0] == Step::Split(past, 1));
    assert(p[past] is Match);
    let rest: Seq<(int, int)> = seq![];
    let cap = engine::STEP_CAP as nat;
    assert(seq![(0int, start)] =~= rest.push((0, start)));
    let both = seq![(1int, start), (past, start)];
    assert(engine::successors(p, b, 0, start) == Some(both));
    lemma_run_step(p, b, rest, 0, start, both, cap);
    let now = rest + both;
    assert(now.last() == (past, start));
}

/// A search at one place gives up after two million steps, and not before.
pub proof fn lemma_limit_of_steps(p: Seq<Step>, b: Seq<u8>, start: int)
    ensures
        engine::outcome(p, b, start) == engine::run(p, b, seq![(0, start)], 2000000),
{
}

}
