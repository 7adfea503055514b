//! The search: every string over the alphabet, up to a length, that leads
//! from one hash state to another.

use crate::alphabet::{
    has_symbol, lanes_concat, lemma_lanes_at, strictly_ascending, widen, Alphabet,
};
use crate::const_vec::ConstVec;
use crate::hash::{
    fnv_hash, hash_from, hash_step, lemma_hash_from_concat, lemma_step_wraps, spec_fnv_hash,
    PrecomputedSuffix, FNV_PRIME,
};
use crate::matching::Match;
use crate::modular::{
    lemma_congruent_add, lemma_congruent_reduce, lemma_congruent_refl, lemma_congruent_sub,
    lemma_congruent_sym, lemma_congruent_trans, lemma_congruent_unique, lemma_wrapping_add,
    lemma_wrapping_mul, lemma_wrapping_sub,
};
use vstd::prelude::*;

verus! {

/// Every byte of `m` is a symbol.
pub open spec fn over_alphabet(symbols: Seq<u8>, m: Seq<u8>) -> bool {
    forall|i: int| 0 <= i < m.len() ==> has_symbol(symbols, #[trigger] m[i] as u32)
}

/// What a search looks for: strings over `symbols`, no longer than
/// `max_len`, that lead the hash from the state `start` to the state `goal`.
pub struct Problem {
    pub symbols: Seq<u8>,
    pub start: u32,
    pub goal: u32,
    pub max_len: nat,
}

/// `m` is one of the strings that the problem asks for.
pub open spec fn is_solution(q: Problem, m: Seq<u8>) -> bool {
    &&& m.len() <= q.max_len
    &&& over_alphabet(q.symbols, m)
    &&& hash_from(q.start, m) == q.goal
}

/// `m` is among the strings of `found`.
pub open spec fn listed(found: Seq<Match>, m: Seq<u8>) -> bool {
    exists|i: int| 0 <= i < found.len() && (#[trigger] found[i])@ == m
}

/// `found` holds the solutions of the problem and nothing else, each once.
pub open spec fn lists_solutions(found: Seq<Match>, q: Problem) -> bool {
    &&& forall|i: int|
        0 <= i < found.len() ==> (#[trigger] found[i]).wf() && is_solution(q, found[i]@)
    &&& forall|m: Seq<u8>| #[trigger] is_solution(q, m) ==> listed(found, m)
    &&& forall|i: int, j: int|
        0 <= i < j < found.len() ==> (#[trigger] found[i])@ != (#[trigger] found[j])@
}

/// Two lists of the solutions of one problem hold the same strings: what
/// is found depends neither on the number of lanes nor on the order in
/// which the strings are tried.
pub proof fn lemma_listings_agree(a: Seq<Match>, b: Seq<Match>, q: Problem, m: Seq<u8>)
    requires
        lists_solutions(a, q),
        lists_solutions(b, q),
    ensures
        listed(a, m) <==> listed(b, m),
{
    if listed(a, m) {
        let i = choose|i: int| 0 <= i < a.len() && (#[trigger] a[i])@ == m;
        assert(is_solution(q, a[i]@));
    }
    if listed(b, m) {
        let i = choose|i: int| 0 <= i < b.len() && (#[trigger] b[i])@ == m;
        assert(is_solution(q, b[i]@));
    }
}

/// The one byte that leads from the state `h` to `goal` is `goal` minus
/// the state after `h` and a byte of value 0, in wrapping arithmetic.
proof fn lemma_last_byte(h: u32, goal: u32)
    ensures
        h.wrapping_mul(37) == hash_step(h, 0),
        forall|x: u8| #[trigger]
            hash_step(h, x) == goal <==> x == goal.wrapping_sub(hash_step(h, 0)),
{
    let next = hash_step(h, 0);
    let last = goal.wrapping_sub(next);
    lemma_step_wraps(h, 0);
    lemma_wrapping_sub(goal, next);
    lemma_wrapping_mul(h, 37);
    assert forall|x: u8| #[trigger] hash_step(h, x) == goal <==> x == last by {
        let end = hash_step(h, x);
        lemma_congruent_reduce(h * 37 + x);
        // end is congruent to next + x
        lemma_congruent_sym(next as int, h * 37);
        lemma_congruent_refl(x as int);
        lemma_congruent_add(h * 37, next as int, x as int, x as int);
        lemma_congruent_trans(end as int, h * 37 + x, next + x);
        if x == last {
            lemma_congruent_refl(next as int);
            lemma_congruent_add(next as int, next as int, last as int, goal - next);
            lemma_congruent_trans(end as int, next + x, goal as int);
            lemma_congruent_unique(end as int, goal as int);
        }
        if end == goal {
            lemma_congruent_sym(end as int, next + x);
            lemma_congruent_refl(next as int);
            lemma_congruent_sub(next + x, goal as int, next as int, next as int);
            lemma_congruent_sym(last as int, goal - next);
            lemma_congruent_trans(x as int, goal - next, last as int);
            lemma_congruent_unique(x as int, last as int);
        }
    }
}

/// Adding a symbol to the state after `h` and a byte of value 0 gives the
/// state after `h` and the symbol.
proof fn lemma_lane(h: u32, c: u8)
    ensures
        hash_step(h, 0).wrapping_add(c as u32) == hash_step(h, c),
{
    let base = hash_step(h, 0);
    let with_c = hash_step(h, c);
    lemma_wrapping_add(base, c as u32);
    lemma_congruent_reduce(h * 37 + 0);
    lemma_congruent_refl(c as int);
    lemma_congruent_add(base as int, h * 37, c as int, c as int);
    lemma_congruent_trans(base.wrapping_add(c as u32) as int, base + c, h * 37 + c);
    lemma_congruent_reduce(h * 37 + c);
    lemma_congruent_sym(with_c as int, h * 37 + c);
    lemma_congruent_trans(base.wrapping_add(c as u32) as int, h * 37 + c, with_c as int);
    lemma_congruent_unique(base.wrapping_add(c as u32) as int, with_c as int);
}

/// A node of the search tree that waits on the stack: a string `partial`
/// that solutions may start with, and the hash state after it and one more
/// byte of value 0.
#[derive(Debug, Clone, Copy)]
struct Frame {
    hash_base: u32,
    partial: Match,
}

/// `a` is the start of `b`.
spec fn is_prefix(a: Seq<u8>, b: Seq<u8>) -> bool {
    a.len() <= b.len() && b.take(a.len() as int) == a
}

/// One of the two strings is the start of the other.
spec fn comparable(a: Seq<u8>, b: Seq<u8>) -> bool {
    is_prefix(a, b) || is_prefix(b, a)
}

/// `m` starts with `p` and has at least two bytes more: it lies in the part
/// of the tree that the node of `p` stands for.
spec fn extends(p: Seq<u8>, m: Seq<u8>) -> bool {
    p.len() + 2 <= m.len() && is_prefix(p, m)
}

/// The frame fits the problem: its string is over the alphabet and short
/// enough to be extended by two bytes, and its hash state is that of the
/// string.
spec fn frame_ok(q: Problem, f: Frame) -> bool {
    &&& f.partial.wf()
    &&& f.partial@.len() + 2 <= q.max_len
    &&& over_alphabet(q.symbols, f.partial@)
    &&& f.hash_base == hash_step(hash_from(q.start, f.partial@), 0)
}

/// `m` lies in the part of the tree of some frame on the stack.
spec fn pending(stack: Seq<Frame>, m: Seq<u8>) -> bool {
    exists|k: int| 0 <= k < stack.len() && extends((#[trigger] stack[k]).partial@, m)
}

/// `b` is one of the symbols from index `from` on.
spec fn symbol_from(symbols: Seq<u8>, from: int, b: u8) -> bool {
    exists|i: int| from <= i < symbols.len() && #[trigger] symbols[i] == b
}

/// `m` lies in the part of the tree of the node `p` that is still to do:
/// `p` has had its children made for the first `pushed` symbols, and its
/// solutions of two bytes more written for the first `solved` symbols.
spec fn in_progress(q: Problem, p: Seq<u8>, pushed: int, solved: int, m: Seq<u8>) -> bool {
    &&& extends(p, m)
    &&& if m.len() == p.len() + 2 {
        symbol_from(q.symbols, solved, m[p.len() as int])
    } else {
        symbol_from(q.symbols, pushed, m[p.len() as int])
    }
}

/// `f` is `p` with one of the first `pushed` symbols appended.
spec fn is_child(q: Problem, p: Seq<u8>, pushed: int, f: Seq<u8>) -> bool {
    exists|i: int| 0 <= i < pushed && i < q.symbols.len() && f == p.push(#[trigger] q.symbols[i])
}

/// What holds of the stack and of the list of solutions at every moment of
/// the search.
spec fn base_ok(q: Problem, stack: Seq<Frame>, found: Seq<Match>) -> bool {
    &&& strictly_ascending(q.symbols)
    &&& q.max_len <= 8
    &&& forall|k: int| 0 <= k < stack.len() ==> frame_ok(q, #[trigger] stack[k])
    &&& forall|i: int|
        0 <= i < found.len() ==> (#[trigger] found[i]).wf() && is_solution(q, found[i]@)
    &&& forall|i: int, j: int|
        0 <= i < j < found.len() ==> (#[trigger] found[i])@ != (#[trigger] found[j])@
    &&& forall|j: int, k: int|
        0 <= j < k < stack.len() ==> !comparable(
            (#[trigger] stack[j]).partial@,
            (#[trigger] stack[k]).partial@,
        )
    &&& forall|i: int, k: int|
        0 <= i < found.len() && 0 <= k < stack.len() ==> !extends(
            (#[trigger] stack[k]).partial@,
            (#[trigger] found[i])@,
        )
}

/// Between two nodes: each solution is written down or lies under a frame
/// of the stack.
spec fn idle_ok(q: Problem, stack: Seq<Frame>, found: Seq<Match>) -> bool {
    &&& base_ok(q, stack, found)
    &&& forall|m: Seq<u8>| #[trigger] is_solution(q, m) ==> listed(found, m) || pending(stack, m)
}

/// While the node `p` is worked on: each solution is written down, lies
/// under a frame of the stack, or lies in what is still to do of `p`.
spec fn busy_ok(
    q: Problem,
    stack: Seq<Frame>,
    found: Seq<Match>,
    p: Seq<u8>,
    pushed: int,
    solved: int,
) -> bool {
    &&& base_ok(q, stack, found)
    &&& p.len() + 2 <= q.max_len
    &&& over_alphabet(q.symbols, p)
    &&& 0 <= pushed <= q.symbols.len()
    &&& 0 <= solved <= q.symbols.len()
    &&& forall|m: Seq<u8>| #[trigger]
        is_solution(q, m) ==> listed(found, m) || pending(stack, m) || in_progress(
            q,
            p,
            pushed,
            solved,
            m,
        )
    &&& forall|i: int|
        0 <= i < found.len() ==> !in_progress(q, p, pushed, solved, (#[trigger] found[i])@)
    &&& forall|k: int|
        0 <= k < stack.len() ==> !comparable((#[trigger] stack[k]).partial@, p) || is_child(
            q,
            p,
            pushed,
            stack[k].partial@,
        )
}

/// Taking a frame from the stack makes it the node that is worked on.
proof fn lemma_pop(q: Problem, stack: Seq<Frame>, found: Seq<Match>)
    requires
        idle_ok(q, stack, found),
        stack.len() > 0,
    ensures
        busy_ok(q, stack.drop_last(), found, stack.last().partial@, 0, 0),
{
    let rest = stack.drop_last();
    let p = stack.last().partial@;
    assert(frame_ok(q, stack[stack.len() - 1]));
    assert forall|k: int| 0 <= k < rest.len() implies frame_ok(q, #[trigger] rest[k]) by {
        assert(rest[k] == stack[k]);
    }
    assert forall|j: int, k: int| 0 <= j < k < rest.len() implies !comparable(
        (#[trigger] rest[j]).partial@,
        (#[trigger] rest[k]).partial@,
    ) by {
        assert(rest[j] == stack[j] && rest[k] == stack[k]);
    }
    assert forall|i: int, k: int| 0 <= i < found.len() && 0 <= k < rest.len() implies !extends(
        (#[trigger] rest[k]).partial@,
        (#[trigger] found[i])@,
    ) by {
        assert(rest[k] == stack[k]);
    }
    assert forall|m: Seq<u8>| #[trigger] is_solution(q, m) implies listed(found, m) || pending(
        rest,
        m,
    ) || in_progress(q, p, 0, 0, m) by {
        if !listed(found, m) {
            let k = choose|k: int|
                0 <= k < stack.len() && extends((#[trigger] stack[k]).partial@, m);
            if k < rest.len() {
                assert(rest[k] == stack[k]);
            } else {
                lemma_extends_in_progress(q, p, m);
            }
        }
    }
    assert forall|i: int| 0 <= i < found.len() implies !in_progress(
        q,
        p,
        0,
        0,
        (#[trigger] found[i])@,
    ) by {
        assert(!extends(stack[stack.len() - 1].partial@, found[i]@));
    }
    assert forall|k: int| 0 <= k < rest.len() implies !comparable(
        (#[trigger] rest[k]).partial@,
        p,
    ) || is_child(q, p, 0, rest[k].partial@) by {
        assert(rest[k] == stack[k]);
        assert(!comparable(stack[k].partial@, stack[stack.len() - 1].partial@));
    }
}

/// A string over the alphabet under a node is in what the node has to do
/// when nothing of it is done.
proof fn lemma_extends_in_progress(q: Problem, p: Seq<u8>, m: Seq<u8>)
    requires
        extends(p, m),
        over_alphabet(q.symbols, m),
    ensures
        in_progress(q, p, 0, 0, m),
{
    let b = m[p.len() as int];
    assert(has_symbol(q.symbols, b as u32));
    let i = choose|i: int| 0 <= i < q.symbols.len() && #[trigger] q.symbols[i] == b as u32;
    assert(q.symbols[i] == b);
}

/// The hash state after `p`, the symbol `c` and a byte of value 0.
spec fn lane_base(q: Problem, p: Seq<u8>, c: u8) -> u32 {
    hash_step(hash_step(hash_from(q.start, p), c), 0)
}

/// The value that a byte behind `p` and `c` must have to reach the goal.
spec fn trailing(q: Problem, p: Seq<u8>, c: u8) -> u32 {
    q.goal.wrapping_sub(lane_base(q, p, c))
}

/// A string of two bytes more than `p`, behind `p` and `c`, reaches the
/// goal exactly when its last byte is `trailing`.
proof fn lemma_two_more(q: Problem, p: Seq<u8>, c: u8, x: u8)
    ensures
        hash_from(q.start, p.push(c).push(x)) == q.goal <==> x == trailing(q, p, c),
{
    let pc = p.push(c);
    let pcx = pc.push(x);
    assert(pcx.drop_last() == pc);
    assert(pc.drop_last() == p);
    assert(hash_from(q.start, pc) == hash_step(hash_from(q.start, p), c));
    assert(hash_from(q.start, pcx) == hash_step(hash_from(q.start, pc), x));
    lemma_last_byte(hash_from(q.start, pc), q.goal);
}

/// A string under `p` whose next byte is the symbol `c` is `p`, `c` and its
/// last byte, or lies under `p` with `c` appended.
proof fn lemma_under_child(p: Seq<u8>, c: u8, m: Seq<u8>)
    requires
        extends(p, m),
        m[p.len() as int] == c,
    ensures
        m.len() == p.len() + 2 ==> m == p.push(c).push(m.last()),
        m.len() > p.len() + 2 ==> extends(p.push(c), m),
{
    let pc = p.push(c);
    assert(m.take(pc.len() as int) == pc) by {
        assert(m.take(pc.len() as int).drop_last() == m.take(p.len() as int));
        assert(m.take(pc.len() as int) =~= pc);
    }
    if m.len() == p.len() + 2 {
        assert(m =~= pc.push(m.last()));
    }
}

/// Making the child for the next symbol.
proof fn lemma_push_child(
    q: Problem,
    stack: Seq<Frame>,
    found: Seq<Match>,
    p: Seq<u8>,
    pushed: int,
    solved: int,
    f: Frame,
)
    requires
        busy_ok(q, stack, found, p, pushed, solved),
        pushed < q.symbols.len(),
        p.len() + 3 <= q.max_len,
        f.partial.wf(),
        f.partial@ == p.push(q.symbols[pushed as int]),
        f.hash_base == hash_step(hash_from(q.start, f.partial@), 0),
    ensures
        busy_ok(q, stack.push(f), found, p, pushed + 1, solved),
{
    let c = q.symbols[pushed as int];
    let pc = p.push(c);
    let more = stack.push(f);
    assert(over_alphabet(q.symbols, pc)) by {
        assert forall|i: int| 0 <= i < pc.len() implies has_symbol(
            q.symbols,
            #[trigger] pc[i] as u32,
        ) by {
            if i < p.len() {
                assert(pc[i] == p[i]);
            } else {
                assert(q.symbols[pushed as int] == pc[i] as u32);
            }
        }
    }
    assert(frame_ok(q, f));
    assert forall|k: int| 0 <= k < more.len() implies frame_ok(q, #[trigger] more[k]) by {
        if k < stack.len() {
            assert(more[k] == stack[k]);
        }
    }
    // the new child is not comparable with a frame that was there
    assert forall|k: int| 0 <= k < stack.len() implies !comparable(
        (#[trigger] stack[k]).partial@,
        pc,
    ) by {
        let s = stack[k].partial@;
        if is_child(q, p, pushed, s) {
            let i = choose|i: int|
                0 <= i < pushed && i < q.symbols.len() && s == p.push(#[trigger] q.symbols[i]);
            assert(q.symbols[i] < q.symbols[pushed as int]);
            assert(s[p.len() as int] == q.symbols[i]);
            assert(pc[p.len() as int] == c);
            if comparable(s, pc) {
                assert(s.take(s.len() as int) == s);
                assert(pc.take(pc.len() as int) == pc);
                assert(s == pc);
            }
        } else {
            assert(!comparable(s, p));
            if is_prefix(s, pc) {
                if s.len() <= p.len() {
                    assert(p.take(s.len() as int) =~= pc.take(s.len() as int));
                    assert(is_prefix(s, p));
                } else {
                    assert(pc.take(s.len() as int) == pc);
                    assert(s.take(p.len() as int) =~= p);
                    assert(is_prefix(p, s));
                }
            }
            if is_prefix(pc, s) {
                assert(s.take(p.len() as int) =~= s.take(pc.len() as int).take(p.len() as int));
                assert(pc.take(p.len() as int) =~= p);
                assert(is_prefix(p, s));
            }
        }
    }
    assert forall|j: int, k: int| 0 <= j < k < more.len() implies !comparable(
        (#[trigger] more[j]).partial@,
        (#[trigger] more[k]).partial@,
    ) by {
        assert(more[j] == stack[j]);
        if k < stack.len() {
            assert(more[k] == stack[k]);
        } else {
            assert(!comparable(stack[j].partial@, pc));
        }
    }
    // no solution that is written down lies under the new child
    assert forall|i: int, k: int| 0 <= i < found.len() && 0 <= k < more.len() implies !extends(
        (#[trigger] more[k]).partial@,
        (#[trigger] found[i])@,
    ) by {
        if k < stack.len() {
            assert(more[k] == stack[k]);
        } else {
            let m = found[i]@;
            if extends(pc, m) {
                assert(m.take(p.len() as int) =~= m.take(pc.len() as int).take(p.len() as int));
                assert(pc.take(p.len() as int) =~= p);
                assert(m[p.len() as int] == m.take(pc.len() as int)[p.len() as int]);
                assert(in_progress(q, p, pushed, solved, m));
            }
        }
    }
    assert forall|m: Seq<u8>| #[trigger] is_solution(q, m) implies listed(found, m) || pending(
        more,
        m,
    ) || in_progress(q, p, pushed + 1, solved, m) by {
        if !listed(found, m) {
            if pending(stack, m) {
                let k = choose|k: int|
                    0 <= k < stack.len() && extends((#[trigger] stack[k]).partial@, m);
                assert(more[k] == stack[k]);
            } else {
                assert(in_progress(q, p, pushed, solved, m));
                if m.len() > p.len() + 2 {
                    let i = choose|i: int|
                        pushed <= i < q.symbols.len() && #[trigger] q.symbols[i] == m[p.len() as int];
                    if i == pushed {
                        lemma_under_child(p, c, m);
                        assert(more[stack.len() as int] == f);
                        assert(pending(more, m));
                    }
                }
            }
        }
    }
    assert forall|i: int| 0 <= i < found.len() implies !in_progress(
        q,
        p,
        pushed + 1,
        solved,
        (#[trigger] found[i])@,
    ) by {
        assert(!in_progress(q, p, pushed, solved, found[i]@));
    }
    assert forall|k: int| 0 <= k < more.len() implies !comparable(
        (#[trigger] more[k]).partial@,
        p,
    ) || is_child(q, p, pushed + 1, more[k].partial@) by {
        if k < stack.len() {
            assert(more[k] == stack[k]);
            if is_child(q, p, pushed, stack[k].partial@) {
                let i = choose|i: int|
                    0 <= i < pushed && i < q.symbols.len() && stack[k].partial@ == p.push(
                        #[trigger] q.symbols[i],
                    );
                assert(stack[k].partial@ == p.push(q.symbols[i]));
            }
        } else {
            assert(more[k].partial@ == p.push(q.symbols[pushed as int]));
        }
    }
}

/// A node whose string is two bytes short of the greatest length has no
/// children to make.
proof fn lemma_skip_children(
    q: Problem,
    stack: Seq<Frame>,
    found: Seq<Match>,
    p: Seq<u8>,
    pushed: int,
    solved: int,
    upto: int,
)
    requires
        busy_ok(q, stack, found, p, pushed, solved),
        pushed <= upto <= q.symbols.len(),
        p.len() + 2 == q.max_len,
    ensures
        busy_ok(q, stack, found, p, upto, solved),
{
    assert forall|m: Seq<u8>| #[trigger] is_solution(q, m) implies listed(found, m) || pending(
        stack,
        m,
    ) || in_progress(q, p, upto, solved, m) by {
        if !listed(found, m) && !pending(stack, m) {
            assert(in_progress(q, p, pushed, solved, m));
        }
    }
    assert forall|i: int| 0 <= i < found.len() implies !in_progress(
        q,
        p,
        upto,
        solved,
        (#[trigger] found[i])@,
    ) by {
        assert(!in_progress(q, p, pushed, solved, found[i]@));
        assert(is_solution(q, found[i]@));
    }
    assert forall|k: int| 0 <= k < stack.len() implies !comparable(
        (#[trigger] stack[k]).partial@,
        p,
    ) || is_child(q, p, upto, stack[k].partial@) by {
        if is_child(q, p, pushed, stack[k].partial@) {
            let i = choose|i: int|
                0 <= i < pushed && i < q.symbols.len() && stack[k].partial@ == p.push(
                    #[trigger] q.symbols[i],
                );
            assert(stack[k].partial@ == p.push(q.symbols[i]));
        }
    }
}

/// The next symbol has no byte behind it that is a symbol and reaches the
/// goal: there is nothing to write down for it.
proof fn lemma_solve_miss(
    q: Problem,
    stack: Seq<Frame>,
    found: Seq<Match>,
    p: Seq<u8>,
    pushed: int,
    solved: int,
)
    requires
        busy_ok(q, stack, found, p, pushed, solved),
        solved < q.symbols.len(),
        !has_symbol(q.symbols, trailing(q, p, q.symbols[solved as int])),
    ensures
        busy_ok(q, stack, found, p, pushed, solved + 1),
{
    let c = q.symbols[solved as int];
    assert forall|m: Seq<u8>| #[trigger] is_solution(q, m) implies listed(found, m) || pending(
        stack,
        m,
    ) || in_progress(q, p, pushed, solved + 1, m) by {
        if !listed(found, m) && !pending(stack, m) {
            assert(in_progress(q, p, pushed, solved, m));
            if m.len() == p.len() + 2 {
                let i = choose|i: int|
                    solved <= i < q.symbols.len() && #[trigger] q.symbols[i] == m[p.len() as int];
                if i == solved {
                    lemma_under_child(p, c, m);
                    lemma_two_more(q, p, c, m.last());
                    assert(has_symbol(q.symbols, m[m.len() - 1] as u32));
                }
            }
        }
    }
    assert forall|i: int| 0 <= i < found.len() implies !in_progress(
        q,
        p,
        pushed,
        solved + 1,
        (#[trigger] found[i])@,
    ) by {
        assert(!in_progress(q, p, pushed, solved, found[i]@));
    }
}

/// The next symbol has a byte behind it that is a symbol and reaches the
/// goal: the string is written down.
proof fn lemma_solve_hit(
    q: Problem,
    stack: Seq<Frame>,
    found: Seq<Match>,
    p: Seq<u8>,
    pushed: int,
    solved: int,
    hit: Match,
)
    requires
        busy_ok(q, stack, found, p, pushed, solved),
        solved < q.symbols.len(),
        has_symbol(q.symbols, trailing(q, p, q.symbols[solved as int])),
        hit.wf(),
        hit@ == p.push(q.symbols[solved as int]).push(
            trailing(q, p, q.symbols[solved as int]) as u8,
        ),
    ensures
        busy_ok(q, stack, found.push(hit), p, pushed, solved + 1),
{
    let c = q.symbols[solved as int];
    let t = trailing(q, p, c);
    let x = t as u8;
    let more = found.push(hit);
    let w = choose|i: int| 0 <= i < q.symbols.len() && #[trigger] q.symbols[i] == t;
    assert(x == t);
    lemma_two_more(q, p, c, x);
    assert(hit@.take(p.len() as int) =~= p);
    assert(hit@[p.len() as int] == c);
    assert(extends(p, hit@));
    assert(in_progress(q, p, pushed, solved, hit@));
    assert(over_alphabet(q.symbols, hit@)) by {
        assert forall|i: int| 0 <= i < hit@.len() implies has_symbol(
            q.symbols,
            #[trigger] hit@[i] as u32,
        ) by {
            if i < p.len() {
                assert(hit@[i] == p[i]);
            } else if i == p.len() {
                assert(q.symbols[solved as int] == hit@[i] as u32);
            }
        }
    }
    assert(is_solution(q, hit@));
    assert forall|i: int| 0 <= i < more.len() implies (#[trigger] more[i]).wf() && is_solution(
        q,
        more[i]@,
    ) by {
        if i < found.len() {
            assert(more[i] == found[i]);
        }
    }
    assert forall|i: int, j: int| 0 <= i < j < more.len() implies (#[trigger] more[i])@ != (
    #[trigger] more[j])@ by {
        assert(more[i] == found[i]);
        if j < found.len() {
            assert(more[j] == found[j]);
        } else {
            assert(!in_progress(q, p, pushed, solved, found[i]@));
        }
    }
    assert forall|i: int, k: int| 0 <= i < more.len() && 0 <= k < stack.len() implies !extends(
        (#[trigger] stack[k]).partial@,
        (#[trigger] more[i])@,
    ) by {
        if i < found.len() {
            assert(more[i] == found[i]);
        } else {
            let s = stack[k].partial@;
            if extends(s, hit@) {
                assert(p.take(s.len() as int) =~= hit@.take(s.len() as int));
                assert(is_prefix(s, p));
                assert(comparable(s, p));
                let i = choose|i: int|
                    0 <= i < pushed && i < q.symbols.len() && s == p.push(#[trigger] q.symbols[i]);
                assert(s.len() == p.len() + 1);
            }
        }
    }
    assert forall|m: Seq<u8>| #[trigger] is_solution(q, m) implies listed(more, m) || pending(
        stack,
        m,
    ) || in_progress(q, p, pushed, solved + 1, m) by {
        if listed(found, m) {
            let i = choose|i: int| 0 <= i < found.len() && (#[trigger] found[i])@ == m;
            assert(more[i] == found[i]);
        } else if !pending(stack, m) {
            assert(in_progress(q, p, pushed, solved, m));
            if m.len() == p.len() + 2 {
                let i = choose|i: int|
                    solved <= i < q.symbols.len() && #[trigger] q.symbols[i] == m[p.len() as int];
                if i == solved {
                    lemma_under_child(p, c, m);
                    lemma_two_more(q, p, c, m.last());
                    assert(m == hit@);
                    assert(more[found.len() as int] == hit);
                }
            }
        }
    }
    assert forall|i: int| 0 <= i < more.len() implies !in_progress(
        q,
        p,
        pushed,
        solved + 1,
        (#[trigger] more[i])@,
    ) by {
        if i < found.len() {
            assert(more[i] == found[i]);
            assert(!in_progress(q, p, pushed, solved, found[i]@));
        } else {
            if symbol_from(q.symbols, solved + 1, c) {
                let j = choose|j: int|
                    solved + 1 <= j < q.symbols.len() && #[trigger] q.symbols[j] == c;
                assert(q.symbols[solved as int] < q.symbols[j]);
            }
        }
    }
}

/// A node of which everything is done is done with.
proof fn lemma_finish(q: Problem, stack: Seq<Frame>, found: Seq<Match>, p: Seq<u8>)
    requires
        busy_ok(q, stack, found, p, q.symbols.len() as int, q.symbols.len() as int),
    ensures
        idle_ok(q, stack, found),
{
    assert forall|m: Seq<u8>| #[trigger] is_solution(q, m) implies listed(found, m) || pending(
        stack,
        m,
    ) by {
        assert(!in_progress(q, p, q.symbols.len() as int, q.symbols.len() as int, m));
    }
}

/// The search starts from the solutions of length 0 and 1 and the root of
/// the tree.
proof fn lemma_begin(q: Problem, root: Frame, found: Seq<Match>)
    requires
        strictly_ascending(q.symbols),
        2 <= q.max_len <= 8,
        frame_ok(q, root),
        root.partial@ == Seq::<u8>::empty(),
        forall|i: int|
            0 <= i < found.len() ==> (#[trigger] found[i]).wf() && is_solution(q, found[i]@)
                && found[i]@.len() <= 1,
        forall|i: int, j: int|
            0 <= i < j < found.len() ==> (#[trigger] found[i])@ != (#[trigger] found[j])@,
        forall|m: Seq<u8>| #[trigger] is_solution(q, m) && m.len() <= 1 ==> listed(found, m),
    ensures
        idle_ok(q, seq![root], found),
{
    let stack = seq![root];
    assert forall|m: Seq<u8>| #[trigger] is_solution(q, m) implies listed(found, m) || pending(
        stack,
        m,
    ) by {
        if m.len() >= 2 {
            assert(m.take(0) =~= Seq::<u8>::empty());
            assert(extends(stack[0].partial@, m));
        }
    }
}

/// When the stack is empty the list is complete.
proof fn lemma_end(q: Problem, found: Seq<Match>)
    requires
        idle_ok(q, Seq::<Frame>::empty(), found),
    ensures
        lists_solutions(found, q),
{
    assert forall|m: Seq<u8>| #[trigger] is_solution(q, m) implies listed(found, m) by {
        assert(!pending(Seq::<Frame>::empty(), m));
    }
}

/// The number of nodes that a node stands for when it has `k` children
/// still to make, each with `d - 1` levels below it, in a tree where a full
/// node has `n` children.
spec fn tree(n: nat, d: nat, k: nat) -> nat
    decreases d, k,
{
    if d == 0 || k == 0 {
        1
    } else {
        tree(n, (d - 1) as nat, n) + tree(n, d, (k - 1) as nat)
    }
}

/// The number of nodes that a frame stands for.
spec fn frame_weight(q: Problem, f: Frame) -> nat {
    tree(q.symbols.len(), (q.max_len - f.partial@.len() - 2) as nat, q.symbols.len())
}

/// The number of nodes that the stack stands for: the work that is left.
spec fn total_weight(q: Problem, stack: Seq<Frame>) -> nat
    decreases stack.len(),
{
    if stack.len() == 0 {
        0
    } else {
        total_weight(q, stack.drop_last()) + frame_weight(q, stack.last())
    }
}

/// No symbol from `solved` up to `upto` has a byte behind it that is a
/// symbol and reaches the goal.
proof fn lemma_solve_miss_many(
    q: Problem,
    stack: Seq<Frame>,
    found: Seq<Match>,
    p: Seq<u8>,
    pushed: int,
    solved: int,
    upto: int,
)
    requires
        busy_ok(q, stack, found, p, pushed, solved),
        solved <= upto <= q.symbols.len(),
        forall|i: int|
            solved <= i < upto ==> !has_symbol(q.symbols, trailing(q, p, #[trigger] q.symbols[i])),
    ensures
        busy_ok(q, stack, found, p, pushed, upto),
    decreases upto - solved,
{
    if solved < upto {
        assert(!has_symbol(q.symbols, trailing(q, p, q.symbols[solved as int])));
        lemma_solve_miss(q, stack, found, p, pushed, solved);
        lemma_solve_miss_many(q, stack, found, p, pushed, solved + 1, upto);
    }
}

/// What links a frame that is worked on to the problem and to the lanes of
/// the symbols from index `done` on.
spec fn lanes_of<const L: usize>(
    q: Problem,
    frame: Frame,
    done: int,
    group: [u32; L],
) -> bool {
    &&& frame.partial.wf()
    &&& frame.hash_base == hash_step(hash_from(q.start, frame.partial@), 0)
    &&& 0 <= done
    &&& done + L <= q.symbols.len()
    &&& forall|j: int| 0 <= j < L ==> (#[trigger] group@[j]) == q.symbols[done + j]
}

/// For each lane, the hash state after the frame's string, the lane's symbol
/// and a byte of value 0, and the value that the byte behind the symbol must
/// have to reach the goal.
fn lane_values<const L: usize>(frame: &Frame, goal: u32, group: &[u32; L], Ghost(q): Ghost<Problem>, Ghost(done): Ghost<int>) -> (values: (
    [u32; L],
    [u32; L],
))
    requires
        lanes_of(q, *frame, done, *group),
        q.goal == goal,
    ensures
        forall|j: int|
            0 <= j < L ==> (#[trigger] values.0@[j]) == lane_base(
                q,
                frame.partial@,
                q.symbols[done + j],
            ),
        forall|j: int|
            0 <= j < L ==> (#[trigger] values.1@[j]) == trailing(
                q,
                frame.partial@,
                q.symbols[done + j],
            ),
{
    let mut next: [u32; L] = [0u32; L];
    let mut solutions: [u32; L] = [0u32; L];
    let mut j: usize = 0;
    while j < L
        invariant
            j <= L,
            lanes_of(q, *frame, done, *group),
            q.goal == goal,
            forall|i: int|
                0 <= i < j ==> (#[trigger] next@[i]) == lane_base(
                    q,
                    frame.partial@,
                    q.symbols[done + i],
                ),
            forall|i: int|
                0 <= i < j ==> (#[trigger] solutions@[i]) == trailing(
                    q,
                    frame.partial@,
                    q.symbols[done + i],
                ),
        decreases L - j,
    {
        proof {
            let h = hash_from(q.start, frame.partial@);
            let c = q.symbols[done + j];
            assert(group@[j as int] == c);
            lemma_lane(h, c);
            lemma_last_byte(hash_step(h, c), goal);
        }
        let lane_next: u32 = frame.hash_base.wrapping_add(group[j]).wrapping_mul(FNV_PRIME);
        next[j] = lane_next;
        solutions[j] = goal.wrapping_sub(lane_next);
        j += 1;
    }
    (next, solutions)
}

/// The levels that are left below a node whose string is `p`.
spec fn depth_below(q: Problem, p: Seq<u8>) -> nat {
    (q.max_len - p.len() - 2) as nat
}

/// Puts on the stack a child of the frame for each lane of the group.
fn push_lanes<const L: usize>(
    frame: &Frame,
    group: &[u32; L],
    next: &[u32; L],
    stack: &mut Vec<Frame>,
    Ghost(q): Ghost<Problem>,
    Ghost(found): Ghost<Seq<Match>>,
    Ghost(done): Ghost<int>,
)
    requires
        lanes_of(q, *frame, done, *group),
        frame.partial@.len() + 3 <= q.max_len,
        busy_ok(q, old(stack)@, found, frame.partial@, done, done),
        forall|j: int|
            0 <= j < L ==> (#[trigger] next@[j]) == lane_base(
                q,
                frame.partial@,
                q.symbols[done + j],
            ),
    ensures
        busy_ok(q, final(stack)@, found, frame.partial@, done + L, done),
        total_weight(q, final(stack)@) + tree(
            q.symbols.len(),
            depth_below(q, frame.partial@),
            (q.symbols.len() - done - L) as nat,
        ) == total_weight(q, old(stack)@) + tree(
            q.symbols.len(),
            depth_below(q, frame.partial@),
            (q.symbols.len() - done) as nat,
        ),
{
    let ghost p = frame.partial@;
    let ghost n = q.symbols.len();
    let ghost d = depth_below(q, p);
    let mut j: usize = 0;
    while j < L
        invariant
            j <= L,
            lanes_of(q, *frame, done, *group),
            p == frame.partial@,
            n == q.symbols.len(),
            d == depth_below(q, p),
            p.len() + 3 <= q.max_len,
            busy_ok(q, stack@, found, p, done + j, done),
            forall|i: int|
                0 <= i < L ==> (#[trigger] next@[i]) == lane_base(q, p, q.symbols[done + i]),
            total_weight(q, stack@) + tree(n, d, (n - done - j) as nat) == total_weight(
                q,
                old(stack)@,
            ) + tree(n, d, (n - done) as nat),
        decreases L - j,
    {
        let ghost c = q.symbols[done + j];
        proof {
            assert(group@[j as int] == c);
            frame.partial.lemma_wf_len();
        }
        let child = Frame { hash_base: next[j], partial: frame.partial.push(group[j] as u8) };
        proof {
            assert(child.partial@.drop_last() == p);
            assert(hash_from(q.start, child.partial@) == hash_step(hash_from(q.start, p), c));
            assert(next@[j as int] == lane_base(q, p, c));
            lemma_push_child(q, stack@, found, p, done + j, done, child);
            assert(stack@.push(child).drop_last() == stack@);
            assert(frame_weight(q, child) == tree(n, (d - 1) as nat, n));
        }
        stack.push(child);
        j += 1;
    }
}

/// Writes down, for each lane of the group, the string of the frame, the
/// lane's symbol and the byte behind it, where that byte is a symbol.
fn emit_lanes<const N: usize, const L: usize>(
    alphabet: &Alphabet<N>,
    frame: &Frame,
    group: &[u32; L],
    solutions: &[u32; L],
    found: &mut Vec<Match>,
    Ghost(q): Ghost<Problem>,
    Ghost(stack): Ghost<Seq<Frame>>,
    Ghost(pushed): Ghost<int>,
    Ghost(done): Ghost<int>,
)
    requires
        alphabet.wf(),
        alphabet@ == q.symbols,
        lanes_of(q, *frame, done, *group),
        busy_ok(q, stack, old(found)@, frame.partial@, pushed, done),
        forall|j: int|
            0 <= j < L ==> (#[trigger] solutions@[j]) == trailing(
                q,
                frame.partial@,
                q.symbols[done + j],
            ),
    ensures
        busy_ok(q, stack, final(found)@, frame.partial@, pushed, done + L),
{
    let ghost p = frame.partial@;
    let mut j: usize = 0;
    while j < L
        invariant
            j <= L,
            alphabet.wf(),
            alphabet@ == q.symbols,
            lanes_of(q, *frame, done, *group),
            p == frame.partial@,
            busy_ok(q, stack, found@, p, pushed, done + j),
            forall|i: int|
                0 <= i < L ==> (#[trigger] solutions@[i]) == trailing(q, p, q.symbols[done + i]),
        decreases L - j,
    {
        let ghost c = q.symbols[done + j];
        let last: u32 = solutions[j];
        proof {
            assert(group@[j as int] == c);
            assert(solutions@[j as int] == trailing(q, p, c));
            frame.partial.lemma_wf_len();
        }
        if alphabet.contains(last) {
            proof {
                let w = choose|i: int| 0 <= i < q.symbols.len() && #[trigger] q.symbols[i] == last;
                assert(last < 256);
            }
            let hit = frame.partial.push(group[j] as u8).push(last as u8);
            proof {
                lemma_solve_hit(q, stack, found@, p, pushed, done + j, hit);
            }
            found.push(hit);
        } else {
            proof {
                lemma_solve_miss(q, stack, found@, p, pushed, done + j);
            }
        }
        j += 1;
    }
}

/// Works on one node of the tree: for every symbol, in lane groups and
/// then one by one for the symbols that fill no group, makes the child that
/// the symbol leads to, unless the node is at the last level, and writes
/// down the solution that ends two bytes behind the node, if there is one
/// for the symbol.
fn expand<const N: usize, const L: usize>(
    alphabet: &Alphabet<N>,
    goal: u32,
    max_len: usize,
    frame: &Frame,
    groups: &ConstVec<[u32; L], N>,
    rest: &ConstVec<u32, L>,
    stack: &mut Vec<Frame>,
    found: &mut Vec<Match>,
    Ghost(q): Ghost<Problem>,
)
    requires
        alphabet.wf(),
        alphabet@ == q.symbols,
        q.goal == goal,
        q.max_len == max_len,
        lanes_concat(groups@) + rest@ == widen(alphabet@),
        frame.partial.wf(),
        frame.hash_base == hash_step(hash_from(q.start, frame.partial@), 0),
        busy_ok(q, old(stack)@, old(found)@, frame.partial@, 0, 0),
    ensures
        idle_ok(q, final(stack)@, final(found)@),
        total_weight(q, final(stack)@) + 1 == total_weight(q, old(stack)@) + frame_weight(
            q,
            *frame,
        ),
{
    let ghost p = frame.partial@;
    let ghost n = q.symbols.len();
    let ghost d = depth_below(q, p);
    let ghost mut done: int = 0;
    proof {
        frame.partial.lemma_wf_len();
        assert(widen(alphabet@).len() == n);
    }
    let can_extend: bool = frame.partial.len() + 2 != max_len;
    let group_slice = groups.as_slice();
    let mut k: usize = 0;
    proof {
        assert(groups@.take(0) == Seq::<[u32; L]>::empty());
    }
    while k < group_slice.len()
        invariant
            k <= group_slice@.len(),
            group_slice@ == groups@,
            alphabet.wf(),
            alphabet@ == q.symbols,
            q.goal == goal,
            lanes_concat(groups@) + rest@ == widen(alphabet@),
            frame.partial.wf(),
            frame.hash_base == hash_step(hash_from(q.start, frame.partial@), 0),
            p == frame.partial@,
            n == q.symbols.len(),
            d == depth_below(q, p),
            can_extend == (p.len() + 3 <= q.max_len),
            done == lanes_concat(groups@.take(k as int)).len(),
            done <= n,
            busy_ok(q, stack@, found@, p, done, done),
            total_weight(q, stack@) + tree(n, d, (n - done) as nat) == total_weight(
                q,
                old(stack)@,
            ) + tree(n, d, n),
        decreases group_slice@.len() - k,
    {
        let group: &[u32; L] = &group_slice[k];
        proof {
            lemma_lanes_at(groups@, k as int);
            assert((lanes_concat(groups@) + rest@).len() == n);
            assert(done + L <= n);
            assert forall|j: int| 0 <= j < L implies (#[trigger] group@[j]) == q.symbols[done
                + j] by {
                assert(lanes_concat(groups@)[done + j] == groups@[k as int]@[j]);
                assert((lanes_concat(groups@) + rest@)[done + j] == lanes_concat(groups@)[done
                    + j]);
                assert(widen(alphabet@)[done + j] == alphabet@[done + j] as u32);
            }
            assert(lanes_of(q, *frame, done, *group));
        }
        let (next, solutions) = lane_values(frame, goal, group, Ghost(q), Ghost(done));
        if can_extend {
            push_lanes(frame, group, &next, stack, Ghost(q), Ghost(found@), Ghost(done));
        } else {
            proof {
                lemma_skip_children(q, stack@, found@, p, done, done, done + L);
            }
        }
        if alphabet.simd_prefilter(solutions) {
            emit_lanes(
                alphabet,
                frame,
                group,
                &solutions,
                found,
                Ghost(q),
                Ghost(stack@),
                Ghost(done + L),
                Ghost(done),
            );
        } else {
            proof {
                assert forall|i: int| done <= i < done + L implies !has_symbol(
                    q.symbols,
                    trailing(q, p, #[trigger] q.symbols[i]),
                ) by {
                    assert(solutions@[i - done] == trailing(q, p, q.symbols[done + (i - done)]));
                    assert(!alphabet.spec_contains(solutions@[i - done]));
                }
                lemma_solve_miss_many(q, stack@, found@, p, done + L, done, done + L);
            }
        }
        proof {
            done = done + L;
        }
        k += 1;
    }
    let rest_slice = rest.as_slice();
    let ghost whole = done;
    let mut r: usize = 0;
    proof {
        assert(groups@.take(k as int) == groups@);
    }
    while r < rest_slice.len()
        invariant
            r <= rest_slice@.len(),
            rest_slice@ == rest@,
            alphabet.wf(),
            alphabet@ == q.symbols,
            q.goal == goal,
            lanes_concat(groups@) + rest@ == widen(alphabet@),
            whole == lanes_concat(groups@).len(),
            frame.partial.wf(),
            frame.hash_base == hash_step(hash_from(q.start, frame.partial@), 0),
            p == frame.partial@,
            p.len() < 8,
            n == q.symbols.len(),
            n == widen(alphabet@).len(),
            d == depth_below(q, p),
            can_extend == (p.len() + 3 <= q.max_len),
            done == whole + r,
            busy_ok(q, stack@, found@, p, done, done),
            total_weight(q, stack@) + tree(n, d, (n - done) as nat) == total_weight(
                q,
                old(stack)@,
            ) + tree(n, d, n),
        decreases rest_slice@.len() - r,
    {
        let c: u32 = rest_slice[r];
        let ghost symbol = q.symbols[done];
        proof {
            assert((lanes_concat(groups@) + rest@)[done] == rest@[r as int]);
            assert(widen(alphabet@)[done] == alphabet@[done] as u32);
            assert(c == symbol);
            let h = hash_from(q.start, p);
            lemma_lane(h, symbol);
            lemma_last_byte(hash_step(h, symbol), goal);
        }
        let next_hash_base: u32 = frame.hash_base.wrapping_add(c).wrapping_mul(FNV_PRIME);
        if can_extend {
            let child = Frame { hash_base: next_hash_base, partial: frame.partial.push(c as u8) };
            proof {
                assert(child.partial@.drop_last() == p);
                assert(hash_from(q.start, child.partial@) == hash_step(
                    hash_from(q.start, p),
                    symbol,
                ));
                lemma_push_child(q, stack@, found@, p, done, done, child);
                assert(stack@.push(child).drop_last() == stack@);
                assert(frame_weight(q, child) == tree(n, (d - 1) as nat, n));
            }
            stack.push(child);
        } else {
            proof {
                lemma_skip_children(q, stack@, found@, p, done, done, done + 1);
            }
        }
        let last: u32 = goal.wrapping_sub(next_hash_base);
        if alphabet.contains(last) {
            proof {
                let w = choose|i: int| 0 <= i < q.symbols.len() && #[trigger] q.symbols[i] == last;
                assert(last < 256);
            }
            let hit = frame.partial.push(c as u8).push(last as u8);
            proof {
                lemma_solve_hit(q, stack@, found@, p, done + 1, done, hit);
            }
            found.push(hit);
        } else {
            proof {
                lemma_solve_miss(q, stack@, found@, p, done + 1, done);
            }
        }
        proof {
            done = done + 1;
        }
        r += 1;
    }
    proof {
        assert(done == n);
        lemma_finish(q, stack@, found@, p);
    }
}

/// Every string over the alphabet, of length up to `max_extra_length`, that
/// leads from the hash state `prefix_hash` to the state that the suffix
/// carries to the target; each of them once, in no stated order.
///
/// The strings of length 0 and 1 are solved for directly. Longer ones are
/// found by a depth-first walk that tries every symbol at each place but the
/// last and solves for the last byte. `L` is the number of lanes that the
/// symbols are worked on together; the result does not depend on it.
pub fn search<const N: usize, const L: usize>(
    alphabet: &Alphabet<N>,
    prefix_hash: u32,
    suffix: PrecomputedSuffix,
    max_extra_length: usize,
) -> (found: Vec<Match>)
    requires
        alphabet.wf(),
        L >= 1,
        max_extra_length <= 8,
    ensures
        lists_solutions(
            found@,
            (Problem {
                symbols: alphabet@,
                start: prefix_hash,
                goal: suffix.target_shift,
                max_len: max_extra_length as nat,
            }),
        ),
{
    let ghost q = Problem {
        symbols: alphabet@,
        start: prefix_hash,
        goal: suffix.target_shift,
        max_len: max_extra_length as nat,
    };
    let goal: u32 = suffix.target_shift;
    let mut found: Vec<Match> = Vec::with_capacity(8);
    let nothing = Match::empty();
    // the empty string reaches the goal where the search starts at the goal
    if prefix_hash == goal {
        found.push(nothing);
    }
    if max_extra_length == 0 {
        proof {
            assert(found@ == short_list(q, nothing, nothing));
            lemma_short_solutions(q, found@, nothing, nothing);
        }
        return found;
    }
    // a string of one byte: the byte is solved for
    let prefix_hash_base: u32 = prefix_hash.wrapping_mul(FNV_PRIME);
    let one_length_collision: u32 = goal.wrapping_sub(prefix_hash_base);
    let ghost before_one = found@;
    let mut single = nothing;
    proof {
        lemma_last_byte(prefix_hash, goal);
    }
    if alphabet.contains(one_length_collision) {
        proof {
            let w = choose|i: int|
                0 <= i < q.symbols.len() && #[trigger] q.symbols[i] == one_length_collision;
            assert(one_length_collision < 256);
        }
        single = nothing.push(one_length_collision as u8);
        found.push(single);
    }
    proof {
        assert(found@ == short_list(q, nothing, single));
        lemma_short_solutions(q, found@, nothing, single);
    }
    if max_extra_length == 1 {
        return found;
    }
    assert(max_extra_length * N <= 8 * 256) by (nonlinear_arith)
        requires
            max_extra_length <= 8,
            N <= 256,
    ;
    let init_cap: usize = max_extra_length * N;
    let mut stack: Vec<Frame> = Vec::with_capacity(init_cap);
    let root = Frame { hash_base: prefix_hash_base, partial: nothing };
    stack.push(root);
    let (groups, rest) = alphabet.simd_chunks::<L>();
    proof {
        assert(hash_from(q.start, nothing@) == q.start);
        assert(stack@ == seq![root]);
        lemma_begin(q, root, found@);
    }
    while stack.len() > 0
        invariant
            alphabet.wf(),
            alphabet@ == q.symbols,
            q.goal == goal,
            q.max_len == max_extra_length,
            lanes_concat(groups@) + rest@ == widen(alphabet@),
            idle_ok(q, stack@, found@),
        decreases total_weight(q, stack@),
    {
        let ghost before = stack@;
        let frame = stack.pop().unwrap();
        proof {
            assert(frame_ok(q, before[before.len() - 1]));
            lemma_pop(q, before, found@);
        }
        expand(alphabet, goal, max_extra_length, &frame, &groups, &rest, &mut stack, &mut found, Ghost(q));
    }
    proof {
        assert(stack@ == Seq::<Frame>::empty());
        lemma_end(q, found@);
    }
    found
}

/// The list of the solutions of length 0 and 1: the empty string where the
/// search starts at the goal, then the one byte that leads to the goal
/// where strings of one byte are asked for and the byte is a symbol.
spec fn short_list(q: Problem, nothing: Match, single: Match) -> Seq<Match> {
    let with_nothing = if q.start == q.goal {
        seq![nothing]
    } else {
        Seq::<Match>::empty()
    };
    if q.max_len >= 1 && has_symbol(q.symbols, q.goal.wrapping_sub(hash_step(q.start, 0))) {
        with_nothing.push(single)
    } else {
        with_nothing
    }
}

/// `short_list` holds the solutions of length 0 and 1, each once.
proof fn lemma_short_solutions(q: Problem, found: Seq<Match>, nothing: Match, single: Match)
    requires
        q.max_len <= 8,
        nothing.wf(),
        nothing@ == Seq::<u8>::empty(),
        single.wf(),
        q.max_len >= 1 && has_symbol(q.symbols, q.goal.wrapping_sub(hash_step(q.start, 0)))
            ==> single@ == seq![q.goal.wrapping_sub(hash_step(q.start, 0)) as u8],
        found == short_list(q, nothing, single),
    ensures
        forall|i: int|
            0 <= i < found.len() ==> (#[trigger] found[i]).wf() && is_solution(q, found[i]@)
                && found[i]@.len() <= 1,
        forall|i: int, j: int|
            0 <= i < j < found.len() ==> (#[trigger] found[i])@ != (#[trigger] found[j])@,
        forall|m: Seq<u8>| #[trigger] is_solution(q, m) && m.len() <= 1 ==> listed(found, m),
        q.max_len <= 1 ==> lists_solutions(found, q),
{
    let last = q.goal.wrapping_sub(hash_step(q.start, 0));
    let hit = q.max_len >= 1 && has_symbol(q.symbols, last);
    let one = seq![last as u8];
    lemma_last_byte(q.start, q.goal);
    assert(hash_from(q.start, Seq::<u8>::empty()) == q.start);
    lemma_one_byte(q, last as u8);
    if has_symbol(q.symbols, last) {
        let w = choose|i: int| 0 <= i < q.symbols.len() && #[trigger] q.symbols[i] == last;
        assert(last as u8 == last);
        assert(one[0] == last as u8);
        assert(over_alphabet(q.symbols, one));
    }
    assert(over_alphabet(q.symbols, Seq::<u8>::empty()));
    assert forall|i: int| 0 <= i < found.len() implies (#[trigger] found[i]).wf() && is_solution(
        q,
        found[i]@,
    ) && found[i]@.len() <= 1 by {
        if q.start == q.goal && i == 0 {
            assert(found[i] == nothing);
        } else {
            assert(found[i] == single);
        }
    }
    assert forall|m: Seq<u8>| #[trigger] is_solution(q, m) && m.len() <= 1 implies listed(
        found,
        m,
    ) by {
        if m.len() == 0 {
            assert(m == nothing@);
            assert(found[0] == nothing);
        } else {
            lemma_one_byte(q, m[0]);
            assert(m == seq![m[0]]);
            assert(has_symbol(q.symbols, m[0] as u32));
            assert(m[0] == last);
            assert(m == one);
            assert(found[found.len() - 1] == single);
        }
    }
}

/// The hash of a string of one byte is one step from the start.
proof fn lemma_one_byte(q: Problem, b: u8)
    ensures
        hash_from(q.start, seq![b]) == hash_step(q.start, b),
{
    let one = seq![b];
    assert(one.drop_last() == Seq::<u8>::empty());
    assert(hash_from(q.start, Seq::<u8>::empty()) == q.start);
    assert(one.last() == b);
}

/// `m` is a collision: a string over `symbols`, no longer than `max_len`,
/// that between `prefix` and `suffix` makes the hash of the whole equal
/// `target`.
pub open spec fn is_collision(
    symbols: Seq<u8>,
    prefix: Seq<u8>,
    suffix: Seq<u8>,
    target: u32,
    max_len: nat,
    m: Seq<u8>,
) -> bool {
    &&& m.len() <= max_len
    &&& over_alphabet(symbols, m)
    &&& spec_fnv_hash(prefix + m + suffix) == target
}

/// A string is a collision exactly when it leads from the hash of the
/// prefix to the state that the suffix carries to the target.
pub proof fn lemma_solution_is_collision(
    symbols: Seq<u8>,
    prefix: Seq<u8>,
    suffix: Seq<u8>,
    target: u32,
    shift: PrecomputedSuffix,
    max_len: nat,
    m: Seq<u8>,
)
    requires
        shift.solves(suffix, target),
    ensures
        is_collision(symbols, prefix, suffix, target, max_len, m) <==> is_solution(
            (Problem {
                symbols,
                start: spec_fnv_hash(prefix),
                goal: shift.target_shift,
                max_len,
            }),
            m,
        ),
{
    lemma_hash_from_concat(0, prefix, m);
    lemma_hash_from_concat(0, prefix + m, suffix);
    let h = hash_from(spec_fnv_hash(prefix), m);
    assert(hash_from(h, suffix) == target <==> h == shift.target_shift);
}

/// Every string `m` over the alphabet, of length up to `max_len`, with
/// `fnv_hash(prefix|m|suffix) == target_hash`; each of them once, in no
/// stated order.
///
/// `L` is the number of lanes that the symbols are worked on together; the
/// result does not depend on it.
pub fn find_collisions_simd<const N: usize, const L: usize>(
    alphabet: &Alphabet<N>,
    prefix: &[u8],
    suffix: &[u8],
    max_len: usize,
    target_hash: u32,
) -> (matches: Vec<Match>)
    requires
        alphabet.wf(),
        L >= 1,
        max_len <= 8,
    ensures
        forall|i: int|
            0 <= i < matches@.len() ==> (#[trigger] matches@[i]).wf() && is_collision(
                alphabet@,
                prefix@,
                suffix@,
                target_hash,
                max_len as nat,
                matches@[i]@,
            ),
        forall|m: Seq<u8>| #[trigger]
            is_collision(alphabet@, prefix@, suffix@, target_hash, max_len as nat, m) ==> listed(
                matches@,
                m,
            ),
        forall|i: int, j: int|
            0 <= i < j < matches@.len() ==> (#[trigger] matches@[i])@ != (#[trigger] matches@[j])@,
{
    let shift = PrecomputedSuffix::new(suffix, target_hash);
    let prefix_hash = fnv_hash(prefix);
    let matches = search::<N, L>(alphabet, prefix_hash, shift, max_len);
    proof {
        let q = Problem {
            symbols: alphabet@,
            start: prefix_hash,
            goal: shift.target_shift,
            max_len: max_len as nat,
        };
        assert forall|i: int| 0 <= i < matches@.len() implies (#[trigger] matches@[i]).wf()
            && is_collision(
            alphabet@,
            prefix@,
            suffix@,
            target_hash,
            max_len as nat,
            matches@[i]@,
        ) by {
            assert(is_solution(q, matches@[i]@));
            lemma_solution_is_collision(
                alphabet@,
                prefix@,
                suffix@,
                target_hash,
                shift,
                max_len as nat,
                matches@[i]@,
            );
        }
        assert forall|m: Seq<u8>| #[trigger]
            is_collision(
                alphabet@,
                prefix@,
                suffix@,
                target_hash,
                max_len as nat,
                m,
            ) implies listed(matches@, m) by {
            lemma_solution_is_collision(
                alphabet@,
                prefix@,
                suffix@,
                target_hash,
                shift,
                max_len as nat,
                m,
            );
            assert(is_solution(q, m));
        }
    }
    matches
}

} // verus!
