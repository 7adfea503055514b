//! The search laid out flat for a parallel machine: one lane for each
//! string of a fixed length that a solution may start with, each lane doing
//! a short search of its own and writing what it finds into a buffer of
//! fixed capacity.

use crate::alphabet::{has_symbol, strictly_ascending, Alphabet};
use crate::hash::{hash_from, lemma_hash_from_concat, lemma_step_wraps, PrecomputedSuffix};
use crate::matching::Match;
use crate::search::{is_solution, listed, lists_solutions, over_alphabet, search, Problem};
use vstd::arithmetic::div_mod::{lemma_fundamental_div_mod, lemma_fundamental_div_mod_converse};
use vstd::arithmetic::power::{lemma_pow_increases, lemma_pow_positive, pow};
use vstd::prelude::*;

verus! {

/// The number of lanes: one for each string of `par_len` symbols, that is
/// `symbols` to the power of `par_len`; `None` where that does not fit in
/// 32 bits.
pub fn lane_count(symbols: usize, par_len: usize) -> (lanes: Option<u32>)
    ensures
        lanes is Some <==> pow(symbols as int, par_len as nat) <= u32::MAX,
        lanes matches Some(n) ==> n == pow(symbols as int, par_len as nat),
{
    proof {
        reveal(pow);
    }
    if par_len == 0 {
        return Some(1);
    }
    if symbols > 0xffff_ffff {
        proof {
            lemma_pow_increases(symbols as nat, 1, par_len as nat);
            assert(pow(symbols as int, 1) == symbols) by {
                vstd::arithmetic::power::lemma_pow1(symbols as int);
            }
        }
        return None;
    }
    let base: u32 = symbols as u32;
    let mut lanes: u32 = 1;
    let mut i: usize = 0;
    while i < par_len
        invariant
            i <= par_len,
            base == symbols,
            lanes == pow(symbols as int, i as nat),
        decreases par_len - i,
    {
        proof {
            reveal(pow);
        }
        match lanes.checked_mul(base) {
            Some(more) => {
                proof {
                    assert(lanes * base == base * lanes) by (nonlinear_arith);
                }
                lanes = more;
            },
            None => {
                proof {
                    assert(lanes * base == base * lanes) by (nonlinear_arith);
                    assert(base >= 1) by (nonlinear_arith)
                        requires
                            lanes * base > 0,
                            lanes >= 0,
                    ;
                    lemma_pow_increases(symbols as nat, (i + 1) as nat, par_len as nat);
                }
                return None;
            },
        }
        i += 1;
    }
    Some(lanes)
}

/// The least multiple of `block` that is no less than `items`.
pub open spec fn padded(items: int, block: int) -> int {
    if items % block == 0 {
        items
    } else {
        items + block - items % block
    }
}

/// `padded` is a multiple of `block`, no less than `items` and less than
/// one block above it.
pub proof fn lemma_padded(items: int, block: int)
    requires
        0 <= items,
        0 < block,
    ensures
        padded(items, block) % block == 0,
        items <= padded(items, block) < items + block,
{
    lemma_fundamental_div_mod(items, block);
    if items % block != 0 {
        let q = items / block;
        assert(padded(items, block) == (q + 1) * block) by (nonlinear_arith)
            requires
                items == block * q + items % block,
                padded(items, block) == items + block - items % block,
        ;
        vstd::arithmetic::div_mod::lemma_mod_multiples_basic(q + 1, block);
    }
}

/// The number of lanes to start for `items` lanes of work where lanes start
/// in blocks of `block`: the least multiple of `block` that is no less than
/// `items`, or `None` where that does not fit in a `usize`.
pub fn padded_work_size(items: usize, block: usize) -> (size: Option<usize>)
    requires
        block > 0,
    ensures
        size == if padded(items as int, block as int) <= usize::MAX {
            Some(padded(items as int, block as int) as usize)
        } else {
            None
        },
{
    let over: usize = items % block;
    if over == 0 {
        Some(items)
    } else {
        items.checked_add(block - over)
    }
}

/// The size in bytes of a buffer of `entries` rows of `row_len` bytes, or
/// `None` where it is more than the device can be told in 32 bits.
pub fn results_buffer_bytes(entries: usize, row_len: usize) -> (bytes: Option<usize>)
    ensures
        bytes is Some <==> entries * row_len <= u32::MAX,
        bytes matches Some(n) ==> n == entries * row_len,
{
    match entries.checked_mul(row_len) {
        Some(n) => if n > 0xffff_ffff {
            None
        } else {
            Some(n)
        },
        None => None,
    }
}

/// The number of entries that may be read back from a buffer of `capacity`
/// entries when `count` entries were claimed: lanes that claim an entry
/// behind the end of the buffer write nothing.
pub fn clamp_count(count: u32, capacity: u32) -> (readable: u32)
    ensures
        readable == if count <= capacity {
            count
        } else {
            capacity
        },
{
    if count <= capacity {
        count
    } else {
        capacity
    }
}

/// The length of the string in a row of the buffer: the string ends before
/// the first byte of value 0, or fills the row.
pub fn row_length(row: &[u8]) -> (len: usize)
    ensures
        len <= row@.len(),
        forall|i: int| 0 <= i < len ==> row@[i] != 0,
        len < row@.len() ==> row@[len as int] == 0,
{
    let mut len: usize = 0;
    while len < row.len() && row[len] != 0
        invariant
            len <= row@.len(),
            forall|i: int| 0 <= i < len ==> row@[i] != 0,
        decreases row@.len() - len,
    {
        len += 1;
    }
    len
}

/// The string of `p` symbols that lane number `lane` starts with: the
/// digits of `lane` to the base of the number of symbols, lowest first,
/// each standing for the symbol of that index.
pub open spec fn lane_string(symbols: Seq<u8>, lane: nat, p: nat) -> Seq<u8>
    decreases p,
{
    if p == 0 {
        Seq::empty()
    } else {
        seq![symbols[(lane % symbols.len()) as int]] + lane_string(
            symbols,
            lane / symbols.len(),
            (p - 1) as nat,
        )
    }
}

/// A lane's string has `p` bytes, all of them symbols.
pub proof fn lemma_lane_string(symbols: Seq<u8>, lane: nat, p: nat)
    requires
        p > 0 ==> symbols.len() > 0,
    ensures
        lane_string(symbols, lane, p).len() == p,
        over_alphabet(symbols, lane_string(symbols, lane, p)),
    decreases p,
{
    if p > 0 {
        let k = symbols.len();
        let rest = lane_string(symbols, lane / k, (p - 1) as nat);
        lemma_lane_string(symbols, lane / k, (p - 1) as nat);
        let s = lane_string(symbols, lane, p);
        assert forall|i: int| 0 <= i < s.len() implies has_symbol(symbols, #[trigger] s[i] as u32) by {
            if i == 0 {
                assert(symbols[(lane % k) as int] == s[0] as u32);
            } else {
                assert(s[i] == rest[i - 1]);
            }
        }
    }
}

/// Every string of symbols is the string of a lane.
pub proof fn lemma_lane_exists(symbols: Seq<u8>, m: Seq<u8>) -> (lane: nat)
    requires
        over_alphabet(symbols, m),
    ensures
        lane < pow(symbols.len() as int, m.len()),
        lane_string(symbols, lane, m.len()) == m,
    decreases m.len(),
{
    reveal(pow);
    let k = symbols.len();
    if m.len() == 0 {
        assert(lane_string(symbols, 0, 0) == m);
        0
    } else {
        let tail = m.drop_first();
        assert forall|i: int| 0 <= i < tail.len() implies has_symbol(
            symbols,
            #[trigger] tail[i] as u32,
        ) by {
            assert(tail[i] == m[i + 1]);
        }
        let r = lemma_lane_exists(symbols, tail);
        assert(has_symbol(symbols, m[0] as u32));
        let d = choose|i: int| 0 <= i < symbols.len() && #[trigger] symbols[i] == m[0] as u32;
        let lane = (d + k * r) as nat;
        assert(lane == r * k + d) by (nonlinear_arith)
            requires
                lane == d + k * r,
        ;
        lemma_fundamental_div_mod_converse(lane as int, k as int, r as int, d);
        assert(lane_string(symbols, lane, m.len()) =~= m);
        let below = pow(k as int, tail.len());
        assert(lane < k * below) by (nonlinear_arith)
            requires
                lane == d + k * r,
                0 <= d < k,
                0 <= r < below,
        ;
        lane
    }
}

/// Two lanes with the same string are one lane.
pub proof fn lemma_lane_unique(symbols: Seq<u8>, a: nat, b: nat, p: nat)
    requires
        strictly_ascending(symbols),
        symbols.len() > 0,
        a < pow(symbols.len() as int, p),
        b < pow(symbols.len() as int, p),
        lane_string(symbols, a, p) == lane_string(symbols, b, p),
    ensures
        a == b,
    decreases p,
{
    reveal(pow);
    let k = symbols.len();
    if p > 0 {
        let sa = lane_string(symbols, a, p);
        let sb = lane_string(symbols, b, p);
        let ta = lane_string(symbols, a / k, (p - 1) as nat);
        let tb = lane_string(symbols, b / k, (p - 1) as nat);
        assert(sa[0] == symbols[(a % k) as int]);
        assert(sb[0] == symbols[(b % k) as int]);
        assert(a % k == b % k) by {
            if a % k < b % k {
                assert(symbols[(a % k) as int] < symbols[(b % k) as int]);
            }
            if b % k < a % k {
                assert(symbols[(b % k) as int] < symbols[(a % k) as int]);
            }
        }
        assert(ta =~= sa.drop_first());
        assert(tb =~= sb.drop_first());
        let below = pow(k as int, (p - 1) as nat);
        lemma_fundamental_div_mod(a as int, k as int);
        lemma_fundamental_div_mod(b as int, k as int);
        assert(a / k < below) by (nonlinear_arith)
            requires
                a == k * (a / k) + a % k,
                0 <= a % k,
                a < k * below,
                k > 0,
        ;
        assert(b / k < below) by (nonlinear_arith)
            requires
                b == k * (b / k) + b % k,
                0 <= b % k,
                b < k * below,
                k > 0,
        ;
        lemma_lane_unique(symbols, a / k, b / k, (p - 1) as nat);
    }
}

/// The string that lane number `lane` starts with, and the hash state that
/// it leads to from `prefix_hash`.
pub fn lane_prefix<const N: usize>(
    alphabet: &Alphabet<N>,
    prefix_hash: u32,
    lane: u32,
    par_len: usize,
) -> (start: (Match, u32))
    requires
        alphabet.wf(),
        par_len > 0 ==> N > 0,
        par_len <= 8,
    ensures
        start.0.wf(),
        start.0@ == lane_string(alphabet@, lane as nat, par_len as nat),
        start.1 == hash_from(prefix_hash, start.0@),
{
    let bytes = alphabet.bytes();
    let mut rest: usize = lane as usize;
    let mut string = Match::empty();
    let mut state: u32 = prefix_hash;
    let mut i: usize = 0;
    proof {
        assert(string@ + lane_string(alphabet@, rest as nat, par_len as nat) == lane_string(
            alphabet@,
            lane as nat,
            par_len as nat,
        ));
    }
    while i < par_len
        invariant
            i <= par_len <= 8,
            alphabet.wf(),
            par_len > 0 ==> N > 0,
            bytes@ == alphabet@,
            string.wf(),
            string@.len() == i,
            state == hash_from(prefix_hash, string@),
            string@ + lane_string(alphabet@, rest as nat, (par_len - i) as nat) == lane_string(
                alphabet@,
                lane as nat,
                par_len as nat,
            ),
        decreases par_len - i,
    {
        let symbol: u8 = bytes[rest % N];
        proof {
            let tail = lane_string(alphabet@, (rest / N) as nat, (par_len - i - 1) as nat);
            assert(string@.push(symbol) + tail =~= string@ + (seq![symbol] + tail));
            lemma_step_wraps(state, symbol);
            assert(string@.push(symbol).drop_last() == string@);
        }
        string = string.push(symbol);
        state = state.wrapping_mul(37).wrapping_add(symbol as u32);
        rest = rest / N;
        i += 1;
    }
    proof {
        assert(string@ + Seq::<u8>::empty() == string@);
    }
    (string, state)
}

/// `m` is a solution that the grid finds: a solution of the problem that
/// is at least as long as the strings that the lanes start with.
pub open spec fn is_grid_solution(q: Problem, par_len: nat, m: Seq<u8>) -> bool {
    par_len <= m.len() && is_solution(q, m)
}

/// `all` holds the solutions that the grid finds and nothing else, each
/// once.
pub open spec fn lists_grid_solutions(all: Seq<Match>, q: Problem, par_len: nat) -> bool {
    &&& forall|i: int|
        0 <= i < all.len() ==> (#[trigger] all[i]).wf() && is_grid_solution(q, par_len, all[i]@)
    &&& forall|m: Seq<u8>| #[trigger] is_grid_solution(q, par_len, m) ==> listed(all, m)
    &&& forall|i: int, j: int|
        0 <= i < j < all.len() ==> (#[trigger] all[i])@ != (#[trigger] all[j])@
}

/// `m` starts with the string of a lane below `lane`.
spec fn from_lane_below(symbols: Seq<u8>, par_len: nat, lane: int, m: Seq<u8>) -> bool {
    exists|l: int|
        0 <= l < lane && m.take(par_len as int) == #[trigger] lane_string(
            symbols,
            l as nat,
            par_len,
        )
}

/// What holds of the list of what was found when the lanes below `lane` are
/// done.
spec fn lanes_done(all: Seq<Match>, q: Problem, par_len: nat, lane: int) -> bool {
    &&& forall|i: int|
        0 <= i < all.len() ==> (#[trigger] all[i]).wf() && is_grid_solution(q, par_len, all[i]@)
            && from_lane_below(q.symbols, par_len, lane, all[i]@)
    &&& forall|m: Seq<u8>| #[trigger]
        is_grid_solution(q, par_len, m) && from_lane_below(q.symbols, par_len, lane, m) ==> listed(
            all,
            m,
        )
    &&& forall|i: int, j: int|
        0 <= i < j < all.len() ==> (#[trigger] all[i])@ != (#[trigger] all[j])@
}

/// What holds while the lane `lane`, whose string is `start`, writes down
/// the first `written` of the strings `sub` that its own search found.
spec fn lane_writing(
    all: Seq<Match>,
    q: Problem,
    par_len: nat,
    lane: int,
    start: Seq<u8>,
    sub: Seq<Match>,
    written: int,
) -> bool {
    &&& forall|i: int|
        0 <= i < all.len() ==> (#[trigger] all[i]).wf() && is_grid_solution(q, par_len, all[i]@)
            && from_lane_below(q.symbols, par_len, lane + 1, all[i]@)
    &&& forall|m: Seq<u8>| #[trigger]
        is_grid_solution(q, par_len, m) && from_lane_below(q.symbols, par_len, lane, m) ==> listed(
            all,
            m,
        )
    &&& forall|i: int, j: int|
        0 <= i < j < all.len() ==> (#[trigger] all[i])@ != (#[trigger] all[j])@
    &&& forall|t: int| 0 <= t < written ==> listed(all, start + (#[trigger] sub[t])@)
    &&& forall|i: int|
        0 <= i < all.len() && (#[trigger] all[i])@.take(par_len as int) == start ==> exists|t: int|
            0 <= t < written && all[i]@ == start + (#[trigger] sub[t])@
}

/// The problem that one lane solves: the rest of the string, from the hash
/// state behind the lane's own string.
spec fn lane_problem(q: Problem, par_len: nat, start: Seq<u8>) -> Problem {
    Problem {
        symbols: q.symbols,
        start: hash_from(q.start, start),
        goal: q.goal,
        max_len: (q.max_len - par_len) as nat,
    }
}

/// A string that starts with a lane's string is a solution exactly when
/// what follows the lane's string is a solution of the lane's problem.
proof fn lemma_lane_solution(q: Problem, par_len: nat, start: Seq<u8>, rest: Seq<u8>)
    requires
        start.len() == par_len,
        par_len <= q.max_len,
        over_alphabet(q.symbols, start),
    ensures
        is_grid_solution(q, par_len, start + rest) <==> is_solution(
            lane_problem(q, par_len, start),
            rest,
        ),
{
    let m = start + rest;
    lemma_hash_from_concat(q.start, start, rest);
    if over_alphabet(q.symbols, rest) {
        assert forall|i: int| 0 <= i < m.len() implies has_symbol(q.symbols, #[trigger] m[i] as u32) by {
            if i < start.len() {
                assert(m[i] == start[i]);
            } else {
                assert(m[i] == rest[i - start.len()]);
            }
        }
    }
    if over_alphabet(q.symbols, m) {
        assert forall|i: int| 0 <= i < rest.len() implies has_symbol(
            q.symbols,
            #[trigger] rest[i] as u32,
        ) by {
            assert(rest[i] == m[i + start.len()]);
        }
    }
}

/// A lane starts to write: nothing that is written down starts with its
/// string.
proof fn lemma_lane_starts(
    all: Seq<Match>,
    q: Problem,
    par_len: nat,
    lane: int,
    start: Seq<u8>,
    sub: Seq<Match>,
)
    requires
        strictly_ascending(q.symbols),
        par_len > 0 ==> q.symbols.len() > 0,
        0 <= lane < pow(q.symbols.len() as int, par_len),
        start == lane_string(q.symbols, lane as nat, par_len),
        lanes_done(all, q, par_len, lane),
    ensures
        lane_writing(all, q, par_len, lane, start, sub, 0),
{
    assert forall|i: int| 0 <= i < all.len() implies from_lane_below(
        q.symbols,
        par_len,
        lane + 1,
        (#[trigger] all[i])@,
    ) && all[i]@.take(par_len as int) != start by {
        let l = choose|l: int|
            0 <= l < lane && all[i]@.take(par_len as int) == #[trigger] lane_string(
                q.symbols,
                l as nat,
                par_len,
            );
        assert(all[i]@.take(par_len as int) == lane_string(q.symbols, l as nat, par_len));
        if all[i]@.take(par_len as int) == start {
            if par_len > 0 {
                vstd::arithmetic::power::lemma_pow_positive(q.symbols.len() as int, par_len);
                lemma_lane_unique(q.symbols, l as nat, lane as nat, par_len);
            } else {
                reveal(pow);
            }
        }
    }
}

/// A lane writes down the next string that its search found.
proof fn lemma_lane_writes(
    all: Seq<Match>,
    q: Problem,
    par_len: nat,
    lane: int,
    start: Seq<u8>,
    sub: Seq<Match>,
    written: int,
    row: Match,
)
    requires
        par_len <= q.max_len,
        0 <= lane,
        start == lane_string(q.symbols, lane as nat, par_len),
        start.len() == par_len,
        over_alphabet(q.symbols, start),
        lane_writing(all, q, par_len, lane, start, sub, written),
        lists_solutions(sub, lane_problem(q, par_len, start)),
        0 <= written < sub.len(),
        row.wf(),
        row@ == start + sub[written]@,
    ensures
        lane_writing(all.push(row), q, par_len, lane, start, sub, written + 1),
{
    let more = all.push(row);
    lemma_lane_solution(q, par_len, start, sub[written]@);
    assert(row@.take(par_len as int) =~= start);
    assert(from_lane_below(q.symbols, par_len, lane + 1, row@)) by {
        assert(row@.take(par_len as int) == lane_string(q.symbols, lane as nat, par_len));
    }
    assert forall|i: int| 0 <= i < more.len() implies (#[trigger] more[i]).wf()
        && is_grid_solution(q, par_len, more[i]@) && from_lane_below(
        q.symbols,
        par_len,
        lane + 1,
        more[i]@,
    ) by {
        if i < all.len() {
            assert(more[i] == all[i]);
        }
    }
    assert forall|m: Seq<u8>| #[trigger]
        is_grid_solution(q, par_len, m) && from_lane_below(
            q.symbols,
            par_len,
            lane,
            m,
        ) implies listed(more, m) by {
        let i = choose|i: int| 0 <= i < all.len() && (#[trigger] all[i])@ == m;
        assert(more[i] == all[i]);
    }
    assert forall|i: int, j: int| 0 <= i < j < more.len() implies (#[trigger] more[i])@ != (
    #[trigger] more[j])@ by {
        assert(more[i] == all[i]);
        if j < all.len() {
            assert(more[j] == all[j]);
        } else if all[i]@ == row@ {
            let t = choose|t: int|
                0 <= t < written && all[i]@ == start + (#[trigger] sub[t])@;
            assert(sub[t]@ =~= (start + sub[t]@).skip(par_len as int));
            assert(sub[written]@ =~= (start + sub[written]@).skip(par_len as int));
            assert(sub[t]@ != sub[written]@);
        }
    }
    assert forall|t: int| 0 <= t < written + 1 implies listed(
        more,
        start + (#[trigger] sub[t])@,
    ) by {
        if t < written {
            let i = choose|i: int|
                0 <= i < all.len() && (#[trigger] all[i])@ == start + sub[t]@;
            assert(more[i] == all[i]);
        } else {
            assert(more[all.len() as int] == row);
        }
    }
    assert forall|i: int|
        0 <= i < more.len() && (#[trigger] more[i])@.take(par_len as int) == start implies exists|
        t: int,
    |
        0 <= t < written + 1 && more[i]@ == start + (#[trigger] sub[t])@ by {
        if i < all.len() {
            assert(more[i] == all[i]);
            let t = choose|t: int|
                0 <= t < written && all[i]@ == start + (#[trigger] sub[t])@;
            assert(more[i]@ == start + sub[t]@);
        } else {
            assert(more[i]@ == start + sub[written]@);
        }
    }
}

/// A lane that has written down all that its search found is done.
proof fn lemma_lane_ends(
    all: Seq<Match>,
    q: Problem,
    par_len: nat,
    lane: int,
    start: Seq<u8>,
    sub: Seq<Match>,
)
    requires
        par_len <= q.max_len,
        0 <= lane,
        start == lane_string(q.symbols, lane as nat, par_len),
        start.len() == par_len,
        over_alphabet(q.symbols, start),
        lane_writing(all, q, par_len, lane, start, sub, sub.len() as int),
        lists_solutions(sub, lane_problem(q, par_len, start)),
    ensures
        lanes_done(all, q, par_len, lane + 1),
{
    assert forall|m: Seq<u8>| #[trigger]
        is_grid_solution(q, par_len, m) && from_lane_below(
            q.symbols,
            par_len,
            lane + 1,
            m,
        ) implies listed(all, m) by {
        let l = choose|l: int|
            0 <= l < lane + 1 && m.take(par_len as int) == #[trigger] lane_string(
                q.symbols,
                l as nat,
                par_len,
            );
        if l < lane {
            assert(m.take(par_len as int) == lane_string(q.symbols, l as nat, par_len));
            assert(from_lane_below(q.symbols, par_len, lane, m));
        } else {
            let rest = m.skip(par_len as int);
            assert(m =~= start + rest);
            lemma_lane_solution(q, par_len, start, rest);
            assert(is_solution(lane_problem(q, par_len, start), rest));
            let t = choose|t: int| 0 <= t < sub.len() && (#[trigger] sub[t])@ == rest;
            assert(listed(all, start + sub[t]@));
        }
    }
}

/// When all lanes are done the list is complete.
proof fn lemma_grid_ends(all: Seq<Match>, q: Problem, par_len: nat)
    requires
        par_len <= q.max_len,
        lanes_done(all, q, par_len, pow(q.symbols.len() as int, par_len)),
    ensures
        lists_grid_solutions(all, q, par_len),
{
    assert forall|m: Seq<u8>| #[trigger] is_grid_solution(q, par_len, m) implies listed(
        all,
        m,
    ) by {
        let head = m.take(par_len as int);
        assert forall|i: int| 0 <= i < head.len() implies has_symbol(
            q.symbols,
            #[trigger] head[i] as u32,
        ) by {
            assert(head[i] == m[i]);
        }
        let l = lemma_lane_exists(q.symbols, head);
        let below = l as int;
        assert(head.len() == par_len);
        assert(m.take(par_len as int) == lane_string(q.symbols, below as nat, par_len));
        assert(from_lane_below(q.symbols, par_len, pow(q.symbols.len() as int, par_len), m));
    }
}

/// What is read back of the list `all` of what the lanes found: its
/// length as the count, as far as a `usize` can hold it, and its first
/// entries as the rows, as far as the buffer has room.
pub open spec fn reads_back(all: Seq<Match>, capacity: usize, rows: Seq<Match>, count: usize) -> bool {
    &&& count == if all.len() <= usize::MAX {
        all.len() as int
    } else {
        usize::MAX as int
    }
    &&& rows == all.take(
        if all.len() <= capacity {
            all.len() as int
        } else {
            capacity as int
        },
    )
}

/// The search as the grid does it, lane after lane.
///
/// There is a lane for each string of `par_len` symbols. A lane looks for
/// the solutions that start with its string and have up to `seq_len` bytes
/// more, and claims an entry of the buffer for each. The result is the rows
/// of the buffer, of which there are `capacity` at most, and the count of
/// entries claimed: what was claimed behind the end of the buffer is
/// counted and not kept.
pub fn grid_search<const N: usize, const L: usize>(
    alphabet: &Alphabet<N>,
    prefix_hash: u32,
    suffix: PrecomputedSuffix,
    par_len: usize,
    seq_len: usize,
    capacity: usize,
) -> (out: (Vec<Match>, usize))
    requires
        alphabet.wf(),
        L >= 1,
        par_len + seq_len <= 8,
        pow(N as int, par_len as nat) <= u32::MAX,
    ensures
        exists|all: Seq<Match>|
            #![trigger reads_back(all, capacity, out.0@, out.1)]
            lists_grid_solutions(
                all,
                (Problem {
                    symbols: alphabet@,
                    start: prefix_hash,
                    goal: suffix.target_shift,
                    max_len: (par_len + seq_len) as nat,
                }),
                par_len as nat,
            ) && reads_back(all, capacity, out.0@, out.1),
{
    let ghost q = Problem {
        symbols: alphabet@,
        start: prefix_hash,
        goal: suffix.target_shift,
        max_len: (par_len + seq_len) as nat,
    };
    let ghost p = par_len as nat;
    let lanes: u32 = lane_count(N, par_len).unwrap();
    let mut rows: Vec<Match> = Vec::new();
    let mut count: usize = 0;
    let ghost mut all: Seq<Match> = Seq::empty();
    let mut lane: u32 = 0;
    proof {
        assert(lanes == pow(N as int, par_len as nat));
        assert(rows@ == all.take(0));
    }
    while lane < lanes
        invariant
            alphabet.wf(),
            L >= 1,
            par_len + seq_len <= 8,
            q.symbols == alphabet@,
            q.start == prefix_hash,
            q.goal == suffix.target_shift,
            q.max_len == par_len + seq_len,
            p == par_len,
            lanes == pow(N as int, p),
            lane <= lanes,
            lanes_done(all, q, p, lane as int),
            reads_back(all, capacity, rows@, count),
        decreases lanes - lane,
    {
        proof {
            if par_len > 0 && N == 0 {
                vstd::arithmetic::power::lemma0_pow(p);
            }
        }
        let (start, state) = lane_prefix(alphabet, prefix_hash, lane, par_len);
        let sub = search::<N, L>(alphabet, state, suffix, seq_len);
        proof {
            lemma_lane_string(q.symbols, lane as nat, p);
            lemma_lane_starts(all, q, p, lane as int, start@, sub@);
            assert(lane_problem(q, p, start@) == (Problem {
                symbols: alphabet@,
                start: state,
                goal: suffix.target_shift,
                max_len: seq_len as nat,
            }));
        }
        let mut j: usize = 0;
        while j < sub.len()
            invariant
                j <= sub@.len(),
                par_len + seq_len <= 8,
                q.max_len == par_len + seq_len,
                p == par_len,
                start.wf(),
                start@ == lane_string(q.symbols, lane as nat, p),
                start@.len() == p,
                over_alphabet(q.symbols, start@),
                lists_solutions(sub@, lane_problem(q, p, start@)),
                lane_writing(all, q, p, lane as int, start@, sub@, j as int),
                reads_back(all, capacity, rows@, count),
            decreases sub@.len() - j,
        {
            proof {
                assert(sub@[j as int].wf() && is_solution(
                    lane_problem(q, p, start@),
                    sub@[j as int]@,
                ));
            }
            let row = start.append(&sub[j]);
            let ghost before = all;
            proof {
                lemma_lane_writes(all, q, p, lane as int, start@, sub@, j as int, row);
                all = all.push(row);
            }
            count = count.saturating_add(1);
            if rows.len() < capacity {
                proof {
                    assert(before.take(before.len() as int) == before);
                    assert(all.take(all.len() as int) == all);
                }
                rows.push(row);
            } else {
                proof {
                    assert(all.take(capacity as int) == before.take(capacity as int));
                }
            }
            j += 1;
        }
        proof {
            lemma_lane_ends(all, q, p, lane as int, start@, sub@);
        }
        lane += 1;
    }
    let out = (rows, count);
    proof {
        lemma_grid_ends(all, q, p);
        assert(lists_grid_solutions(all, q, par_len as nat) && reads_back(
            all,
            capacity,
            out.0@,
            out.1,
        ));
    }
    out
}

} // verus!
