//! The set of bytes that a match may be made of.

use crate::const_vec::ConstVec;
use std::ops::Range;
use vstd::prelude::*;
use vstd::seq_lib::{to_multiset_contains, to_multiset_update};

verus! {

/// Each element is at most the ones after it.
pub open spec fn ascending(s: Seq<u8>) -> bool {
    forall|i: int, j: int| 0 <= i < j < s.len() ==> s[i] <= s[j]
}

/// Each element is less than the ones after it.
pub open spec fn strictly_ascending(s: Seq<u8>) -> bool {
    forall|i: int, j: int| 0 <= i < j < s.len() ==> s[i] < s[j]
}

/// Exchanging two elements of a sequence keeps what it holds.
proof fn lemma_swap_keeps_multiset(s: Seq<u8>, i: int, j: int)
    requires
        0 <= i < s.len(),
        0 <= j < s.len(),
    ensures
        s.update(i, s[j]).update(j, s[i]).to_multiset() == s.to_multiset(),
{
    let s1 = s.update(i, s[j]);
    to_multiset_update(s, i, s[j]);
    to_multiset_update(s1, j, s[i]);
    to_multiset_contains(s, s[i]);
    to_multiset_contains(s, s[j]);
    assert(s.contains(s[i]));
    assert(s.contains(s[j]));
    assert(s1.update(j, s[i]).to_multiset() =~= s.to_multiset());
}

/// The bytes in ascending order, by insertion sort.
pub fn sort_bytes<const N: usize>(bytes: [u8; N]) -> (out: [u8; N])
    ensures
        ascending(out@),
        out@.to_multiset() == bytes@.to_multiset(),
{
    let mut bytes = bytes;
    let ghost given = bytes@;
    let mut i: usize = 1;
    while i < N
        invariant
            1 <= i,
            bytes@.len() == N,
            bytes@.to_multiset() == given.to_multiset(),
            forall|a: int, b: int| 0 <= a < b < i && b < N ==> bytes@[a] <= bytes@[b],
        decreases N - i,
    {
        let mut j: usize = i;
        while j > 0 && bytes[j - 1] > bytes[j]
            invariant
                j <= i < N,
                bytes@.len() == N,
                bytes@.to_multiset() == given.to_multiset(),
                forall|a: int, b: int|
                    0 <= a < b <= i && a != j && b != j ==> bytes@[a] <= bytes@[b],
                forall|b: int| j < b <= i ==> bytes@[j as int] <= bytes@[b],
            decreases j,
        {
            proof {
                lemma_swap_keeps_multiset(bytes@, j as int, j - 1);
            }
            let moved: u8 = bytes[j];
            bytes[j] = bytes[j - 1];
            bytes[j - 1] = moved;
            j -= 1;
        }
        i += 1;
    }
    bytes
}

/// `v` lies in one of the half-open `ranges`.
pub open spec fn in_ranges(ranges: Seq<Range<u32>>, v: u32) -> bool {
    exists|k: int| 0 <= k < ranges.len() && (#[trigger] ranges[k]).start <= v < ranges[k].end
}

/// `ranges` is the shortest list of half-open intervals whose union is the
/// set of `symbols`: each is non-empty and ends by 256, each ends before the
/// next one starts, leaving a gap, and a value lies in one of them exactly
/// when it is a symbol.
pub open spec fn ranges_cover(ranges: Seq<Range<u32>>, symbols: Seq<u8>) -> bool {
    &&& forall|k: int|
        0 <= k < ranges.len() ==> (#[trigger] ranges[k]).start < ranges[k].end <= 256
    &&& forall|k: int|
        0 <= k < ranges.len() - 1 ==> (#[trigger] ranges[k]).end < ranges[k + 1].start
    &&& forall|v: u32| in_ranges(ranges, v) <==> has_symbol(symbols, v)
}

/// `v` is the numeric value of one of the `symbols`.
pub open spec fn has_symbol(symbols: Seq<u8>, v: u32) -> bool {
    exists|i: int| 0 <= i < symbols.len() && #[trigger] symbols[i] == v
}

/// Sequences that hold the same bytes as often have the same symbols: the
/// symbols of an alphabet are those that it was made of, in whatever order
/// they were given.
pub proof fn lemma_same_symbols(a: Seq<u8>, b: Seq<u8>, v: u32)
    requires
        a.to_multiset() == b.to_multiset(),
    ensures
        has_symbol(a, v) <==> has_symbol(b, v),
{
    if has_symbol(a, v) {
        let i = choose|i: int| 0 <= i < a.len() && #[trigger] a[i] == v;
        to_multiset_contains(a, a[i]);
        to_multiset_contains(b, a[i]);
        assert(a.contains(a[i]));
        let j = choose|j: int| 0 <= j < b.len() && b[j] == a[i];
        assert(b[j] == v);
    }
    if has_symbol(b, v) {
        let i = choose|i: int| 0 <= i < b.len() && #[trigger] b[i] == v;
        to_multiset_contains(b, b[i]);
        to_multiset_contains(a, b[i]);
        assert(b.contains(b[i]));
        let j = choose|j: int| 0 <= j < a.len() && a[j] == b[i];
        assert(a[j] == v);
    }
}

/// A value lies in a list of ranges with one more range at its end exactly
/// when it lies in the list or in that range.
proof fn lemma_in_ranges_push(ranges: Seq<Range<u32>>, r: Range<u32>, v: u32)
    ensures
        in_ranges(ranges.push(r), v) <==> in_ranges(ranges, v) || r.start <= v < r.end,
{
    let longer = ranges.push(r);
    if in_ranges(ranges, v) {
        let k = choose|k: int|
            0 <= k < ranges.len() && (#[trigger] ranges[k]).start <= v < ranges[k].end;
        assert(longer[k] == ranges[k]);
    }
    if r.start <= v < r.end {
        assert(longer[ranges.len() as int] == r);
    }
    if in_ranges(longer, v) {
        let k = choose|k: int|
            0 <= k < longer.len() && (#[trigger] longer[k]).start <= v < longer[k].end;
        if k < ranges.len() {
            assert(longer[k] == ranges[k]);
        }
    }
}

/// The alphabet of a search: its symbols in ascending order, and the
/// contiguous ranges that they form.
///
/// The view is the sequence of symbols, ascending.
#[derive(Debug, Clone)]
pub struct Alphabet<const N: usize> {
    bytes: [u8; N],
    ranges: ConstVec<Range<u32>, N>,
}

impl<const N: usize> View for Alphabet<N> {
    type V = Seq<u8>;

    closed spec fn view(&self) -> Seq<u8> {
        self.bytes@
    }
}

impl<const N: usize> Alphabet<N> {
    /// The ranges of the alphabet, ascending.
    pub closed spec fn spec_ranges(&self) -> Seq<Range<u32>> {
        self.ranges@
    }

    /// There are `N` symbols, no two alike, in ascending order, and the
    /// ranges are the shortest list that covers exactly them.
    pub open spec fn wf(&self) -> bool {
        &&& N <= 256
        &&& self@.len() == N
        &&& strictly_ascending(self@)
        &&& self.spec_ranges().len() <= N
        &&& ranges_cover(self.spec_ranges(), self@)
    }

    /// `v` is the value of a symbol of the alphabet.
    pub open spec fn spec_contains(&self, v: u32) -> bool {
        has_symbol(self@, v)
    }

    fn compute_ranges(sorted: &[u8; N]) -> (ranges: ConstVec<Range<u32>, N>)
        requires
            strictly_ascending(sorted@),
        ensures
            ranges.wf(),
            ranges_cover(ranges@, sorted@),
    {
        let mut ranges: ConstVec<Range<u32>, N> = ConstVec::new();
        if N == 0 {
            proof {
                lemma_no_symbols(ranges@, sorted@);
            }
            return ranges;
        }
        ranges.push(sorted[0] as u32..256);
        let mut i: usize = 1;
        proof {
            lemma_first_run(ranges@, sorted@);
        }
        while i < N
            invariant
                1 <= i <= N,
                sorted@.len() == N,
                strictly_ascending(sorted@),
                ranges.wf(),
                ranges@.len() <= i,
                run_open(ranges@, sorted@, i as int),
            decreases N - i,
        {
            let ghost before = ranges@;
            if sorted[i] as u32 != sorted[i - 1] as u32 + 1 {
                let last: usize = ranges.len() - 1;
                let open_range = ranges.index_mut(last);
                open_range.end = sorted[i - 1] as u32 + 1;
                ranges.push(sorted[i] as u32..256);
                proof {
                    lemma_next_run(before, ranges@, sorted@, i as int);
                }
            } else {
                proof {
                    lemma_longer_run(ranges@, sorted@, i as int);
                }
            }
            i += 1;
        }
        let ghost before = ranges@;
        let last: usize = ranges.len() - 1;
        let open_range = ranges.index_mut(last);
        open_range.end = sorted[N - 1] as u32 + 1;
        proof {
            lemma_close_last_range(before, ranges@, sorted@);
        }
        ranges
    }

    /// The alphabet of the given symbols, which must be no more than 256 and
    /// all different.
    pub fn new(bytes: &'static [u8; N]) -> (alphabet: Self)
        requires
            N <= 256,
            bytes@.no_duplicates(),
        ensures
            alphabet.wf(),
            alphabet@.to_multiset() == bytes@.to_multiset(),
    {
        let sorted = sort_bytes(*bytes);
        proof {
            lemma_same_multiset_no_duplicates(bytes@, sorted@);
        }
        Self { ranges: Self::compute_ranges(&sorted), bytes: sorted }
    }

    /// The alphabet of the given symbols, or `None` where they are more than
    /// 256 or one of them occurs twice.
    pub fn checked_new(bytes: &'static [u8; N]) -> (made: Option<Self>)
        ensures
            made is Some <==> N <= 256 && bytes@.no_duplicates(),
            made matches Some(alphabet) ==> alphabet.wf() && alphabet@.to_multiset()
                == bytes@.to_multiset(),
    {
        if N > 256 {
            return None;
        }
        let sorted = sort_bytes(*bytes);
        let mut i: usize = 1;
        while i < N
            invariant
                1 <= i,
                sorted@.len() == N,
                ascending(sorted@),
                sorted@.to_multiset() == bytes@.to_multiset(),
                forall|k: int| 1 <= k < i && k < N ==> sorted@[k - 1] != #[trigger] sorted@[k],
            decreases N - i,
        {
            if sorted[i] == sorted[i - 1] {
                proof {
                    if bytes@.no_duplicates() {
                        lemma_same_multiset_no_duplicates(bytes@, sorted@);
                        assert(sorted@[i - 1] != sorted@[i as int]);
                    }
                }
                return None;
            }
            i += 1;
        }
        proof {
            assert forall|a: int, b: int| 0 <= a < b < sorted@.len() implies sorted@[a]
                != sorted@[b] by {
                assert(sorted@[a] <= sorted@[b - 1]);
                assert(sorted@[b - 1] != sorted@[b]);
            }
            lemma_same_multiset_no_duplicates(sorted@, bytes@);
        }
        Some(Self::new(bytes))
    }

    /// The symbols, ascending.
    pub fn bytes(&self) -> (bytes: &[u8; N])
        ensures
            bytes@ == self@,
    {
        &self.bytes
    }

    /// The ranges of consecutive symbols, ascending.
    pub fn ranges(&self) -> (ranges: &[Range<u32>])
        ensures
            ranges@ == self.spec_ranges(),
    {
        self.ranges.as_slice()
    }

    /// Whether `char` is the value of a symbol of the alphabet.
    pub fn contains(&self, char: u32) -> (found: bool)
        requires
            self.wf(),
        ensures
            found == self.spec_contains(char),
    {
        if self.ranges.is_empty() {
            return false;
        }
        let mut i: usize = self.ranges.len() - 1;
        loop
            invariant
                self.wf(),
                i < self.ranges@.len(),
                forall|k: int| i < k < self.ranges@.len() ==> char < (#[trigger] self.ranges@[k]).start,
            decreases i,
        {
            if char >= self.ranges.index(i).end {
                proof {
                    assert forall|k: int| 0 <= k < self.ranges@.len() implies !((
                    #[trigger] self.ranges@[k]).start <= char < self.ranges@[k].end) by {
                        if k < i {
                            lemma_ranges_ascend(self.ranges@, k, i as int);
                        }
                    }
                }
                return false;
            }
            if char >= self.ranges.index(i).start {
                return true;
            }
            if i == 0 {
                return false;
            }
            i -= 1;
        }
    }

    /// Whether some lane of `chars` is small enough to be a symbol: at most
    /// the greatest symbol of the alphabet.
    ///
    /// Where this is `false`, no lane holds a symbol.
    pub fn simd_prefilter<const L: usize>(&self, chars: [u32; L]) -> (maybe: bool)
        requires
            self.wf(),
        ensures
            maybe <==> N > 0 && exists|j: int| 0 <= j < L && #[trigger] chars@[j] <= self@[N - 1],
            !maybe ==> forall|j: int| 0 <= j < L ==> !self.spec_contains(#[trigger] chars@[j]),
    {
        proof {
            lemma_last_range_end(self.ranges@, self@);
        }
        if self.ranges.is_empty() {
            return false;
        }
        let alphabet_end: u32 = self.ranges.index(self.ranges.len() - 1).end;
        let mut j: usize = 0;
        while j < L
            invariant
                j <= L,
                chars@.len() == L,
                N > 0,
                alphabet_end == self@[N - 1] + 1,
                forall|k: int| 0 <= k < j ==> #[trigger] chars@[k] >= alphabet_end,
            decreases L - j,
        {
            if chars[j] < alphabet_end {
                assert(chars@[j as int] <= self@[N - 1]);
                return true;
            }
            j += 1;
        }
        proof {
            assert forall|j: int| 0 <= j < L implies !self.spec_contains(#[trigger] chars@[j]) by {
                if self.spec_contains(chars@[j]) {
                    let i = choose|i: int| 0 <= i < self@.len() && #[trigger] self@[i] == chars@[j];
                    assert(self@[i] <= self@[N - 1]);
                }
            }
        }
        false
    }

    /// The symbols as 32-bit values, in lane groups of width `L`: as many
    /// full groups as there are, then the symbols that are left over.
    pub fn simd_chunks<const L: usize>(&self) -> (chunks: (ConstVec<[u32; L], N>, ConstVec<u32, L>))
        requires
            self.wf(),
            L >= 1,
        ensures
            chunks.0.wf(),
            chunks.1.wf(),
            chunks.0@.len() == N / L,
            chunks.1@.len() == N % L,
            lanes_concat(chunks.0@) + chunks.1@ == widen(self@),
    {
        let mut simd: ConstVec<[u32; L], N> = ConstVec::new();
        let mut i: usize = 0;
        proof {
            assert(lanes_concat(simd@) == widen(self@.take(0)));
        }
        loop
            invariant
                self.wf(),
                L >= 1,
                i <= N,
                simd.wf(),
                simd@.len() <= i,
                simd@.len() * L == i,
                lanes_concat(simd@) == widen(self@.take(i as int)),
            decreases N - i,
        {
            let ghost start = i;
            let mut chunk: [u32; L] = [0u32; L];
            let mut j: usize = 0;
            while j < L && i < N
                invariant
                    self.wf(),
                    j <= L,
                    start + j == i,
                    i <= N,
                    chunk@.len() == L,
                    chunk@.take(j as int) == widen(self@.subrange(start as int, i as int)),
                decreases L - j,
            {
                let ghost filled = chunk@.take(j as int);
                chunk[j] = self.bytes[i] as u32;
                j += 1;
                i += 1;
                proof {
                    assert(chunk@.take(j as int) == filled.push(self@[i - 1] as u32));
                    assert(self@.subrange(start as int, i as int) == self@.subrange(
                        start as int,
                        i - 1,
                    ).push(self@[i - 1]));
                    assert(widen(self@.subrange(start as int, i as int)) == widen(
                        self@.subrange(start as int, i - 1),
                    ).push(self@[i - 1] as u32));
                }
            }
            if j < L {
                proof {
                    assert(i == N);
                    assert(self@.take(N as int) == self@);
                    assert(self@ == self@.take(start as int) + self@.subrange(
                        start as int,
                        N as int,
                    ));
                    lemma_widen_concat(
                        self@.take(start as int),
                        self@.subrange(start as int, N as int),
                    );
                    assert(chunk@.subrange(0, j as int) == chunk@.take(j as int));
                    vstd::arithmetic::div_mod::lemma_fundamental_div_mod_converse(
                        N as int,
                        L as int,
                        simd@.len() as int,
                        j as int,
                    );
                }
                return (simd, ConstVec::from_slice_range(&chunk, 0..j));
            } else {
                proof {
                    assert(chunk@.take(L as int) == chunk@);
                    assert(self@.take(i as int) == self@.take(start as int) + self@.subrange(
                        start as int,
                        i as int,
                    ));
                    lemma_widen_concat(
                        self@.take(start as int),
                        self@.subrange(start as int, i as int),
                    );
                    assert(simd@.push(chunk).drop_last() == simd@);
                    assert((simd@.len() + 1) * L == simd@.len() * L + L) by (nonlinear_arith);
                }
                simd.push(chunk);
            }
        }
    }
}

/// The bytes as 32-bit values.
pub open spec fn widen(bytes: Seq<u8>) -> Seq<u32> {
    bytes.map_values(|b: u8| b as u32)
}

/// The lanes of all the groups, one group after the other.
pub open spec fn lanes_concat<const L: usize>(groups: Seq<[u32; L]>) -> Seq<u32>
    decreases groups.len(),
{
    if groups.len() == 0 {
        Seq::empty()
    } else {
        lanes_concat(groups.drop_last()) + groups.last()@
    }
}

/// Where a group lies in the concatenation: behind the groups before it,
/// lane by lane.
pub proof fn lemma_lanes_at<const L: usize>(groups: Seq<[u32; L]>, k: int)
    requires
        0 <= k < groups.len(),
    ensures
        ({
            let before = lanes_concat(groups.take(k)).len();
            &&& lanes_concat(groups.take(k + 1)).len() == before + L
            &&& before + L <= lanes_concat(groups).len()
            &&& forall|j: int|
                0 <= j < L ==> lanes_concat(groups)[before + j] == (#[trigger] groups[k]@[j])
        }),
    decreases groups.len(),
{
    let front = groups.drop_last();
    assert(groups.take(k + 1).drop_last() == groups.take(k));
    assert(groups.take(k + 1).last() == groups[k]);
    assert(groups[k]@.len() == L);
    assert(groups.last()@.len() == L);
    if k == groups.len() - 1 {
        assert(groups.take(k) == front);
    } else {
        assert(front.take(k) == groups.take(k));
        assert(front[k] == groups[k]);
        lemma_lanes_at(front, k);
    }
}

/// Widening a concatenation is concatenating what was widened.
proof fn lemma_widen_concat(a: Seq<u8>, b: Seq<u8>)
    ensures
        widen(a + b) == widen(a) + widen(b),
{
    assert(widen(a + b) =~= widen(a) + widen(b));
}

/// Sequences that hold the same elements as often are both free of
/// duplicates or neither is.
proof fn lemma_same_multiset_no_duplicates(a: Seq<u8>, b: Seq<u8>)
    requires
        a.to_multiset() == b.to_multiset(),
        a.no_duplicates(),
    ensures
        b.no_duplicates(),
{
    a.lemma_multiset_has_no_duplicates();
    b.lemma_multiset_has_no_duplicates_conv();
}

/// Ranges that leave gaps between neighbours ascend as a whole.
proof fn lemma_ranges_ascend(ranges: Seq<Range<u32>>, a: int, b: int)
    requires
        0 <= a < b < ranges.len(),
        forall|k: int|
            0 <= k < ranges.len() ==> (#[trigger] ranges[k]).start < ranges[k].end <= 256,
        forall|k: int|
            0 <= k < ranges.len() - 1 ==> (#[trigger] ranges[k]).end < ranges[k + 1].start,
    ensures
        ranges[a].end < ranges[b].start,
    decreases b - a,
{
    if a + 1 < b {
        lemma_ranges_ascend(ranges, a, b - 1);
        assert(ranges[b - 1].start < ranges[b - 1].end);
        assert(ranges[b - 1].end < ranges[b].start);
    } else {
        assert(ranges[a].end < ranges[a + 1].start);
    }
}

/// The last range ends just behind the greatest symbol, and there is no
/// range where there is no symbol.
proof fn lemma_last_range_end(ranges: Seq<Range<u32>>, symbols: Seq<u8>)
    requires
        strictly_ascending(symbols),
        ranges_cover(ranges, symbols),
    ensures
        ranges.len() == 0 <==> symbols.len() == 0,
        ranges.len() > 0 ==> ranges.last().end == symbols.last() + 1,
{
    if ranges.len() > 0 {
        let last = ranges.last();
        let top: u32 = (last.end - 1) as u32;
        assert(ranges[ranges.len() - 1].start <= top < ranges[ranges.len() - 1].end);
        assert(in_ranges(ranges, top));
        assert(has_symbol(symbols, top));
        let i = choose|i: int| 0 <= i < symbols.len() && #[trigger] symbols[i] == top;
        assert(symbols[i] <= symbols.last());
        let greatest: u32 = symbols.last() as u32;
        assert(symbols[symbols.len() - 1] == greatest);
        assert(has_symbol(symbols, greatest));
        assert(in_ranges(ranges, greatest));
        let k = choose|k: int|
            0 <= k < ranges.len() && (#[trigger] ranges[k]).start <= greatest < ranges[k].end;
        if k < ranges.len() - 1 {
            lemma_ranges_ascend(ranges, k, ranges.len() - 1);
        }
    }
    if symbols.len() > 0 {
        let first: u32 = symbols[0] as u32;
        assert(has_symbol(symbols, first));
        assert(in_ranges(ranges, first));
    }
}

/// While the symbols are gone through, `ranges` covers the first `i` of
/// them with its last range still open: that range starts where the run of
/// consecutive symbols started that symbol `i - 1` belongs to.
spec fn run_open(ranges: Seq<Range<u32>>, symbols: Seq<u8>, i: int) -> bool {
    &&& 1 <= ranges.len()
    &&& 1 <= i <= symbols.len()
    &&& ranges.last().end == 256
    &&& ranges.last().start <= symbols[i - 1]
    &&& forall|k: int|
        0 <= k < ranges.len() - 1 ==> (#[trigger] ranges[k]).start < ranges[k].end <= 256
    &&& forall|k: int| 0 <= k < ranges.len() - 1 ==> (#[trigger] ranges[k]).end < ranges[k + 1].start
    &&& forall|v: u32|
        #![trigger in_ranges(ranges.drop_last(), v)]
        #![trigger has_symbol(symbols.take(i), v)]
        (in_ranges(ranges.drop_last(), v) || ranges.last().start <= v <= symbols[i - 1])
            <==> has_symbol(symbols.take(i), v)
}

/// Without symbols there are no ranges.
proof fn lemma_no_symbols(ranges: Seq<Range<u32>>, symbols: Seq<u8>)
    requires
        ranges.len() == 0,
        symbols.len() == 0,
    ensures
        ranges_cover(ranges, symbols),
{
    assert forall|v: u32| in_ranges(ranges, v) <==> has_symbol(symbols, v) by {}
}

/// The first symbol opens the first range.
proof fn lemma_first_run(ranges: Seq<Range<u32>>, symbols: Seq<u8>)
    requires
        symbols.len() >= 1,
        ranges == seq![(Range { start: symbols[0] as u32, end: 256u32 })],
    ensures
        run_open(ranges, symbols, 1),
{
    let first = symbols.take(1);
    assert(first[0] == symbols[0]);
    assert forall|v: u32|
        #![trigger in_ranges(ranges.drop_last(), v)]
        #![trigger has_symbol(first, v)]
        (in_ranges(ranges.drop_last(), v) || ranges.last().start <= v <= symbols[0])
            <==> has_symbol(first, v) by {
        if v == symbols[0] {
            assert(first[0] == v);
        }
    }
}

/// A symbol that follows its predecessor directly belongs to the same run.
proof fn lemma_longer_run(ranges: Seq<Range<u32>>, symbols: Seq<u8>, i: int)
    requires
        run_open(ranges, symbols, i),
        i < symbols.len(),
        symbols[i] == symbols[i - 1] + 1,
    ensures
        run_open(ranges, symbols, i + 1),
{
    assert forall|v: u32|
        #![trigger in_ranges(ranges.drop_last(), v)]
        #![trigger has_symbol(symbols.take(i + 1), v)]
        (in_ranges(ranges.drop_last(), v) || ranges.last().start <= v <= symbols[i])
            <==> has_symbol(symbols.take(i + 1), v) by {
        lemma_has_symbol_take(symbols, i, v);
        assert((in_ranges(ranges.drop_last(), v) || ranges.last().start <= v <= symbols[i - 1])
            <==> has_symbol(symbols.take(i), v));
    }
}

/// A symbol that leaves a gap behind its predecessor closes the open range
/// behind the predecessor and opens the next one.
proof fn lemma_next_run(
    before: Seq<Range<u32>>,
    after: Seq<Range<u32>>,
    symbols: Seq<u8>,
    i: int,
)
    requires
        run_open(before, symbols, i),
        i < symbols.len(),
        strictly_ascending(symbols),
        symbols[i] != symbols[i - 1] + 1,
        after == before.update(
            before.len() - 1,
            (Range { start: before.last().start, end: (symbols[i - 1] + 1) as u32 }),
        ).push((Range { start: symbols[i] as u32, end: 256u32 })),
    ensures
        run_open(after, symbols, i + 1),
{
    let done = Range { start: before.last().start, end: (symbols[i - 1] + 1) as u32 };
    assert(symbols[i - 1] < symbols[i]);
    assert(after.drop_last() == before.drop_last().push(done));
    assert forall|v: u32|
        #![trigger in_ranges(after.drop_last(), v)]
        #![trigger has_symbol(symbols.take(i + 1), v)]
        (in_ranges(after.drop_last(), v) || after.last().start <= v <= symbols[i])
            <==> has_symbol(symbols.take(i + 1), v) by {
        lemma_in_ranges_push(before.drop_last(), done, v);
        lemma_has_symbol_take(symbols, i, v);
        assert((in_ranges(before.drop_last(), v) || before.last().start <= v <= symbols[i - 1])
            <==> has_symbol(symbols.take(i), v));
    }
    assert forall|k: int| 0 <= k < after.len() - 1 implies (#[trigger] after[k]).start
        < after[k].end <= 256 by {
        if k < before.len() - 1 {
            assert(after[k] == before[k]);
        }
    }
    assert forall|k: int| 0 <= k < after.len() - 1 implies (#[trigger] after[k]).end < after[k
        + 1].start by {
        if k < before.len() - 1 {
            assert(after[k] == before[k]);
        }
    }
}

/// Closing the last range behind the last symbol completes the cover.
proof fn lemma_close_last_range(open: Seq<Range<u32>>, closed: Seq<Range<u32>>, symbols: Seq<u8>)
    requires
        run_open(open, symbols, symbols.len() as int),
        closed == open.update(
            open.len() - 1,
            (Range { start: open.last().start, end: (symbols.last() + 1) as u32 }),
        ),
    ensures
        ranges_cover(closed, symbols),
{
    let done = Range { start: open.last().start, end: (symbols.last() + 1) as u32 };
    assert(closed == open.drop_last().push(done));
    assert(symbols.take(symbols.len() as int) == symbols);
    assert forall|v: u32| in_ranges(closed, v) <==> has_symbol(symbols, v) by {
        lemma_in_ranges_push(open.drop_last(), done, v);
        assert((in_ranges(open.drop_last(), v) || open.last().start <= v <= symbols.last())
            <==> has_symbol(symbols.take(symbols.len() as int), v));
    }
    assert forall|k: int| 0 <= k < closed.len() implies (#[trigger] closed[k]).start
        < closed[k].end <= 256 by {
        if k < closed.len() - 1 {
            assert(closed[k] == open[k]);
        }
    }
    assert forall|k: int| 0 <= k < closed.len() - 1 implies (#[trigger] closed[k]).end
        < closed[k + 1].start by {
        assert(closed[k] == open[k]);
    }
}

/// The symbols among the first `i + 1` of a sequence are those among the
/// first `i`, and the one after them.
proof fn lemma_has_symbol_take(symbols: Seq<u8>, i: int, v: u32)
    requires
        0 <= i < symbols.len(),
    ensures
        has_symbol(symbols.take(i + 1), v) <==> has_symbol(symbols.take(i), v) || symbols[i] == v,
{
    let short = symbols.take(i);
    let long = symbols.take(i + 1);
    if has_symbol(short, v) {
        let k = choose|k: int| 0 <= k < short.len() && #[trigger] short[k] == v;
        assert(long[k] == v);
    }
    if symbols[i] == v {
        assert(long[i] == v);
    }
    if has_symbol(long, v) {
        let k = choose|k: int| 0 <= k < long.len() && #[trigger] long[k] == v;
        if k < i {
            assert(short[k] == v);
        }
    }
}

} // verus!
