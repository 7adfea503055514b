//! Which devices can run the grid, and in which order they are preferred.

use vstd::prelude::*;

verus! {

/// `a` is `b` or comes before it in the order of byte strings: the first
/// byte in which they differ decides, and a string comes before those that
/// it is the start of.
pub open spec fn bytes_le(a: Seq<u8>, b: Seq<u8>) -> bool
    decreases a.len(),
{
    if a.len() == 0 {
        true
    } else if b.len() == 0 {
        false
    } else if a[0] != b[0] {
        a[0] < b[0]
    } else {
        bytes_le(a.drop_first(), b.drop_first())
    }
}

/// Whether `a` is `b` or comes before it in the order of byte strings.
pub fn bytes_at_most(a: &[u8], b: &[u8]) -> (le: bool)
    ensures
        le == bytes_le(a@, b@),
{
    let mut i: usize = 0;
    proof {
        assert(a@.skip(0) == a@);
        assert(b@.skip(0) == b@);
    }
    while i < a.len() && i < b.len()
        invariant
            i <= a@.len(),
            i <= b@.len(),
            bytes_le(a@, b@) == bytes_le(a@.skip(i as int), b@.skip(i as int)),
        decreases a@.len() - i,
    {
        proof {
            assert(a@.skip(i as int)[0] == a@[i as int]);
            assert(b@.skip(i as int)[0] == b@[i as int]);
            assert(a@.skip(i as int).drop_first() == a@.skip(i + 1));
            assert(b@.skip(i as int).drop_first() == b@.skip(i + 1));
        }
        if a[i] != b[i] {
            return a[i] < b[i];
        }
        i += 1;
    }
    i == a.len()
}

/// The version that a device must have at least: the kernel needs atomic
/// operations on 32-bit integers in global memory.
pub open spec fn least_version() -> Seq<u8> {
    seq![0x31u8, 0x2eu8, 0x31u8]
}

/// Whether a device can run the kernel: it is available, and its version
/// string is `1.1` or comes behind it in the order of byte strings.
pub fn supports_kernel(available: u32, version: &[u8]) -> (usable: bool)
    ensures
        usable == (available >= 1 && bytes_le(least_version(), version@)),
{
    if available < 1 {
        return false;
    }
    let least: [u8; 3] = [0x31, 0x2e, 0x31];
    proof {
        assert(least@ == least_version());
    }
    bytes_at_most(&least, version)
}

/// The measure by which devices are ranked: clock rate times number of
/// compute units.
pub fn effective_compute(clock: u32, units: u32) -> (compute: u64)
    ensures
        compute == clock * units,
{
    proof {
        assert(clock * units <= 0xffff_ffff * 0xffff_ffff) by (nonlinear_arith)
            requires
                clock <= 0xffff_ffff,
                units <= 0xffff_ffff,
        ;
    }
    (clock as u64) * (units as u64)
}

/// Device `i` is preferred to device `j`: it has more compute, or as much
/// and comes first.
pub open spec fn preferred(compute: Seq<u64>, i: int, j: int) -> bool {
    compute[i] > compute[j] || (compute[i] == compute[j] && i < j)
}

/// `order` holds each index of `compute` once, each before those that it is
/// preferred to.
pub open spec fn is_ranking(compute: Seq<u64>, order: Seq<usize>) -> bool {
    &&& order.len() == compute.len()
    &&& forall|a: int| 0 <= a < order.len() ==> (#[trigger] order[a]) < compute.len()
    &&& forall|a: int, b: int|
        0 <= a < b < order.len() ==> preferred(compute, order[a] as int, order[b] as int)
    &&& forall|i: usize| i < compute.len() ==> #[trigger] order.contains(i)
}

/// The devices in the order of preference: most compute first, and among
/// devices of equal compute the one that comes first.
pub fn rank_devices(compute: &[u64]) -> (order: Vec<usize>)
    ensures
        is_ranking(compute@, order@),
{
    let mut order: Vec<usize> = Vec::new();
    let mut next: usize = 0;
    while next < compute.len()
        invariant
            next <= compute@.len(),
            order@.len() == next,
            forall|a: int| 0 <= a < order@.len() ==> (#[trigger] order@[a]) < next,
            forall|a: int, b: int|
                0 <= a < b < order@.len() ==> preferred(
                    compute@,
                    order@[a] as int,
                    order@[b] as int,
                ),
            forall|i: usize| i < next ==> #[trigger] order@.contains(i),
        decreases compute@.len() - next,
    {
        let ghost before = order@;
        order.push(next);
        let mut at: usize = next;
        proof {
            assert(order@[next as int] == next);
            assert forall|i: usize| i <= next implies #[trigger] order@.contains(i) by {
                if i < next {
                    assert(before.contains(i));
                    let w = choose|w: int| 0 <= w < before.len() && before[w] == i;
                    assert(order@[w] == i);
                }
            }
        }
        // the new device moves up past those that it is preferred to
        while at > 0 && compute[order[at - 1]] < compute[next]
            invariant
                at <= next < compute@.len(),
                order@.len() == next + 1,
                order@[at as int] == next,
                forall|a: int| 0 <= a < order@.len() ==> (#[trigger] order@[a]) <= next,
                forall|a: int, b: int|
                    0 <= a < b < order@.len() && a != at && b != at ==> preferred(
                        compute@,
                        order@[a] as int,
                        order@[b] as int,
                    ),
                forall|b: int|
                    at < b < order@.len() ==> compute@[next as int] > compute@[(
                    #[trigger] order@[b]) as int],
                forall|a: int| 0 <= a < order@.len() && a != at ==> (#[trigger] order@[a]) < next,
                forall|i: usize| i <= next ==> #[trigger] order@.contains(i),
            decreases at,
        {
            let ghost shifted = order@;
            let other: usize = order[at - 1];
            order.set(at, other);
            order.set(at - 1, next);
            proof {
                assert forall|i: usize| i <= next implies #[trigger] order@.contains(i) by {
                    assert(shifted.contains(i));
                    let w = choose|w: int| 0 <= w < shifted.len() && shifted[w] == i;
                    if w == at {
                        assert(order@[at - 1] == i);
                    } else if w == at - 1 {
                        assert(order@[at as int] == i);
                    } else {
                        assert(order@[w] == i);
                    }
                }
            }
            at -= 1;
        }
        proof {
            assert forall|a: int, b: int| 0 <= a < b < order@.len() implies preferred(
                compute@,
                order@[a] as int,
                order@[b] as int,
            ) by {
                if b == at && a < at - 1 {
                    assert(preferred(compute@, order@[a] as int, order@[at - 1] as int));
                }
            }
        }
        next += 1;
    }
    order
}

} // verus!
