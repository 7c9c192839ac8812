//! The outward alternating search for the maximal-order element nearest an
//! anchor.

use vstd::prelude::*;
use crate::ring::ModularRing;

verus! {

/// Candidates examined before the search gives up.
pub const SEARCH_LIMIT: usize = 0x4000_0000;

/// The sign of `d`.
pub open spec fn sign(d: int) -> int {
    if d > 0 {
        1
    } else if d < 0 {
        -1
    } else {
        0
    }
}

/// One step of the alternating search: move by the step, then flip the step
/// to the other side and widen it by one.
pub open spec fn zig_step(s: (int, int)) -> (int, int) {
    (s.0 + s.1, -s.1 - sign(s.1))
}

/// The `i`-th state (candidate, step) of the search started at anchor `a0`
/// with first step `d0`: the candidates run `a0, a0+1, a0-1, a0+2, ...`
/// (or mirrored), in order of distance from the anchor.
pub open spec fn zig(a0: int, d0: int, i: nat) -> (int, int)
    decreases i,
{
    if i == 0 {
        (a0, d0)
    } else {
        zig_step(zig(a0, d0, (i - 1) as nat))
    }
}

/// The closed form of the search states: after `i` steps the step has
/// magnitude `i + 1`, and the candidate sits `ceil(i/2)` away from the
/// anchor, on alternating sides.
pub proof fn lemma_zig_shape(a0: int, d0: int, i: nat)
    requires
        d0 == 1 || d0 == -1,
    ensures
        d0 == 1 && i % 2 == 0 ==> zig(a0, d0, i) == (a0 - i / 2, i + 1 as int),
        d0 == 1 && i % 2 == 1 ==> zig(a0, d0, i) == (a0 + (i + 1) / 2, -(i + 1 as int)),
        d0 == -1 && i % 2 == 0 ==> zig(a0, d0, i) == (a0 + i / 2, -(i + 1 as int)),
        d0 == -1 && i % 2 == 1 ==> zig(a0, d0, i) == (a0 - (i + 1) / 2, i + 1 as int),
    decreases i,
{
    if i > 0 {
        lemma_zig_shape(a0, d0, (i - 1) as nat);
    }
}

/// Bounds on the `i`-th state that follow from the closed form.
pub proof fn lemma_zig_bounds(a0: int, d0: int, i: nat)
    requires
        d0 == 1 || d0 == -1,
    ensures
        a0 - i <= zig(a0, d0, i).0 <= a0 + i,
        zig(a0, d0, i).1 == i + 1 || zig(a0, d0, i).1 == -(i + 1 as int),
{
    lemma_zig_shape(a0, d0, i);
}

impl ModularRing {
    /// Candidate `c` is acceptable: a non-negative integer of maximal order.
    pub open spec fn accepts(self, c: int) -> bool {
        0 <= c && self.spec_has_max_order(c as nat)
    }

    /// Searches outward from the anchor `a0` for the nearest integer of
    /// maximal order mod `m`, first toward `delta0`, alternating sides at
    /// growing distance. Returns the first acceptable candidate of the
    /// sequence `a0, a0+delta0, a0-delta0, ...`, with the number of
    /// candidates examined (the anchor counts as 1); gives up with `None`
    /// once `SEARCH_LIMIT` candidates have failed. Negative candidates are
    /// examined but never accepted. The anchor is typically a real target
    /// rounded to the nearest integer, with `delta0 == 1` when the rounding
    /// undershot the target and `-1` otherwise.
    pub fn max_order_element_close_to(&self, a0: i64, delta0: i64) -> (r: Option<(u64, usize)>)
        requires
            self.wf(),
            delta0 == 1 || delta0 == -1,
            -0x2000_0000_0000_0000 <= a0 <= 0x2000_0000_0000_0000,
        ensures
            match r {
                Some(found) => {
                    &&& 1 <= found.1 <= SEARCH_LIMIT
                    &&& found.0 as int == zig(a0 as int, delta0 as int, (found.1 - 1) as nat).0
                    &&& self.accepts(found.0 as int)
                    &&& forall|j: nat|
                        j < found.1 - 1 ==> !self.accepts(#[trigger] zig(a0 as int, delta0 as int, j).0)
                },
                None => forall|j: nat|
                    j < SEARCH_LIMIT ==> !self.accepts(#[trigger] zig(a0 as int, delta0 as int, j).0),
            },
    {
        let mut a: i64 = a0;
        let mut delta: i64 = delta0;
        let mut count: usize = 1;
        loop
            invariant
                self.wf(),
                delta0 == 1 || delta0 == -1,
                -0x2000_0000_0000_0000 <= a0 <= 0x2000_0000_0000_0000,
                1 <= count <= SEARCH_LIMIT,
                (a as int, delta as int) == zig(a0 as int, delta0 as int, (count - 1) as nat),
                forall|j: nat|
                    j < count - 1 ==> !self.accepts(#[trigger] zig(a0 as int, delta0 as int, j).0),
            decreases SEARCH_LIMIT - count,
        {
            proof {
                lemma_zig_bounds(a0 as int, delta0 as int, (count - 1) as nat);
            }
            if a >= 0 {
                if self.has_max_order(a as u64) {
                    return Some((a as u64, count));
                }
            }
            assert(!self.accepts(zig(a0 as int, delta0 as int, (count - 1) as nat).0));
            if count >= SEARCH_LIMIT {
                return None;
            }
            a = a + delta;
            delta = if delta > 0 {
                -delta - 1
            } else {
                -delta + 1
            };
            count = count + 1;
            proof {
                assert((a as int, delta as int)
                    == zig_step(zig(a0 as int, delta0 as int, (count - 2) as nat)));
                assert((a as int, delta as int)
                    == zig(a0 as int, delta0 as int, (count - 1) as nat));
            }
        }
    }
}

} // verus!
