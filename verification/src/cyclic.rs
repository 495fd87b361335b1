//! Cyclic sequence-number algebra for major ids.
//!
//! A major id is an unsigned 32-bit counter that wraps around continuously.
//! Two ids are ordered by the magnitude of their raw difference against half
//! the counter's range: if the forward distance from `b` to `a` is less than
//! half the range, `a` is ahead of `b`; otherwise `a` is taken to have wrapped
//! and counts as behind. Comparisons are only meaningful for ids whose true
//! temporal distance is below half the range; the receive-window check of the
//! channel keeps every comparison the system makes inside that bound.

use vstd::prelude::*;

verus! {

/// Forward (clockwise) distance from `from` to `to` in the cyclic space:
/// how many increments take `from` to `to`.
pub open spec fn fwd_distance(from: u32, to: u32) -> int {
    if to >= from {
        to - from
    } else {
        to - from + 0x1_0000_0000
    }
}

/// The absolute cyclic distance: the smaller of the two directional distances.
pub open spec fn cyclic_distance(a: u32, b: u32) -> int {
    if fwd_distance(a, b) <= fwd_distance(b, a) {
        fwd_distance(a, b)
    } else {
        fwd_distance(b, a)
    }
}

/// The cyclic ordering of `a` relative to `b`, by the half-range convention.
pub open spec fn cyclic_ordering(a: u32, b: u32) -> core::cmp::Ordering {
    if a == b {
        core::cmp::Ordering::Equal
    } else if fwd_distance(b, a) < 0x8000_0000 {
        core::cmp::Ordering::Greater
    } else {
        core::cmp::Ordering::Less
    }
}

/// Successor in the cyclic space.
pub open spec fn wrapping_next(a: u32) -> u32 {
    if a == 0xFFFF_FFFFu32 {
        0u32
    } else {
        (a + 1) as u32
    }
}

/// A cyclic major sequence number, assigned to every outbound send operation
/// (one solo message or one whole group).
#[derive(Clone, Copy, Debug, PartialEq, Eq, Structural, Hash)]
pub struct MajorId(pub u32);

impl PartialOrd for MajorId {
    fn partial_cmp(&self, other: &MajorId) -> Option<core::cmp::Ordering> {
        if self.0 == other.0 {
            Some(core::cmp::Ordering::Equal)
        } else {
            let ahead = if self.0 > other.0 {
                self.0 - other.0 < 0x8000_0000u32
            } else {
                other.0 - self.0 > 0x8000_0000u32
            };
            if ahead {
                Some(core::cmp::Ordering::Greater)
            } else {
                Some(core::cmp::Ordering::Less)
            }
        }
    }
}

impl vstd::std_specs::cmp::PartialOrdSpecImpl for MajorId {
    open spec fn obeys_partial_cmp_spec() -> bool {
        true
    }

    open spec fn partial_cmp_spec(&self, other: &MajorId) -> Option<core::cmp::Ordering> {
        Some(cyclic_ordering(self.0, other.0))
    }
}

impl MajorId {
    /// The absolute cyclic distance to `other`: the smaller of the two
    /// directional differences. Used for window and staleness checks only,
    /// never to order ids beyond the half-range boundary.
    pub fn abs_modulo_difference(self, other: Self) -> (r: u32)
        ensures
            r as int == cyclic_distance(self.0, other.0),
    {
        if self.0 == other.0 {
            0
        } else {
            let raw = if self.0 > other.0 {
                self.0 - other.0
            } else {
                other.0 - self.0
            };
            if raw <= 0x8000_0000u32 {
                raw
            } else {
                (0xFFFF_FFFFu32 - raw) + 1
            }
        }
    }

    /// The next major id, wrapping at the end of the space.
    pub fn next(self) -> (r: MajorId)
        ensures
            r.0 == wrapping_next(self.0),
            fwd_distance(self.0, r.0) == 1,
    {
        if self.0 == 0xFFFF_FFFFu32 {
            MajorId(0)
        } else {
            MajorId(self.0 + 1)
        }
    }
}

/// Cyclic ordering is correct wherever the true distance between two ids is
/// below half the range: an id a positive forward distance of less than half
/// the range ahead of another compares `Greater`, one such distance behind
/// compares `Less`, and only equal ids compare `Equal`.
pub proof fn lemma_cyclic_ordering_correct(a: u32, b: u32)
    ensures
        (cyclic_ordering(a, b) == core::cmp::Ordering::Equal) <==> a == b,
        0 < fwd_distance(b, a) < 0x8000_0000 ==> cyclic_ordering(a, b)
            == core::cmp::Ordering::Greater,
        0 < fwd_distance(a, b) < 0x8000_0000 ==> cyclic_ordering(a, b)
            == core::cmp::Ordering::Less,
{
}

} // verus!
