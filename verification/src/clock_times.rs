//! Logical clock stamps.
//!
//! A [`ClockTime`] is a copyable, ordered stamp with a first value, a
//! successor step, and a last value. [`Trivial`] is the one-point clock,
//! for channels that need no stamp at all.

use vstd::prelude::*;

verus! {

/// A logical clock stamp: ordered, copyable, with a first value, a successor
/// step, and a last value.
pub trait ClockTime: Sized + PartialOrd + Copy {
    /// The initial stamp.
    fn first() -> Self;

    /// The stamp after this one.
    fn next(&self) -> Self;

    /// The final stamp.
    fn last() -> Self;
}

/// The one-point clock: every stamp compares equal to every other.
#[derive(PartialEq, Eq, Copy, Clone, Debug, Structural)]
pub struct Trivial;

impl PartialOrd for Trivial {
    fn partial_cmp(&self, _other: &Trivial) -> Option<core::cmp::Ordering> {
        Some(core::cmp::Ordering::Equal)
    }
}

impl vstd::std_specs::cmp::PartialOrdSpecImpl for Trivial {
    open spec fn obeys_partial_cmp_spec() -> bool {
        true
    }

    open spec fn partial_cmp_spec(&self, _other: &Trivial) -> Option<core::cmp::Ordering> {
        Some(core::cmp::Ordering::Equal)
    }
}

impl ClockTime for Trivial {
    fn first() -> (r: Self)
        ensures
            r == (Trivial {  }),
    {
        Trivial {  }
    }

    fn next(&self) -> (r: Self)
        ensures
            r == (Trivial {  }),
    {
        Trivial {  }
    }

    fn last() -> (r: Self)
        ensures
            r == (Trivial {  }),
    {
        Trivial {  }
    }
}

} // verus!
