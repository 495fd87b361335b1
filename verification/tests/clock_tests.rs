use std::cmp::Ordering;

use reassembly::clock_times::{ClockTime, Trivial};

#[test]
fn trivial_clock_is_one_point() {
    let a = Trivial::first();
    let b = a.next();
    let c = Trivial::last();
    assert_eq!(a, b);
    assert_eq!(b, c);
    assert_eq!(a.partial_cmp(&c), Some(Ordering::Equal));
}
