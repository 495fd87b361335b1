use std::cmp::Ordering;

use reassembly::cyclic::MajorId;

#[test]
fn compare_near_wraparound() {
    let a = MajorId(0x5);
    let b = MajorId(0xFFFF_FFFF);
    assert_eq!(a.partial_cmp(&b), Some(Ordering::Greater));
    assert_eq!(b.partial_cmp(&a), Some(Ordering::Less));
    assert_eq!(MajorId(0).partial_cmp(&MajorId(0xFFFF_FFFF)), Some(Ordering::Greater));
    assert_eq!(MajorId(0xFFFF_FFFF).partial_cmp(&MajorId(0)), Some(Ordering::Less));
}

#[test]
fn compare_equal_ids() {
    assert_eq!(MajorId(0).partial_cmp(&MajorId(0)), Some(Ordering::Equal));
    assert_eq!(MajorId(0xFFFF_FFFF).partial_cmp(&MajorId(0xFFFF_FFFF)), Some(Ordering::Equal));
    assert_eq!(MajorId(0x8000_0000).partial_cmp(&MajorId(0x8000_0000)), Some(Ordering::Equal));
}

#[test]
fn compare_near_half_range() {
    // One step under half the range is still an unambiguous lead.
    assert_eq!(MajorId(0x7FFF_FFFF).partial_cmp(&MajorId(0)), Some(Ordering::Greater));
    assert_eq!(MajorId(0).partial_cmp(&MajorId(0x7FFF_FFFF)), Some(Ordering::Less));
    // At exactly half the range the two ids are indistinguishable from their
    // wrapped counterparts: by convention each reads as behind the other.
    assert_eq!(MajorId(0x8000_0000).partial_cmp(&MajorId(0)), Some(Ordering::Less));
    assert_eq!(MajorId(0).partial_cmp(&MajorId(0x8000_0000)), Some(Ordering::Less));
    // One step past half the range flips the reading.
    assert_eq!(MajorId(0x8000_0001).partial_cmp(&MajorId(0)), Some(Ordering::Less));
    assert_eq!(MajorId(0).partial_cmp(&MajorId(0x8000_0001)), Some(Ordering::Greater));
}

#[test]
fn abs_modulo_difference_basics() {
    assert_eq!(MajorId(3).abs_modulo_difference(MajorId(3)), 0);
    assert_eq!(MajorId(10).abs_modulo_difference(MajorId(4)), 6);
    assert_eq!(MajorId(4).abs_modulo_difference(MajorId(10)), 6);
}

#[test]
fn abs_modulo_difference_wraparound() {
    assert_eq!(MajorId(0).abs_modulo_difference(MajorId(0xFFFF_FFFF)), 1);
    assert_eq!(MajorId(0xFFFF_FFFF).abs_modulo_difference(MajorId(0)), 1);
    assert_eq!(MajorId(0x10).abs_modulo_difference(MajorId(0xFFFF_FFF0)), 0x20);
    assert_eq!(MajorId(0x8000_0000).abs_modulo_difference(MajorId(0)), 0x8000_0000);
    assert_eq!(MajorId(0).abs_modulo_difference(MajorId(0x8000_0001)), 0x7FFF_FFFF);
}

#[test]
fn next_wraps() {
    assert_eq!(MajorId(7).next(), MajorId(8));
    assert_eq!(MajorId(0xFFFF_FFFE).next(), MajorId(0xFFFF_FFFF));
    assert_eq!(MajorId(0xFFFF_FFFF).next(), MajorId(0));
}
