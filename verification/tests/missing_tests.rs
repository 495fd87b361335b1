use reassembly::missing::MissingSet;

#[test]
fn fresh_set_holds_full_range() {
    let s = MissingSet::new(5);
    assert!(!s.is_empty());
    for m in 0u8..5 {
        assert!(s.contains(m));
    }
    assert!(!s.contains(5));
    assert!(!s.contains(200));
}

#[test]
fn drain_in_permuted_order() {
    // The set stays non-empty until the last removal, then turns empty.
    let mut s = MissingSet::new(5);
    let order = [3u8, 0, 4, 1, 2];
    for (k, &m) in order.iter().enumerate() {
        assert!(!s.is_empty());
        assert!(s.remove(m));
        assert_eq!(s.is_empty(), k == order.len() - 1);
    }
}

#[test]
fn second_removal_reports_duplicate() {
    let mut s = MissingSet::new(4);
    assert!(s.remove(2));
    assert!(!s.remove(2));
    assert!(s.remove(0));
    assert!(!s.remove(0));
    assert!(!s.is_empty());
}

#[test]
fn removal_splits_ranges() {
    let mut s = MissingSet::new(10);
    assert!(s.remove(5));
    assert!(s.contains(4));
    assert!(!s.contains(5));
    assert!(s.contains(6));
    assert!(s.remove(0));
    assert!(!s.contains(0));
    assert!(s.contains(1));
    assert!(s.remove(9));
    assert!(!s.contains(9));
    assert!(s.contains(8));
}

#[test]
fn single_member_group() {
    let mut s = MissingSet::new(1);
    assert!(!s.is_empty());
    assert!(s.contains(0));
    assert!(s.remove(0));
    assert!(s.is_empty());
    assert!(!s.remove(0));
}

#[test]
fn largest_group_drains() {
    let mut s = MissingSet::new(256);
    // Remove the evens, then the odds: every removal succeeds once.
    let mut m: u16 = 0;
    while m < 256 {
        assert!(s.remove(m as u8));
        m += 2;
    }
    assert!(!s.is_empty());
    m = 1;
    while m < 256 {
        assert!(!s.contains((m - 1) as u8));
        assert!(s.remove(m as u8));
        m += 2;
    }
    assert!(s.is_empty());
}
