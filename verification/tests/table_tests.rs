use reassembly::channels::{GroupStatus, GroupTable, ReorderBuffer};

#[test]
fn observe_registers_and_completes_a_group() {
    let mut t = GroupTable::new();
    assert!(!t.contains(7));
    assert_eq!(t.observe(7, 0, 2), GroupStatus::NewGroup);
    assert!(t.contains(7));
    assert!(!t.is_complete(7));
    assert_eq!(t.observe(7, 1, 2), GroupStatus::KnownExpecting);
    assert!(t.is_complete(7));
    assert!(t.is_passable(7));
}

#[test]
fn observe_reports_duplicates_and_conflicts() {
    let mut t = GroupTable::new();
    assert_eq!(t.observe(5, 0, 3), GroupStatus::NewGroup);
    assert_eq!(t.observe(5, 0, 3), GroupStatus::KnownDuplicate);
    assert_eq!(t.observe(5, 1, 2), GroupStatus::SizeConflict);
    // The conflicted group is expired: passable, and terminal for members.
    assert!(t.is_passable(5));
    assert!(!t.is_complete(5));
    assert_eq!(t.observe(5, 1, 3), GroupStatus::KnownDuplicate);
    t.remove_major(5);
    assert!(!t.contains(5));
}

#[test]
fn buffer_pops_smallest_key_at_or_below_frontier() {
    let mut b: ReorderBuffer<&'static str> = ReorderBuffer::new();
    b.insert(2, 0, "d");
    b.insert(1, 1, "c");
    b.insert(1, 0, "b");
    b.insert(0, 0, "a");
    assert!(b.peek_ready(0));
    assert!(b.pop_ready(1).is_some_and(|pm| pm.vmaj == 0 && pm.minor == 0 && pm.payload == "a"));
    assert!(b.pop_ready(1).is_some_and(|pm| pm.vmaj == 1 && pm.minor == 0 && pm.payload == "b"));
    assert!(b.pop_ready(1).is_some_and(|pm| pm.vmaj == 1 && pm.minor == 1 && pm.payload == "c"));
    // The smallest remaining key is beyond the frontier: nothing is yielded.
    assert!(!b.peek_ready(1));
    assert!(b.pop_ready(1).is_none());
    assert!(b.pop_ready(2).is_some_and(|pm| pm.payload == "d"));
}
