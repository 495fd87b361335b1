//! Per-group tracking of the minor ids that have not yet been received.
//!
//! A [`MissingSet`] over a declared group size `n` starts as the full range
//! `0..n-1` and shrinks as minors arrive. It is stored as a sorted list of
//! disjoint, non-adjacent inclusive ranges, so its length is bounded by the
//! number of gaps rather than by the number of removals. The group is complete
//! exactly when the set is empty.

use vstd::prelude::*;

verus! {

/// The set of minor ids of one group that have not yet been received.
pub struct MissingSet {
    size: u16,
    ranges: Vec<(u8, u8)>,
}

impl MissingSet {
    /// The declared size of the group: minors live in `[0, size)`.
    pub closed spec fn size(&self) -> int {
        self.size as int
    }

    /// Representation invariant: ranges are well-formed, inside `[0, size)`,
    /// sorted ascending, disjoint and never adjacent.
    pub closed spec fn inv(&self) -> bool {
        &&& 1 <= self.size <= 256
        &&& forall|i: int|
            0 <= i < self.ranges@.len() ==> (#[trigger] self.ranges@[i]).0 <= self.ranges@[i].1
                && self.ranges@[i].1 < self.size
        &&& forall|i: int, j: int|
            0 <= i < j < self.ranges@.len() ==> (#[trigger] self.ranges@[i]).1 + 1 < (
            #[trigger] self.ranges@[j]).0
    }

    /// Whether minor `m` is still missing.
    pub closed spec fn missing(&self, m: int) -> bool {
        exists|i: int|
            0 <= i < self.ranges@.len() && (#[trigger] self.ranges@[i]).0 <= m <= self.ranges@[i].1
    }

    /// The missing minors as a set.
    pub open spec fn to_set(&self) -> Set<int> {
        Set::new(|m: int| self.missing(m))
    }

    /// A fresh set for a group of `n` members: every minor of `0..n-1` is missing.
    pub fn new(n: u16) -> (s: MissingSet)
        requires
            1 <= n <= 256,
        ensures
            s.inv(),
            s.size() == n,
            forall|m: int| s.missing(m) <==> 0 <= m < n,
    {
        let mut ranges: Vec<(u8, u8)> = Vec::new();
        ranges.push((0u8, (n - 1) as u8));
        let s = MissingSet { size: n, ranges };
        proof {
            assert forall|m: int| 0 <= m < n implies s.missing(m) by {
                assert(s.ranges@[0].0 <= m <= s.ranges@[0].1);
            }
        }
        s
    }

    /// Index of the first range whose upper bound is at least `m`, found by
    /// binary search over the sorted range list.
    fn locate(&self, m: u8) -> (i: usize)
        requires
            self.inv(),
        ensures
            i <= self.ranges@.len(),
            forall|j: int| 0 <= j < i ==> (#[trigger] self.ranges@[j]).1 < m,
            i < self.ranges@.len() ==> self.ranges@[i as int].1 >= m,
    {
        let mut lo: usize = 0;
        let mut hi: usize = self.ranges.len();
        while lo < hi
            invariant
                self.inv(),
                lo <= hi <= self.ranges@.len(),
                forall|j: int| 0 <= j < lo ==> (#[trigger] self.ranges@[j]).1 < m,
                forall|j: int| hi <= j < self.ranges@.len() ==> (#[trigger] self.ranges@[j]).1 >= m,
            decreases hi - lo,
        {
            let mid = lo + (hi - lo) / 2;
            if self.ranges[mid].1 < m {
                proof {
                    assert forall|j: int| 0 <= j < mid + 1 implies (#[trigger] self.ranges@[j]).1
                        < m by {
                        if j < mid {
                            assert(self.ranges@[j].1 + 1 < self.ranges@[mid as int].0);
                        }
                    }
                }
                lo = mid + 1;
            } else {
                proof {
                    assert forall|j: int|
                        mid <= j < self.ranges@.len() implies (#[trigger] self.ranges@[j]).1
                        >= m by {
                        if j > mid {
                            assert(self.ranges@[mid as int].1 + 1 < self.ranges@[j].0);
                        }
                    }
                }
                hi = mid;
            }
        }
        lo
    }

    /// Whether minor `m` is still missing, by the same binary search.
    pub fn contains(&self, m: u8) -> (r: bool)
        requires
            self.inv(),
        ensures
            r == self.missing(m as int),
    {
        let i = self.locate(m);
        if i < self.ranges.len() {
            let r = self.ranges[i];
            if r.0 <= m {
                assert(self.missing(m as int));
                true
            } else {
                assert(forall|j: int|
                    i < j < self.ranges@.len() ==> (#[trigger] self.ranges@[j]).0 > m);
                false
            }
        } else {
            false
        }
    }

    /// Whether the group is complete: no minor is missing.
    pub fn is_empty(&self) -> (r: bool)
        requires
            self.inv(),
        ensures
            r <==> (forall|m: int| !self.missing(m)),
    {
        if self.ranges.len() == 0 {
            true
        } else {
            proof {
                let r0 = self.ranges@[0];
                assert(self.missing(r0.0 as int));
            }
            false
        }
    }

    /// Remove minor `m` from the set, reporting whether it was present; a
    /// second removal of the same minor returns `false` (a duplicate inside
    /// the group). The containing range is found by binary search and split
    /// into zero, one or two sub-ranges.
    pub fn remove(&mut self, m: u8) -> (was_missing: bool)
        requires
            old(self).inv(),
            m < old(self).size(),
        ensures
            final(self).inv(),
            final(self).size() == old(self).size(),
            was_missing == old(self).missing(m as int),
            forall|k: int| final(self).missing(k) <==> (old(self).missing(k) && k != m),
    {
        let i = self.locate(m);
        if i == self.ranges.len() {
            assert(!self.missing(m as int));
            return false;
        }
        let r = self.ranges[i];
        if r.0 > m {
            assert(forall|j: int| i < j < self.ranges@.len() ==> (#[trigger] self.ranges@[j]).0 > m);
            assert(!self.missing(m as int));
            return false;
        }
        // r.0 <= m <= r.1: the range at i contains m.
        assert(old(self).missing(m as int));
        let ghost old_rs = self.ranges@;
        let ghost ii = i as int;
        let ghost mm = m as int;
        if r.0 == m && r.1 == m {
            self.ranges.remove(i);
            proof {
                let new_rs = self.ranges@;
                assert forall|k: int| self.missing(k) implies old(self).missing(k) && k != mm by {
                    let j = choose|j: int|
                        0 <= j < new_rs.len() && (#[trigger] new_rs[j]).0 <= k <= new_rs[j].1;
                    if j < ii {
                        assert(old_rs[j] == new_rs[j]);
                    } else {
                        assert(old_rs[j + 1] == new_rs[j]);
                    }
                }
                assert forall|k: int| old(self).missing(k) && k != mm implies self.missing(k) by {
                    let j = choose|j: int|
                        0 <= j < old_rs.len() && (#[trigger] old_rs[j]).0 <= k <= old_rs[j].1;
                    if j < ii {
                        assert(new_rs[j] == old_rs[j]);
                    } else if j == ii {
                        assert(k == mm);
                    } else {
                        assert(new_rs[j - 1] == old_rs[j]);
                    }
                }
            }
        } else if r.0 == m {
            self.ranges[i] = ((m + 1) as u8, r.1);
            proof {
                let new_rs = self.ranges@;
                assert forall|k: int| self.missing(k) implies old(self).missing(k) && k != mm by {
                    let j = choose|j: int|
                        0 <= j < new_rs.len() && (#[trigger] new_rs[j]).0 <= k <= new_rs[j].1;
                    if j != ii {
                        assert(old_rs[j] == new_rs[j]);
                    } else {
                        assert(old_rs[ii].0 <= k <= old_rs[ii].1);
                    }
                }
                assert forall|k: int| old(self).missing(k) && k != mm implies self.missing(k) by {
                    let j = choose|j: int|
                        0 <= j < old_rs.len() && (#[trigger] old_rs[j]).0 <= k <= old_rs[j].1;
                    if j != ii {
                        assert(new_rs[j] == old_rs[j]);
                    } else {
                        assert(new_rs[ii].0 <= k <= new_rs[ii].1);
                    }
                }
            }
        } else if r.1 == m {
            self.ranges[i] = (r.0, (m - 1) as u8);
            proof {
                let new_rs = self.ranges@;
                assert forall|k: int| self.missing(k) implies old(self).missing(k) && k != mm by {
                    let j = choose|j: int|
                        0 <= j < new_rs.len() && (#[trigger] new_rs[j]).0 <= k <= new_rs[j].1;
                    if j != ii {
                        assert(old_rs[j] == new_rs[j]);
                    } else {
                        assert(old_rs[ii].0 <= k <= old_rs[ii].1);
                    }
                }
                assert forall|k: int| old(self).missing(k) && k != mm implies self.missing(k) by {
                    let j = choose|j: int|
                        0 <= j < old_rs.len() && (#[trigger] old_rs[j]).0 <= k <= old_rs[j].1;
                    if j != ii {
                        assert(new_rs[j] == old_rs[j]);
                    } else {
                        assert(new_rs[ii].0 <= k <= new_rs[ii].1);
                    }
                }
            }
        } else {
            self.ranges[i] = (r.0, (m - 1) as u8);
            self.ranges.insert(i + 1, ((m + 1) as u8, r.1));
            proof {
                let new_rs = self.ranges@;
                assert(forall|j: int|
                    0 <= j < old_rs.len() && j != ii ==> #[trigger] old_rs[j] == (if j < ii {
                        new_rs[j]
                    } else {
                        new_rs[j + 1]
                    }));
                assert forall|k: int| self.missing(k) implies old(self).missing(k) && k != mm by {
                    let j = choose|j: int|
                        0 <= j < new_rs.len() && (#[trigger] new_rs[j]).0 <= k <= new_rs[j].1;
                    if j < ii {
                        assert(old_rs[j] == new_rs[j]);
                    } else if j == ii || j == ii + 1 {
                        assert(old_rs[ii].0 <= k <= old_rs[ii].1);
                    } else {
                        assert(old_rs[j - 1] == new_rs[j]);
                    }
                }
                assert forall|k: int| old(self).missing(k) && k != mm implies self.missing(k) by {
                    let j = choose|j: int|
                        0 <= j < old_rs.len() && (#[trigger] old_rs[j]).0 <= k <= old_rs[j].1;
                    if j < ii {
                        assert(new_rs[j] == old_rs[j]);
                    } else if j == ii {
                        if k < mm {
                            assert(new_rs[ii].0 <= k <= new_rs[ii].1);
                        } else {
                            assert(new_rs[ii + 1].0 <= k <= new_rs[ii + 1].1);
                        }
                    } else {
                        assert(new_rs[j + 1] == old_rs[j]);
                    }
                }
            }
        }
        true
    }
}

/// Draining law: after removing a sequence of distinct minors of `0..size-1`
/// from a fresh set (each `remove` call reports its minor as missing and takes
/// exactly that minor out, so the hypothesis below is the state those calls
/// leave), the set stays non-empty until every one of the `size` minors has
/// been removed, and is empty exactly then.
pub proof fn lemma_missing_set_drain(s: &MissingSet, removed: Seq<int>)
    requires
        s.inv(),
        removed.no_duplicates(),
        forall|i: int| 0 <= i < removed.len() ==> 0 <= #[trigger] removed[i] < s.size(),
        forall|m: int| s.missing(m) <==> (0 <= m < s.size() && !removed.contains(m)),
    ensures
        (forall|m: int| !s.missing(m)) <==> removed.len() == s.size(),
{
    broadcast use vstd::seq_lib::seq_to_set_is_finite;

    let n = s.size();
    let range = vstd::set_lib::set_int_range(0, n);
    vstd::set_lib::lemma_int_range(0, n);
    removed.unique_seq_to_set();
    assert(removed.to_set().subset_of(range));
    vstd::set_lib::lemma_len_subset(removed.to_set(), range);
    if removed.len() == n {
        vstd::set_lib::lemma_subset_equality(removed.to_set(), range);
        assert forall|m: int| !s.missing(m) by {
            if 0 <= m < n {
                assert(range.contains(m));
                assert(removed.to_set().contains(m));
            }
        }
    }
    if forall|m: int| !s.missing(m) {
        assert forall|m: int| range.contains(m) implies removed.to_set().contains(m) by {
            assert(!s.missing(m));
        }
        vstd::set_lib::lemma_len_subset(range, removed.to_set());
    }
}

} // verus!
