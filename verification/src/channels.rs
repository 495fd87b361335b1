//! The reassembly channel: group bookkeeping, the reordering buffer, and the
//! send/receive state machine.
//!
//! Inbound majors are unwrapped, relative to the delivery frontier, onto an
//! unbounded virtual delivery line (a `u64` ordinal whose low 32 bits are the
//! wire major id). The window check keeps every unwrap unambiguous, and all
//! internal ordering decisions then take place on the virtual line, so the
//! cyclic algebra is confined to the acceptance boundary.

use vstd::arithmetic::div_mod::{
    lemma_fundamental_div_mod, lemma_mod_bound, lemma_mod_multiples_vanish, lemma_small_mod,
};
use vstd::prelude::*;

use crate::cyclic::{fwd_distance, MajorId};
use crate::missing::MissingSet;

verus! {

/// A minor id: the position of a message inside its group. Not cyclic.
#[derive(Clone, Copy, Debug, PartialEq, Eq, Structural, Hash)]
pub struct MinorId(pub u8);

/// Marker for payload types a channel can carry.
pub trait Message {

}

/// A framed message as it crosses the transport boundary, in either direction.
pub struct RawMessage<M> {
    /// The major id of the send operation this message belongs to.
    pub major: MajorId,
    /// The position of this message inside its group.
    pub minor: MinorId,
    /// The declared member count of the group, fixed at first sight.
    pub declared_size: u16,
    /// The payload itself.
    pub payload: M,
}

/// How `Channel::accept` classified an inbound message.
#[derive(Clone, Copy, Debug, PartialEq, Eq, Structural)]
pub enum AcceptOutcome {
    /// The message was new, in window, and is now buffered for delivery.
    Accepted,
    /// The message duplicates one already resolved; it was dropped.
    DuplicateDropped,
    /// The message lies outside the reordering window; it was dropped.
    StaleDropped,
    /// The message was malformed (zero or oversized group, minor out of
    /// range); it was dropped.
    DecodeError,
    /// The major id reappeared with a different declared size than first
    /// recorded; the group was expired as corrupt and the message dropped.
    SizeConflict,
}

/// How `GroupTable::observe` classified a message for its group.
#[derive(Clone, Copy, Debug, PartialEq, Eq, Structural)]
pub enum GroupStatus {
    /// First message of a previously unknown group: the group was registered.
    NewGroup,
    /// A minor the known group was still expecting: it was marked received.
    KnownExpecting,
    /// A minor the known group had already received, or a message for an
    /// expired group: nothing changed.
    KnownDuplicate,
    /// The declared size disagrees with the recorded one: the group was
    /// marked expired as corrupt.
    SizeConflict,
}

/// Notification that a group expired while incomplete: its remaining members
/// are permanently lost.
#[derive(Clone, Copy, Debug, PartialEq, Eq, Structural)]
pub struct ExpiredGroup {
    /// The wire major id of the lost group.
    pub major: MajorId,
}

/// One group's record: its position on the virtual delivery line, its declared
/// size, whether it was expired as corrupt, and which minors are still missing.
struct GroupEntry {
    vmaj: u64,
    size: u16,
    expired: bool,
    missing: MissingSet,
}

/// The map from major id (as a virtual ordinal) to a group's declared size
/// and missing set: the record of which groups are known and how far each is
/// from completion.
pub struct GroupTable {
    entries: Vec<GroupEntry>,
}

impl GroupTable {
    /// Representation invariant: entries are well-formed and majors distinct.
    pub closed spec fn inv(&self) -> bool {
        &&& forall|i: int|
            0 <= i < self.entries@.len() ==> {
                let e = #[trigger] self.entries@[i];
                &&& e.missing.inv()
                &&& e.missing.size() == e.size
                &&& 1 <= e.size <= 256
            }
        &&& forall|i: int, j: int|
            0 <= i < j < self.entries@.len() ==> (#[trigger] self.entries@[i]).vmaj != (
            #[trigger] self.entries@[j]).vmaj
    }

    /// How many groups are on record.
    pub closed spec fn num_groups(&self) -> int {
        self.entries@.len() as int
    }

    /// Whether a group with virtual major `v` is on record.
    pub closed spec fn contains_major(&self, v: u64) -> bool {
        exists|i: int| 0 <= i < self.entries@.len() && (#[trigger] self.entries@[i]).vmaj == v
    }

    /// Index of the recorded group `v`.
    spec fn idx_of(&self, v: u64) -> int {
        choose|i: int| 0 <= i < self.entries@.len() && (#[trigger] self.entries@[i]).vmaj == v
    }

    /// The declared size recorded for group `v`.
    pub closed spec fn size_of(&self, v: u64) -> int {
        self.entries@[self.idx_of(v)].size as int
    }

    /// Whether group `v` was expired as corrupt.
    pub closed spec fn expired_of(&self, v: u64) -> bool {
        self.entries@[self.idx_of(v)].expired
    }

    /// Whether minor `m` of group `v` is still missing.
    pub closed spec fn group_missing(&self, v: u64, m: int) -> bool {
        self.entries@[self.idx_of(v)].missing.missing(m)
    }

    /// Whether group `v` is complete: no minor is missing.
    pub open spec fn complete_of(&self, v: u64) -> bool {
        forall|m: int| !self.group_missing(v, m)
    }

    /// The unique index carrying `v`, pinned down.
    proof fn lemma_idx(&self, v: u64)
        requires
            self.inv(),
            self.contains_major(v),
        ensures
            0 <= self.idx_of(v) < self.entries@.len(),
            self.entries@[self.idx_of(v)].vmaj == v,
            forall|j: int|
                0 <= j < self.entries@.len() && (#[trigger] self.entries@[j]).vmaj == v ==> j
                    == self.idx_of(v),
    {
        let i = self.idx_of(v);
        assert(0 <= i < self.entries@.len() && self.entries@[i].vmaj == v);
    }

    /// An empty table: no group is known.
    pub fn new() -> (t: GroupTable)
        ensures
            t.inv(),
            forall|v: u64| !t.contains_major(v),
    {
        GroupTable { entries: Vec::new() }
    }

    /// Linear scan for the record of `v`.
    fn find(&self, v: u64) -> (r: Option<usize>)
        requires
            self.inv(),
        ensures
            match r {
                Some(i) => i < self.entries@.len() && self.entries@[i as int].vmaj == v,
                None => !self.contains_major(v),
            },
    {
        let mut i: usize = 0;
        while i < self.entries.len()
            invariant
                i <= self.entries@.len(),
                forall|j: int| 0 <= j < i ==> (#[trigger] self.entries@[j]).vmaj != v,
            decreases self.entries@.len() - i,
        {
            if self.entries[i].vmaj == v {
                return Some(i);
            }
            i = i + 1;
        }
        None
    }

    /// Whether a group with virtual major `v` is on record.
    pub fn contains(&self, v: u64) -> (r: bool)
        requires
            self.inv(),
        ensures
            r == self.contains_major(v),
    {
        self.find(v).is_some()
    }

    /// Whether group `v` is complete.
    pub fn is_complete(&self, v: u64) -> (r: bool)
        requires
            self.inv(),
            self.contains_major(v),
        ensures
            r == self.complete_of(v),
    {
        proof {
            self.lemma_idx(v);
        }
        match self.find(v) {
            Some(i) => {
                proof {
                    assert(i as int == self.idx_of(v));
                }
                let c = self.entries[i].missing.is_empty();
                proof {
                    if c {
                        assert forall|m: int| !self.group_missing(v, m) by {
                            assert(!self.entries@[i as int].missing.missing(m));
                        }
                    } else {
                        let m = choose|m: int| self.entries@[i as int].missing.missing(m);
                        assert(self.group_missing(v, m));
                    }
                }
                c
            },
            None => {
                proof {
                    assert(false);
                }
                false
            },
        }
    }

    /// Whether the frontier may pass group `v`: it is complete or expired.
    pub fn is_passable(&self, v: u64) -> (r: bool)
        requires
            self.inv(),
            self.contains_major(v),
        ensures
            r == (self.expired_of(v) || self.complete_of(v)),
    {
        proof {
            self.lemma_idx(v);
        }
        match self.find(v) {
            Some(i) => {
                proof {
                    assert(i as int == self.idx_of(v));
                }
                if self.entries[i].expired {
                    true
                } else {
                    let c = self.entries[i].missing.is_empty();
                    proof {
                        if c {
                            assert forall|m: int| !self.group_missing(v, m) by {
                                assert(!self.entries@[i as int].missing.missing(m));
                            }
                        } else {
                            let m = choose|m: int| self.entries@[i as int].missing.missing(m);
                            assert(self.group_missing(v, m));
                        }
                    }
                    c
                }
            },
            None => {
                proof {
                    assert(false);
                }
                false
            },
        }
    }

    /// Drop the record of group `v`, leaving every other group untouched.
    pub fn remove_major(&mut self, v: u64)
        requires
            old(self).inv(),
            old(self).contains_major(v),
        ensures
            final(self).inv(),
            final(self).num_groups() == old(self).num_groups() - 1,
            forall|w: u64| final(self).contains_major(w) == (old(self).contains_major(w) && w != v),
            forall|w: u64|
                w != v && old(self).contains_major(w) ==> #[trigger] final(self).same_group(
                    old(self),
                    w,
                ),
    {
        proof {
            old(self).lemma_idx(v);
        }
        let r = self.find(v);
        let i = match r {
            Some(i) => i,
            None => {
                proof {
                    assert(false);
                }
                0
            },
        };
        let ghost old_es = self.entries@;
        self.entries.remove(i);
        proof {
            let new_es = self.entries@;
            let ii = i as int;
            assert forall|w: u64|
                self.contains_major(w) == (old(self).contains_major(w) && w != v) by {
                if self.contains_major(w) {
                    let j = choose|j: int|
                        0 <= j < new_es.len() && (#[trigger] new_es[j]).vmaj == w;
                    if j < ii {
                        assert(old_es[j].vmaj == w);
                    } else {
                        assert(old_es[j + 1].vmaj == w);
                    }
                    assert(w != v) by {
                        old(self).lemma_idx(v);
                    }
                }
                if old(self).contains_major(w) && w != v {
                    let j = old(self).idx_of(w);
                    old(self).lemma_idx(w);
                    if j < ii {
                        assert(new_es[j].vmaj == w);
                    } else {
                        assert(new_es[j - 1].vmaj == w);
                    }
                }
            }
            assert forall|w: u64|
                w != v && old(self).contains_major(w) implies #[trigger] self.same_group(
                old(self),
                w,
            ) by {
                old(self).lemma_idx(w);
                let j = old(self).idx_of(w);
                if j < ii {
                    assert(new_es[j].vmaj == w);
                    self.lemma_idx(w);
                    assert(self.idx_of(w) == j);
                } else {
                    assert(new_es[j - 1].vmaj == w);
                    self.lemma_idx(w);
                    assert(self.idx_of(w) == j - 1);
                }
            }
        }
    }

    /// Some index of a record at or below `frontier`, if one exists.
    fn find_at_most(&self, frontier: u64) -> (r: Option<usize>)
        ensures
            match r {
                Some(i) => i < self.entries@.len() && self.entries@[i as int].vmaj <= frontier,
                None => forall|j: int|
                    0 <= j < self.entries@.len() ==> (#[trigger] self.entries@[j]).vmaj > frontier,
            },
    {
        let mut i: usize = 0;
        while i < self.entries.len()
            invariant
                i <= self.entries@.len(),
                forall|j: int| 0 <= j < i ==> (#[trigger] self.entries@[j]).vmaj > frontier,
            decreases self.entries@.len() - i,
        {
            if self.entries[i].vmaj <= frontier {
                return Some(i);
            }
            i = i + 1;
        }
        None
    }

    /// Drop every group record whose major is at or below `frontier`: those
    /// groups are resolved (or permanently lost) and will never change again.
    /// Records above the frontier are untouched.
    pub fn expire_below(&mut self, frontier: u64)
        requires
            old(self).inv(),
        ensures
            final(self).inv(),
            forall|w: u64|
                #[trigger] final(self).contains_major(w) == (old(self).contains_major(w) && w
                    > frontier),
            forall|w: u64|
                w > frontier && old(self).contains_major(w)
                    ==> #[trigger] final(self).same_group(old(self), w),
    {
        loop
            invariant
                self.inv(),
                forall|w: u64|
                    #[trigger] self.contains_major(w) ==> (old(self).contains_major(w)
                        && self.same_group(old(self), w)),
                forall|w: u64|
                    old(self).contains_major(w) && w > frontier ==> #[trigger] self.contains_major(
                        w,
                    ),
            decreases self.entries@.len(),
        {
            let found = self.find_at_most(frontier);
            match found {
                Some(i) => {
                    let v = self.entries[i].vmaj;
                    proof {
                        assert(self.contains_major(v));
                    }
                    let ghost pre = *self;
                    self.remove_major(v);
                    proof {
                        assert forall|w: u64| #[trigger] self.contains_major(w) implies (old(
                            self,
                        ).contains_major(w) && self.same_group(old(self), w)) by {
                            assert(pre.contains_major(w));
                            assert(self.same_group(&pre, w));
                            assert(pre.same_group(old(self), w));
                        }
                    }
                },
                None => {
                    proof {
                        assert forall|w: u64|
                            #[trigger] self.contains_major(w) implies w > frontier by {
                            self.lemma_idx(w);
                        }
                    }
                    return ;
                },
            }
        }
    }

    /// Group `w` reads the same in both tables: same presence, size, expiry
    /// and missing minors.
    pub open spec fn same_group(&self, other: &GroupTable, w: u64) -> bool {
        &&& self.contains_major(w) == other.contains_major(w)
        &&& self.contains_major(w) ==> {
            &&& self.size_of(w) == other.size_of(w)
            &&& self.expired_of(w) == other.expired_of(w)
            &&& forall|m: int| self.group_missing(w, m) == other.group_missing(w, m)
        }
    }

    /// Record an inbound message for group `v`: register the group on first
    /// sight (and mark `minor` received at once), mark an expected minor
    /// received, report a duplicate, or expire the group on a declared-size
    /// conflict.
    pub fn observe(&mut self, v: u64, minor: u8, declared: u16) -> (r: GroupStatus)
        requires
            old(self).inv(),
            1 <= declared <= 256,
            (minor as int) < declared,
        ensures
            final(self).inv(),
            forall|w: u64|
                w != v ==> #[trigger] final(self).same_group(old(self), w),
            !old(self).contains_major(v) ==> {
                &&& r == GroupStatus::NewGroup
                &&& final(self).contains_major(v)
                &&& final(self).size_of(v) == declared
                &&& !final(self).expired_of(v)
                &&& forall|m: int|
                    final(self).group_missing(v, m) <==> (0 <= m < declared && m != minor)
            },
            old(self).contains_major(v) && old(self).expired_of(v) ==> {
                &&& r == GroupStatus::KnownDuplicate
                &&& *final(self) == *old(self)
            },
            old(self).contains_major(v) && !old(self).expired_of(v) && old(self).size_of(v)
                != declared ==> {
                &&& r == GroupStatus::SizeConflict
                &&& final(self).contains_major(v)
                &&& final(self).size_of(v) == old(self).size_of(v)
                &&& final(self).expired_of(v)
                &&& forall|m: int| final(self).group_missing(v, m) == old(self).group_missing(v, m)
            },
            old(self).contains_major(v) && !old(self).expired_of(v) && old(self).size_of(v)
                == declared ==> {
                &&& r == (if old(self).group_missing(v, minor as int) {
                    GroupStatus::KnownExpecting
                } else {
                    GroupStatus::KnownDuplicate
                })
                &&& final(self).contains_major(v)
                &&& final(self).size_of(v) == old(self).size_of(v)
                &&& !final(self).expired_of(v)
                &&& forall|m: int|
                    final(self).group_missing(v, m) <==> (old(self).group_missing(v, m) && m
                        != minor)
            },
            r == GroupStatus::KnownDuplicate ==> *final(self) == *old(self),
    {
        let r = self.find(v);
        match r {
            None => {
                let mut ms = MissingSet::new(declared);
                ms.remove(minor);
                let ghost old_es = self.entries@;
                self.entries.push(GroupEntry { vmaj: v, size: declared, expired: false, missing: ms });
                proof {
                    let n = old_es.len() as int;
                    assert(self.entries@[n].vmaj == v);
                    assert(self.contains_major(v));
                    self.lemma_idx(v);
                    assert(self.idx_of(v) == n);
                    assert forall|w: u64|
                        w != v implies #[trigger] self.same_group(old(self), w) by {
                        if old(self).contains_major(w) {
                            old(self).lemma_idx(w);
                            let j = old(self).idx_of(w);
                            assert(self.entries@[j].vmaj == w);
                            self.lemma_idx(w);
                            assert(self.idx_of(w) == j);
                        } else {
                            if self.contains_major(w) {
                                self.lemma_idx(w);
                                let j = self.idx_of(w);
                                assert(j == n);
                                assert(false);
                            }
                        }
                    }
                }
                GroupStatus::NewGroup
            },
            Some(i) => {
                proof {
                    self.lemma_idx(v);
                    assert(self.idx_of(v) == i as int);
                }
                if self.entries[i].expired {
                    GroupStatus::KnownDuplicate
                } else if self.entries[i].size != declared {
                    let mut e = self.entries.remove(i);
                    e.expired = true;
                    let ghost ee = e;
                    self.entries.insert(i, e);
                    proof {
                        assert(self.entries@ =~= old(self).entries@.update(i as int, ee));
                        self.update_preserves(old(self), i as int, v);
                    }
                    GroupStatus::SizeConflict
                } else {
                    let expecting = self.entries[i].missing.contains(minor);
                    if expecting {
                        let mut e = self.entries.remove(i);
                        e.missing.remove(minor);
                        let ghost ee = e;
                        self.entries.insert(i, e);
                        proof {
                            assert(self.entries@ =~= old(self).entries@.update(i as int, ee));
                            self.update_preserves(old(self), i as int, v);
                        }
                        GroupStatus::KnownExpecting
                    } else {
                        GroupStatus::KnownDuplicate
                    }
                }
            },
        }
    }

    /// After replacing the entry at `i` by one with the same major, every
    /// other group reads unchanged and `v` still sits at `i`.
    proof fn update_preserves(&self, old_t: &GroupTable, i: int, v: u64)
        requires
            old_t.inv(),
            0 <= i < old_t.entries@.len(),
            old_t.entries@[i].vmaj == v,
            self.entries@.len() == old_t.entries@.len(),
            self.entries@[i].vmaj == v,
            forall|j: int|
                0 <= j < self.entries@.len() && j != i ==> #[trigger] self.entries@[j]
                    == old_t.entries@[j],
            self.inv(),
        ensures
            self.contains_major(v),
            self.idx_of(v) == i,
            old_t.idx_of(v) == i,
            forall|w: u64| w != v ==> #[trigger] self.same_group(old_t, w),
    {
        assert(self.entries@[i].vmaj == v);
        assert(self.contains_major(v));
        self.lemma_idx(v);
        old_t.lemma_idx(v);
        assert forall|w: u64| w != v implies #[trigger] self.same_group(old_t, w) by {
            if self.contains_major(w) {
                self.lemma_idx(w);
                let j = self.idx_of(w);
                assert(j != i);
                assert(old_t.entries@[j].vmaj == w);
                old_t.lemma_idx(w);
                assert(old_t.idx_of(w) == j);
            }
            if old_t.contains_major(w) {
                old_t.lemma_idx(w);
                let j = old_t.idx_of(w);
                assert(j != i);
                assert(self.entries@[j].vmaj == w);
                self.lemma_idx(w);
                assert(self.idx_of(w) == j);
            }
        }
    }
}

/// A received-but-undelivered message, keyed by its place on the virtual
/// delivery line and its minor id.
pub struct PendingMessage<M> {
    /// The group's ordinal on the virtual delivery line; its low 32 bits are
    /// the wire major id.
    pub vmaj: u64,
    /// The position inside the group.
    pub minor: u8,
    /// The payload awaiting delivery.
    pub payload: M,
}

/// Strict lexicographic order on delivery keys.
pub open spec fn key_lt(a: (u64, u8), b: (u64, u8)) -> bool {
    a.0 < b.0 || (a.0 == b.0 && a.1 < b.1)
}

/// The priority structure of pending messages, ordered by (major, minor):
/// delivery always extracts the globally smallest pending key, regardless of
/// arrival order.
pub struct ReorderBuffer<M> {
    entries: Vec<PendingMessage<M>>,
}

impl<M> ReorderBuffer<M> {
    /// The pending messages in delivery order.
    pub closed spec fn view(&self) -> Seq<PendingMessage<M>> {
        self.entries@
    }

    /// Representation invariant: entries strictly sorted by (major, minor).
    pub open spec fn inv(&self) -> bool {
        forall|i: int, j: int|
            0 <= i < j < self.view().len() ==> key_lt(
                ((#[trigger] self.view()[i]).vmaj, self.view()[i].minor),
                ((#[trigger] self.view()[j]).vmaj, self.view()[j].minor),
            )
    }

    /// Whether some pending message carries key `(v, m)`.
    pub open spec fn has_key(&self, v: u64, m: u8) -> bool {
        exists|i: int|
            0 <= i < self.view().len() && (#[trigger] self.view()[i]).vmaj == v
                && self.view()[i].minor == m
    }

    /// An empty buffer.
    pub fn new() -> (b: ReorderBuffer<M>)
        ensures
            b.inv(),
            b.view().len() == 0,
    {
        ReorderBuffer { entries: Vec::new() }
    }

    /// The position at which a message keyed `(vmaj, minor)` belongs: every
    /// later entry has a strictly greater key.
    fn find_slot(&self, vmaj: u64, minor: u8) -> (idx: usize)
        requires
            self.inv(),
        ensures
            idx <= self.view().len(),
            forall|j: int|
                idx <= j < self.view().len() ==> key_lt(
                    (vmaj, minor),
                    ((#[trigger] self.view()[j]).vmaj, self.view()[j].minor),
                ),
            idx > 0 ==> !key_lt(
                (vmaj, minor),
                (self.view()[idx - 1].vmaj, self.view()[idx - 1].minor),
            ),
    {
        let mut idx = self.entries.len();
        while idx > 0
            invariant
                idx <= self.entries@.len(),
                self.inv(),
                forall|j: int|
                    idx <= j < self.entries@.len() ==> key_lt(
                        (vmaj, minor),
                        ((#[trigger] self.entries@[j]).vmaj, self.entries@[j].minor),
                    ),
            decreases idx,
        {
            let ev = self.entries[idx - 1].vmaj;
            let em = self.entries[idx - 1].minor;
            if vmaj < ev || (vmaj == ev && minor < em) {
                idx = idx - 1;
            } else {
                return idx;
            }
        }
        idx
    }

    /// File a message under `(vmaj, minor)`, keeping delivery order.
    pub fn insert(&mut self, vmaj: u64, minor: u8, payload: M)
        requires
            old(self).inv(),
            !old(self).has_key(vmaj, minor),
        ensures
            final(self).inv(),
            final(self).view().len() == old(self).view().len() + 1,
            exists|p: int|
                0 <= p <= old(self).view().len() && final(self).view() == old(self).view().insert(
                    p,
                    (PendingMessage { vmaj, minor, payload }),
                ),
            forall|a: u64, b: u8|
                #[trigger] final(self).has_key(a, b) <==> (old(self).has_key(a, b) || (a == vmaj
                    && b == minor)),
    {
        let idx = self.find_slot(vmaj, minor);
        proof {
            if idx > 0 {
                let prev = self.entries@[idx - 1];
                assert(!(key_lt((vmaj, minor), (prev.vmaj, prev.minor))));
                if prev.vmaj == vmaj && prev.minor == minor {
                    assert(self.has_key(vmaj, minor));
                }
                assert(key_lt((prev.vmaj, prev.minor), (vmaj, minor)));
            }
        }
        let ghost old_es = self.entries@;
        let ghost p = idx as int;
        self.entries.insert(idx, PendingMessage { vmaj, minor, payload });
        proof {
            let new_es = self.entries@;
            assert forall|i: int, j: int|
                0 <= i < j < new_es.len() implies key_lt(
                ((#[trigger] new_es[i]).vmaj, new_es[i].minor),
                ((#[trigger] new_es[j]).vmaj, new_es[j].minor),
            ) by {
                if i < p && j == p {
                    assert(new_es[i] == old_es[i]);
                    if i < p - 1 {
                        assert(key_lt(
                            ((old_es[i]).vmaj, old_es[i].minor),
                            ((old_es[p - 1]).vmaj, old_es[p - 1].minor),
                        ));
                    }
                } else if i == p && j > p {
                    assert(new_es[j] == old_es[j - 1]);
                } else if i < p && j > p {
                    assert(new_es[i] == old_es[i]);
                    assert(new_es[j] == old_es[j - 1]);
                    if i < p - 1 {
                        assert(key_lt(
                            ((old_es[i]).vmaj, old_es[i].minor),
                            ((old_es[p - 1]).vmaj, old_es[p - 1].minor),
                        ));
                    }
                } else if i < p && j < p {
                    assert(new_es[i] == old_es[i]);
                    assert(new_es[j] == old_es[j]);
                } else {
                    assert(new_es[i] == old_es[i - 1]);
                    assert(new_es[j] == old_es[j - 1]);
                }
            }
            assert forall|a: u64, b: u8|
                #[trigger] self.has_key(a, b) <==> (old(self).has_key(a, b) || (a == vmaj && b
                    == minor)) by {
                assert(new_es[p].vmaj == vmaj && new_es[p].minor == minor);
                if self.has_key(a, b) {
                    let i = choose|i: int|
                        0 <= i < new_es.len() && (#[trigger] new_es[i]).vmaj == a && new_es[i].minor
                            == b;
                    if i < p {
                        assert(old_es[i] == new_es[i]);
                    } else if i > p {
                        assert(old_es[i - 1] == new_es[i]);
                    }
                }
                if old(self).has_key(a, b) {
                    let i = choose|i: int|
                        0 <= i < old_es.len() && (#[trigger] old_es[i]).vmaj == a && old_es[i].minor
                            == b;
                    if i < p {
                        assert(new_es[i] == old_es[i]);
                    } else {
                        assert(new_es[i + 1] == old_es[i]);
                    }
                }
            }
        }
    }

    /// Whether the smallest pending key is at or below `frontier` and so may
    /// be delivered.
    pub fn peek_ready(&self, frontier: u64) -> (r: bool)
        requires
            self.inv(),
        ensures
            r <==> (self.view().len() > 0 && self.view()[0].vmaj <= frontier),
    {
        if self.entries.len() > 0 {
            self.entries[0].vmaj <= frontier
        } else {
            false
        }
    }

    /// Pop the smallest pending message if its major is at or below
    /// `frontier`; otherwise leave the buffer untouched and yield nothing.
    pub fn pop_ready(&mut self, frontier: u64) -> (r: Option<PendingMessage<M>>)
        requires
            old(self).inv(),
        ensures
            final(self).inv(),
            old(self).view().len() > 0 && old(self).view()[0].vmaj <= frontier ==> (r matches Some(
                pm,
            ) && pm == old(self).view()[0] && final(self).view() == old(self).view().drop_first()),
            !(old(self).view().len() > 0 && old(self).view()[0].vmaj <= frontier) ==> (r is None
                && *final(self) == *old(self)),
    {
        if self.entries.len() > 0 {
            if self.entries[0].vmaj <= frontier {
                let pm = self.entries.remove(0);
                proof {
                    assert(self.entries@ =~= old(self).entries@.drop_first());
                }
                Some(pm)
            } else {
                None
            }
        } else {
            None
        }
    }
}

/// Default reordering window: the largest tolerated cyclic distance between
/// the frontier and an incoming major id.
pub const DEFAULT_WINDOW: u32 = 15;

/// Frontier position of a fresh channel: one step before wire major 0.
const INIT_FRONTIER: u64 = 0xFFFF_FFFF;

/// Saturation guard on the virtual delivery line; a channel whose frontier
/// ever reached this ordinal (after billions of billions of sends) stops
/// accepting rather than risk arithmetic overflow.
const SAT_LIMIT: u64 = 0xFFFF_FFFF_0000_0000;

/// The wire major id carried by virtual ordinal `v`: its low 32 bits.
pub open spec fn wire32(v: u64) -> u32 {
    (v as int % 0x1_0000_0000) as u32
}

/// Splitting a modulus around an addition: `(x + d) % m` is `x % m + d`,
/// wrapped once if that leaves the range.
proof fn lemma_mod_shift(x: int, d: int)
    requires
        x >= 0,
        0 <= d < 0x1_0000_0000,
    ensures
        (x + d) % 0x1_0000_0000 == if x % 0x1_0000_0000 + d < 0x1_0000_0000 {
            x % 0x1_0000_0000 + d
        } else {
            x % 0x1_0000_0000 + d - 0x1_0000_0000
        },
{
    let m = 0x1_0000_0000int;
    lemma_fundamental_div_mod(x, m);
    lemma_mod_bound(x, m);
    let q = x / m;
    let r = x % m;
    if r + d < m {
        lemma_mod_multiples_vanish(q, r + d, m);
        lemma_small_mod((r + d) as nat, m as nat);
    } else {
        lemma_mod_multiples_vanish(q + 1, r + d - m, m);
        lemma_small_mod((r + d - m) as nat, m as nat);
    }
}

/// Stepping forward on the virtual line by less than half the range moves the
/// wire major forward by exactly that distance.
proof fn lemma_wire_fwd(f: u64, v: u64)
    requires
        f <= v,
        v - f < 0x8000_0000,
    ensures
        fwd_distance(wire32(f), wire32(v)) == v - f,
{
    lemma_mod_bound(f as int, 0x1_0000_0000);
    lemma_mod_bound(v as int, 0x1_0000_0000);
    lemma_mod_shift(f as int, v - f);
}

/// A virtual ordinal at or behind the frontier by less than half the range
/// reads, on the wire, as equal or as wrapped far ahead: never inside `(0,
/// half)`.
proof fn lemma_wire_back(f: u64, v: u64)
    requires
        v < f,
        f - v < 0x8000_0000,
    ensures
        fwd_distance(wire32(f), wire32(v)) == 0x1_0000_0000 - (f - v),
{
    lemma_mod_bound(f as int, 0x1_0000_0000);
    lemma_mod_bound(v as int, 0x1_0000_0000);
    lemma_mod_shift(v as int, f - v);
}

/// The wire major id of virtual ordinal `v`.
fn wire_major_of(v: u64) -> (r: MajorId)
    ensures
        r.0 == wire32(v),
{
    proof {
        lemma_mod_bound(v as int, 0x1_0000_0000);
    }
    MajorId((v % 0x1_0000_0000u64) as u32)
}

/// The forward cyclic distance from `from` to `to`, as a wide integer.
fn fwd_delta(from: u32, to: u32) -> (d: u64)
    ensures
        d as int == fwd_distance(from, to),
{
    if to >= from {
        (to - from) as u64
    } else {
        to as u64 + 0x1_0000_0000u64 - from as u64
    }
}

/// A message is well-formed when its declared group size is between 1 and 256
/// and its minor id lies inside the declared group.
pub open spec fn raw_wf<M>(raw: &RawMessage<M>) -> bool {
    &&& 1 <= raw.declared_size <= 256
    &&& (raw.minor.0 as int) < raw.declared_size
}

/// A single logical channel: assigns major ids to outbound sends, classifies
/// and buffers inbound messages, and releases them in (major, minor) order
/// once delivery can be guaranteed.
pub struct Channel<M> where M: Message {
    window: u32,
    next_send: u32,
    frontier_v: u64,
    newest_v: u64,
    groups: GroupTable,
    buffer: ReorderBuffer<M>,
    gaps: Vec<ExpiredGroup>,
    delivered: Ghost<Option<(u64, u8)>>,
}

impl<M> Channel<M> where M: Message {
    /// The configured reordering window.
    pub closed spec fn window(&self) -> int {
        self.window as int
    }

    /// The wire major id the next send operation will be assigned.
    pub closed spec fn next_major(&self) -> u32 {
        self.next_send
    }

    /// The delivery frontier, as an ordinal on the virtual delivery line:
    /// every group at or below it is resolved.
    pub closed spec fn frontier(&self) -> int {
        self.frontier_v as int
    }

    /// The newest observed ordinal on the virtual delivery line.
    pub closed spec fn newest(&self) -> int {
        self.newest_v as int
    }

    /// The pending (received but undelivered) messages, in delivery order.
    pub closed spec fn pending(&self) -> Seq<PendingMessage<M>> {
        self.buffer.view()
    }

    /// The gap events recorded and not yet drained.
    pub closed spec fn gap_log(&self) -> Seq<ExpiredGroup> {
        self.gaps@
    }

    /// The key of the most recently delivered message, if any.
    pub closed spec fn last_delivered(&self) -> Option<(u64, u8)> {
        self.delivered@
    }

    /// The group table.
    pub closed spec fn table(&self) -> GroupTable {
        self.groups
    }

    /// The frontier's wire major id.
    pub open spec fn wire_frontier(&self) -> u32 {
        wire32(self.frontier() as u64)
    }

    /// The channel refuses new input once the virtual line nears its end.
    pub open spec fn saturated(&self) -> bool {
        self.frontier() >= 0xFFFF_FFFF_0000_0000
    }

    /// The forward cyclic distance from the frontier's wire major to `major`.
    pub open spec fn rel_delta(&self, major: MajorId) -> int {
        fwd_distance(self.wire_frontier(), major.0)
    }

    /// `major` reads as at or before the frontier: a duplicate of something
    /// already resolved.
    pub open spec fn is_past(&self, major: MajorId) -> bool {
        self.rel_delta(major) == 0 || self.rel_delta(major) >= 0x8000_0000
    }

    /// `major` lies inside the receive window ahead of the frontier.
    pub open spec fn in_window(&self, major: MajorId) -> bool {
        1 <= self.rel_delta(major) <= self.window()
    }

    /// The ordinal `major` occupies on the virtual delivery line, relative to
    /// the current frontier.
    pub open spec fn vmaj_of(&self, major: MajorId) -> u64 {
        ((self.frontier() + self.rel_delta(major)) as u64)
    }

    /// The channel has already resolved this exact message: its major is at
    /// or before the frontier, or its group is recorded with this declared
    /// size and the minor is no longer missing (or the group expired). A
    /// well-formed in-window message that was `Accepted` leaves the channel
    /// in a state where this holds, and a message for which this holds is
    /// answered `DuplicateDropped` without any state change.
    pub open spec fn seen_msg(&self, major: MajorId, minor: MinorId, declared: u16) -> bool {
        ||| self.is_past(major)
        ||| {
            let v = self.vmaj_of(major);
            &&& self.in_window(major)
            &&& self.table().contains_major(v)
            &&& self.table().size_of(v) == declared
            &&& (self.table().expired_of(v) || !self.table().group_missing(v, minor.0 as int))
        }
    }

    /// The frontier has advanced as far as resolution allows: either it has
    /// caught up with the newest observed major, or the group right after it
    /// is genuinely unresolved (unknown, or known but incomplete and not
    /// expired) and the window is not yet saturated enough to force it out.
    pub open spec fn resolved(&self) -> bool {
        ||| self.frontier() == self.newest()
        ||| {
            let next = ((self.frontier() + 1) as u64);
            &&& self.newest() - self.frontier() < self.window()
            &&& (!self.table().contains_major(next) || (!self.table().expired_of(next)
                && !self.table().complete_of(next)))
        }
    }

    /// Channel invariant: the representation is well-formed and the frontier
    /// is advanced as far as resolution allows.
    pub open spec fn inv(&self) -> bool {
        self.wf() && self.resolved()
    }

    /// Representation well-formedness.
    pub closed spec fn wf(&self) -> bool {
        &&& 1 <= self.window < 0x8000_0000u32
        &&& INIT_FRONTIER <= self.frontier_v <= self.newest_v
        &&& self.newest_v <= self.frontier_v + self.window
        &&& self.groups.inv()
        &&& self.buffer.inv()
        &&& forall|v: u64|
            #[trigger] self.groups.contains_major(v) ==> self.frontier_v < v <= self.newest_v
        &&& forall|i: int|
            0 <= i < self.pending().len() ==> {
                let pm = #[trigger] self.pending()[i];
                &&& pm.vmaj <= self.newest_v
                &&& pm.vmaj > self.frontier_v ==> {
                    &&& self.groups.contains_major(pm.vmaj)
                    &&& (pm.minor as int) < self.groups.size_of(pm.vmaj)
                    &&& !self.groups.group_missing(pm.vmaj, pm.minor as int)
                }
            }
        &&& match self.delivered@ {
            Some(k) => k.0 <= self.frontier_v && forall|i: int|
                0 <= i < self.pending().len() ==> key_lt(
                    k,
                    ((#[trigger] self.pending()[i]).vmaj, self.pending()[i].minor),
                ),
            None => true,
        }
    }

    /// The two channels agree on everything observable: configuration, send
    /// counter, frontier, pending messages, gap log, delivery history, and
    /// the content of every group record.
    pub open spec fn state_eq(&self, o: &Channel<M>) -> bool {
        &&& self.window() == o.window()
        &&& self.next_major() == o.next_major()
        &&& self.frontier() == o.frontier()
        &&& self.newest() == o.newest()
        &&& self.pending() == o.pending()
        &&& self.gap_log() == o.gap_log()
        &&& self.last_delivered() == o.last_delivered()
        &&& forall|w: u64|
            (#[trigger] self.table().contains_major(w)) == o.table().contains_major(w)
        &&& forall|w: u64| (#[trigger] self.table().same_group(&o.table(), w))
    }

    /// A channel with the given reordering window, ready to send and receive.
    pub fn with_window(window: u32) -> (c: Channel<M>)
        requires
            1 <= window < 0x8000_0000u32,
        ensures
            c.inv(),
            c.window() == window,
            c.next_major() == 0,
            c.pending().len() == 0,
            c.gap_log().len() == 0,
            c.last_delivered() is None,
            forall|v: u64| !c.table().contains_major(v),
            c.frontier() == 0xFFFF_FFFF,
    {
        Channel {
            window,
            next_send: 0,
            frontier_v: INIT_FRONTIER,
            newest_v: INIT_FRONTIER,
            groups: GroupTable::new(),
            buffer: ReorderBuffer::new(),
            gaps: Vec::new(),
            delivered: Ghost(None),
        }
    }

    /// A channel with the default window.
    pub fn new() -> (c: Channel<M>)
        ensures
            c.inv(),
            c.window() == DEFAULT_WINDOW,
            c.next_major() == 0,
            c.pending().len() == 0,
            c.gap_log().len() == 0,
            c.last_delivered() is None,
            forall|v: u64| !c.table().contains_major(v),
            c.frontier() == 0xFFFF_FFFF,
    {
        Self::with_window(DEFAULT_WINDOW)
    }

    /// The invariant does not depend on the send counter or the gap log: a
    /// channel agreeing with a valid one on every other field is valid.
    proof fn lemma_inv_same_recv_state(a: &Channel<M>, b: &Channel<M>)
        requires
            a.inv(),
            b.window == a.window,
            b.frontier_v == a.frontier_v,
            b.newest_v == a.newest_v,
            b.groups == a.groups,
            b.buffer == a.buffer,
            b.delivered == a.delivered,
        ensures
            b.inv(),
    {
        assert(b.pending() == a.pending());
        assert forall|i: int| 0 <= i < b.pending().len() implies {
            let pm = #[trigger] b.pending()[i];
            &&& pm.vmaj <= b.newest_v
            &&& pm.vmaj > b.frontier_v ==> {
                &&& b.groups.contains_major(pm.vmaj)
                &&& (pm.minor as int) < b.groups.size_of(pm.vmaj)
                &&& !b.groups.group_missing(pm.vmaj, pm.minor as int)
            }
        } by {
            let pm0 = a.pending()[i];
            assert(pm0 == b.pending()[i]);
            assert(pm0.vmaj <= a.newest_v);
        }
        match b.delivered@ {
            Some(k) => {
                assert forall|i: int| 0 <= i < b.pending().len() implies key_lt(
                    k,
                    ((#[trigger] b.pending()[i]).vmaj, b.pending()[i].minor),
                ) by {
                    let pm0 = a.pending()[i];
                    assert(pm0 == b.pending()[i]);
                    assert(key_lt(k, (pm0.vmaj, pm0.minor)));
                }
            },
            None => {},
        }
        assert(b.resolved()) by {
            assert(b.frontier() == a.frontier());
            assert(b.newest() == a.newest());
            assert(b.window() == a.window());
            assert(b.table() == a.table());
        }
    }

    /// Allocate the next major id, advancing the send counter by one step
    /// (wrapping).
    fn allocate_major(&mut self) -> (r: MajorId)
        requires
            old(self).inv(),
        ensures
            final(self).inv(),
            r.0 == old(self).next_send,
            final(self).next_send == crate::cyclic::wrapping_next(old(self).next_send),
            final(self).window == old(self).window,
            final(self).frontier_v == old(self).frontier_v,
            final(self).newest_v == old(self).newest_v,
            final(self).groups == old(self).groups,
            final(self).buffer == old(self).buffer,
            final(self).gaps == old(self).gaps,
            final(self).delivered == old(self).delivered,
    {
        let r = MajorId(self.next_send);
        self.next_send = if self.next_send == 0xFFFF_FFFFu32 {
            0
        } else {
            self.next_send + 1
        };
        proof {
            Self::lemma_inv_same_recv_state(old(self), self);
        }
        r
    }

    /// Send one message on its own: it is assigned the next major id, minor
    /// 0, declared size 1, and the framed message is handed back for the
    /// transport to carry.
    pub fn solo_send(&mut self, payload: M) -> (w: RawMessage<M>)
        requires
            old(self).inv(),
        ensures
            final(self).inv(),
            w.major == (MajorId(old(self).next_major())),
            w.minor == (MinorId(0)),
            w.declared_size == 1,
            w.payload == payload,
            final(self).next_major() == crate::cyclic::wrapping_next(old(self).next_major()),
            final(self).window() == old(self).window(),
            final(self).frontier() == old(self).frontier(),
            final(self).pending() == old(self).pending(),
            final(self).gap_log() == old(self).gap_log(),
            final(self).last_delivered() == old(self).last_delivered(),
            final(self).table() == old(self).table(),
    {
        let major = self.allocate_major();
        RawMessage { major, minor: MinorId(0), declared_size: 1, payload }
    }

    /// Send a whole group under one major id: member `i` is assigned minor
    /// `i`, every frame declares the group's full size, and the framed
    /// messages are handed back in sequence order for the transport to carry
    /// independently.
    pub fn group_send(&mut self, payloads: Vec<M>) -> (ws: Vec<RawMessage<M>>)
        requires
            old(self).inv(),
            1 <= payloads@.len() <= 256,
        ensures
            final(self).inv(),
            ws@.len() == payloads@.len(),
            forall|i: int|
                0 <= i < ws@.len() ==> {
                    let w = #[trigger] ws@[i];
                    &&& w.major == (MajorId(old(self).next_major()))
                    &&& w.minor.0 as int == i
                    &&& w.declared_size as int == payloads@.len()
                    &&& w.payload == payloads@[i]
                },
            final(self).next_major() == crate::cyclic::wrapping_next(old(self).next_major()),
            final(self).window() == old(self).window(),
            final(self).frontier() == old(self).frontier(),
            final(self).pending() == old(self).pending(),
            final(self).gap_log() == old(self).gap_log(),
            final(self).last_delivered() == old(self).last_delivered(),
            final(self).table() == old(self).table(),
    {
        let ghost orig = payloads@;
        let declared = payloads.len() as u16;
        let major = self.allocate_major();
        let mut rest = payloads;
        let mut ws: Vec<RawMessage<M>> = Vec::new();
        let mut i: usize = 0;
        while rest.len() > 0
            invariant
                i + rest@.len() == orig.len(),
                orig.len() <= 256,
                rest@ == orig.subrange(i as int, orig.len() as int),
                declared as int == orig.len(),
                ws@.len() == i,
                forall|j: int|
                    0 <= j < i ==> {
                        let w = #[trigger] ws@[j];
                        &&& w.major == major
                        &&& w.minor.0 as int == j
                        &&& w.declared_size == declared
                        &&& w.payload == orig[j]
                    },
            decreases rest@.len(),
        {
            let payload = rest.remove(0);
            proof {
                assert(rest@ =~= orig.subrange(i + 1, orig.len() as int));
            }
            ws.push(RawMessage { major, minor: MinorId(i as u8), declared_size: declared, payload });
            i = i + 1;
        }
        ws
    }

    /// Pull the next ready message, if any: the globally smallest pending
    /// (major, minor) whose group is at or below the delivery frontier.
    /// Non-blocking. Successive deliveries are strictly increasing in
    /// (major, minor) order.
    pub fn try_recv(&mut self) -> (r: Option<M>)
        requires
            old(self).inv(),
        ensures
            final(self).inv(),
            final(self).window() == old(self).window(),
            final(self).next_major() == old(self).next_major(),
            final(self).frontier() == old(self).frontier(),
            final(self).newest() == old(self).newest(),
            final(self).gap_log() == old(self).gap_log(),
            final(self).table() == old(self).table(),
            (old(self).pending().len() > 0 && old(self).pending()[0].vmaj as int <= old(
                self,
            ).frontier()) ==> {
                let pm = old(self).pending()[0];
                &&& r == Some(pm.payload)
                &&& final(self).pending() == old(self).pending().drop_first()
                &&& final(self).last_delivered() == Some((pm.vmaj, pm.minor))
                &&& (old(self).last_delivered() matches Some(k) ==> key_lt(k, (pm.vmaj, pm.minor)))
            },
            !(old(self).pending().len() > 0 && old(self).pending()[0].vmaj as int <= old(
                self,
            ).frontier()) ==> (r is None && *final(self) == *old(self)),
    {
        let popped = self.buffer.pop_ready(self.frontier_v);
        match popped {
            Some(pm) => {
                proof {
                    match old(self).delivered@ {
                        Some(k) => {
                            assert(key_lt(
                                k,
                                (old(self).pending()[0].vmaj, old(self).pending()[0].minor),
                            ));
                        },
                        None => {},
                    }
                }
                self.delivered = Ghost(Some((pm.vmaj, pm.minor)));
                proof {
                    assert forall|i: int| 0 <= i < self.pending().len() implies key_lt(
                        (pm.vmaj, pm.minor),
                        ((#[trigger] self.pending()[i]).vmaj, self.pending()[i].minor),
                    ) by {
                        assert(self.pending()[i] == old(self).pending()[i + 1]);
                    }
                    assert forall|i: int| 0 <= i < self.pending().len() implies {
                        let qm = #[trigger] self.pending()[i];
                        &&& qm.vmaj <= self.newest_v
                        &&& qm.vmaj > self.frontier_v ==> {
                            &&& self.groups.contains_major(qm.vmaj)
                            &&& (qm.minor as int) < self.groups.size_of(qm.vmaj)
                            &&& !self.groups.group_missing(qm.vmaj, qm.minor as int)
                        }
                    } by {
                        let qm0 = old(self).pending()[i + 1];
                        assert(qm0 == self.pending()[i]);
                        assert(qm0.vmaj <= old(self).newest_v);
                    }
                }
                Some(pm.payload)
            },
            None => None,
        }
    }

    /// Drain the gap notifications produced so far: each names a group that
    /// expired while incomplete, whose remaining members are permanently
    /// lost. The log is empty afterwards.
    pub fn gap_events(&mut self) -> (evs: Vec<ExpiredGroup>)
        requires
            old(self).inv(),
        ensures
            final(self).inv(),
            evs@ == old(self).gap_log(),
            final(self).gap_log().len() == 0,
            final(self).window() == old(self).window(),
            final(self).next_major() == old(self).next_major(),
            final(self).frontier() == old(self).frontier(),
            final(self).newest() == old(self).newest(),
            final(self).pending() == old(self).pending(),
            final(self).last_delivered() == old(self).last_delivered(),
            final(self).table() == old(self).table(),
    {
        let mut evs: Vec<ExpiredGroup> = Vec::new();
        core::mem::swap(&mut evs, &mut self.gaps);
        proof {
            Self::lemma_inv_same_recv_state(old(self), self);
        }
        evs
    }

    /// Every group named by the table agrees between the two tables.
    proof fn lemma_table_refl(t: &GroupTable)
        ensures
            forall|w: u64| #[trigger] t.same_group(t, w),
    {
        assert forall|w: u64| #[trigger] t.same_group(t, w) by {}
    }

    /// Accept one inbound message and classify it.
    ///
    /// A malformed frame is rejected as `DecodeError`; a major at or before
    /// the frontier, a minor its group already received, or a message for an
    /// expired group is `DuplicateDropped`; a major beyond the reordering
    /// window ahead is `StaleDropped`; a declared size disagreeing with the
    /// group's recorded one expires the group as corrupt (`SizeConflict`,
    /// with a gap event). Everything else is `Accepted`: the payload is
    /// buffered under its (major, minor) key and the frontier advances over
    /// every newly resolved group. Feeding the same message again yields
    /// `DuplicateDropped` and changes nothing.
    pub fn accept(&mut self, raw: RawMessage<M>) -> (r: AcceptOutcome)
        requires
            old(self).inv(),
        ensures
            final(self).inv(),
            old(self).frontier() <= final(self).frontier(),
            final(self).frontier() <= old(self).frontier() + old(self).window(),
            final(self).window() == old(self).window(),
            final(self).next_major() == old(self).next_major(),
            final(self).last_delivered() == old(self).last_delivered(),
            old(self).gap_log().is_prefix_of(final(self).gap_log()),
            r != AcceptOutcome::Accepted ==> final(self).pending() == old(self).pending(),
            !raw_wf(&raw) ==> (r == AcceptOutcome::DecodeError && final(self).state_eq(old(self))),
            raw_wf(&raw) && old(self).saturated() ==> (r == AcceptOutcome::StaleDropped
                && final(self).state_eq(old(self))),
            raw_wf(&raw) && !old(self).saturated() && old(self).is_past(raw.major) ==> (r
                == AcceptOutcome::DuplicateDropped && final(self).state_eq(old(self))),
            raw_wf(&raw) && !old(self).saturated() && !old(self).is_past(raw.major)
                && !old(self).in_window(raw.major) ==> (r == AcceptOutcome::StaleDropped
                && final(self).state_eq(old(self))),
            raw_wf(&raw) && !old(self).saturated()
                && old(self).seen_msg(raw.major, raw.minor, raw.declared_size) ==> (r
                == AcceptOutcome::DuplicateDropped && final(self).state_eq(old(self))),
            raw_wf(&raw) && !old(self).saturated() && old(self).in_window(raw.major) ==> {
                let v = old(self).vmaj_of(raw.major);
                &&& (old(self).table().contains_major(v) && old(self).table().expired_of(v) ==> (r
                    == AcceptOutcome::DuplicateDropped && final(self).state_eq(old(self))))
                &&& (old(self).table().contains_major(v) && !old(self).table().expired_of(v)
                    && old(self).table().size_of(v) != raw.declared_size ==> (r
                    == AcceptOutcome::SizeConflict
                    && final(self).gap_log().len() > old(self).gap_log().len()
                    && final(self).gap_log()[old(self).gap_log().len() as int] == (
                ExpiredGroup { major: raw.major })))
                &&& (old(self).table().contains_major(v) && !old(self).table().expired_of(v)
                    && old(self).table().size_of(v) == raw.declared_size
                    && !old(self).table().group_missing(v, raw.minor.0 as int) ==> (r
                    == AcceptOutcome::DuplicateDropped && final(self).state_eq(old(self))))
                &&& (!old(self).table().contains_major(v) || (old(self).table().contains_major(v)
                    && !old(self).table().expired_of(v) && old(self).table().size_of(v)
                    == raw.declared_size && old(self).table().group_missing(v, raw.minor.0 as int))
                    ==> (r == AcceptOutcome::Accepted && exists|p: int|
                    0 <= p <= old(self).pending().len()
                        && final(self).pending() == old(self).pending().insert(
                        p,
                        (PendingMessage { vmaj: v, minor: raw.minor.0, payload: raw.payload }),
                    )))
            },
            r == AcceptOutcome::Accepted ==> final(self).seen_msg(
                raw.major,
                raw.minor,
                raw.declared_size,
            ),
            r == AcceptOutcome::Accepted ==> final(self).newest() >= old(self).vmaj_of(
                raw.major,
            ) as int,
            r == AcceptOutcome::Accepted ==> {
                let v = old(self).vmaj_of(raw.major);
                ||| final(self).frontier() >= v as int
                ||| (final(self).table().contains_major(v) && final(self).table().size_of(v)
                    == raw.declared_size && !final(self).table().expired_of(v) && forall|m: int|
                    final(self).table().group_missing(v, m) <==> (if old(
                        self,
                    ).table().contains_major(v) {
                        old(self).table().group_missing(v, m) && m != raw.minor.0 as int
                    } else {
                        0 <= m < raw.declared_size && m != raw.minor.0 as int
                    }))
            },
    {
        if raw.declared_size == 0 || raw.declared_size > 256 || (raw.minor.0 as u16)
            >= raw.declared_size {
            proof {
                Self::lemma_table_refl(&self.groups);
            }
            return AcceptOutcome::DecodeError;
        }
        if self.frontier_v >= SAT_LIMIT {
            proof {
                Self::lemma_table_refl(&self.groups);
            }
            return AcceptOutcome::StaleDropped;
        }
        let wf_major = wire_major_of(self.frontier_v);
        let delta = fwd_delta(wf_major.0, raw.major.0);
        proof {
            assert(delta as int == old(self).rel_delta(raw.major));
        }
        if delta == 0 || delta >= 0x8000_0000u64 {
            proof {
                Self::lemma_table_refl(&self.groups);
            }
            return AcceptOutcome::DuplicateDropped;
        }
        if delta > self.window as u64 {
            proof {
                Self::lemma_table_refl(&self.groups);
            }
            return AcceptOutcome::StaleDropped;
        }
        let v = self.frontier_v + delta;
        proof {
            assert(v == old(self).vmaj_of(raw.major));
        }
        if v > self.newest_v {
            self.newest_v = v;
        }
        let minor = raw.minor.0;
        let declared = raw.declared_size;
        let status = self.groups.observe(v, minor, declared);
        match status {
            GroupStatus::KnownDuplicate => {
                proof {
                    assert(old(self).groups.contains_major(v));
                    assert(self.newest_v == old(self).newest_v);
                    Self::lemma_table_refl(&self.groups);
                    Self::lemma_inv_same_recv_state(old(self), self);
                }
                AcceptOutcome::DuplicateDropped
            },
            GroupStatus::SizeConflict => {
                self.gaps.push(ExpiredGroup { major: raw.major });
                proof {
                    self.lemma_inv_after_observe(old(self), v, minor);
                }
                let ghost pre_advance = *self;
                self.advance_frontier();
                proof {
                    let n = old(self).gaps@.len() as int;
                    assert(pre_advance.gaps@.is_prefix_of(self.gaps@));
                    assert(pre_advance.gaps@ =~= self.gaps@.subrange(0, pre_advance.gaps@.len() as int));
                    assert(self.gaps@[n] == pre_advance.gaps@[n]);
                    assert(pre_advance.gaps@[n] == (ExpiredGroup { major: raw.major }));
                }
                AcceptOutcome::SizeConflict
            },
            _ => {
                proof {
                    assert(!self.buffer.has_key(v, minor)) by {
                        if self.buffer.has_key(v, minor) {
                            let i = choose|i: int|
                                0 <= i < old(self).pending().len() && (#[trigger] old(
                                    self,
                                ).pending()[i]).vmaj == v && old(self).pending()[i].minor == minor;
                            assert(old(self).pending()[i].vmaj > old(self).frontier_v);
                            assert(old(self).groups.contains_major(v));
                            assert(!old(self).groups.group_missing(v, minor as int));
                        }
                    }
                }
                let ghost pre_insert = *self;
                self.buffer.insert(v, minor, raw.payload);
                proof {
                    let pm = PendingMessage { vmaj: v, minor, payload: raw.payload };
                    let p0 = choose|p: int|
                        0 <= p <= pre_insert.buffer.view().len() && self.buffer.view()
                            == pre_insert.buffer.view().insert(
                            p,
                            (PendingMessage { vmaj: v, minor: minor, payload: raw.payload }),
                        );
                    assert(0 <= p0 <= pre_insert.pending().len() && self.pending()
                        == pre_insert.pending().insert(p0, pm));
                    self.lemma_inv_after_accept(old(self), &pre_insert, v, minor, declared, pm);
                }
                let ghost pre_advance = *self;
                self.advance_frontier();
                proof {
                    let f0 = old(self).frontier_v;
                    let ff = self.frontier_v;
                    lemma_wire_fwd(f0, v);
                    assert(wire32(v) == raw.major.0);
                    if self.groups.contains_major(v) {
                        assert(ff < v <= self.newest_v);
                        lemma_wire_fwd(ff, v);
                        assert(self.rel_delta(raw.major) == v - ff);
                        assert(self.in_window(raw.major));
                        assert(self.vmaj_of(raw.major) == v);
                        assert(self.groups.same_group(&pre_advance.groups, v));
                    } else {
                        assert(v <= ff);
                        if v == ff {
                            assert(self.rel_delta(raw.major) == 0);
                        } else {
                            assert(ff - v < 0x8000_0000) by {
                                assert(ff <= self.newest_v);
                                assert(self.newest_v <= f0 + old(self).window);
                            }
                            lemma_wire_back(ff, v);
                            assert(self.rel_delta(raw.major) >= 0x8000_0000);
                        }
                        assert(self.is_past(raw.major));
                    }
                    assert(self.seen_msg(raw.major, raw.minor, raw.declared_size));
                    assert(exists|p: int|
                        0 <= p <= old(self).pending().len() && self.pending() == old(
                            self,
                        ).pending().insert(
                            p,
                            (PendingMessage { vmaj: v, minor: raw.minor.0, payload: raw.payload }),
                        )) by {
                        let p0 = choose|p: int|
                            0 <= p <= pre_insert.buffer.view().len() && pre_advance.buffer.view()
                                == pre_insert.buffer.view().insert(
                                p,
                                (PendingMessage { vmaj: v, minor: minor, payload: raw.payload }),
                            );
                        assert(0 <= p0 <= old(self).pending().len() && self.pending() == old(
                            self,
                        ).pending().insert(
                            p0,
                            (PendingMessage { vmaj: v, minor: raw.minor.0, payload: raw.payload }),
                        ));
                    }
                }
                AcceptOutcome::Accepted
            },
        }
    }

    /// After `observe` touched only group `v` and the buffer stayed as it
    /// was, the channel invariant holds again.
    proof fn lemma_inv_after_observe(&self, orig: &Channel<M>, v: u64, minor: u8)
        requires
            orig.wf(),
            self.window == orig.window,
            self.next_send == orig.next_send,
            self.frontier_v == orig.frontier_v,
            orig.newest_v <= self.newest_v <= orig.frontier_v + orig.window,
            orig.frontier_v < v <= self.newest_v,
            self.buffer == orig.buffer,
            self.delivered == orig.delivered,
            self.groups.inv(),
            forall|w: u64| w != v ==> #[trigger] self.groups.same_group(&orig.groups, w),
            self.groups.contains_major(v),
            self.groups.contains_major(v) ==> (!orig.groups.contains_major(v) || (
            self.groups.size_of(v) == orig.groups.size_of(v) && forall|m: int|
                orig.groups.group_missing(v, m) ==> m == minor as int || self.groups.group_missing(
                    v,
                    m,
                ) == orig.groups.group_missing(v, m))),
            forall|m: int|
                #[trigger] self.groups.group_missing(v, m) ==> orig.groups.contains_major(v)
                    && orig.groups.group_missing(v, m),
        ensures
            self.wf(),
    {
        assert forall|w: u64| #[trigger] self.groups.contains_major(w) implies self.frontier_v < w
            <= self.newest_v by {
            if w != v {
                assert(self.groups.same_group(&orig.groups, w));
                assert(orig.groups.contains_major(w));
            }
        }
        assert(self.pending() == orig.pending());
        assert forall|i: int| 0 <= i < self.pending().len() implies {
            let pm = #[trigger] self.pending()[i];
            &&& pm.vmaj <= self.newest_v
            &&& pm.vmaj > self.frontier_v ==> {
                &&& self.groups.contains_major(pm.vmaj)
                &&& (pm.minor as int) < self.groups.size_of(pm.vmaj)
                &&& !self.groups.group_missing(pm.vmaj, pm.minor as int)
            }
        } by {
            let pm0 = orig.pending()[i];
            assert(pm0 == self.pending()[i]);
            assert(pm0.vmaj <= orig.newest_v);
            if pm0.vmaj > self.frontier_v {
                assert(orig.groups.contains_major(pm0.vmaj));
                if pm0.vmaj != v {
                    assert(self.groups.same_group(&orig.groups, pm0.vmaj));
                }
            }
        }
        match self.delivered@ {
            Some(k) => {
                assert forall|i: int| 0 <= i < self.pending().len() implies key_lt(
                    k,
                    ((#[trigger] self.pending()[i]).vmaj, self.pending()[i].minor),
                ) by {
                    let pm0 = orig.pending()[i];
                    assert(pm0 == self.pending()[i]);
                    assert(key_lt(k, (pm0.vmaj, pm0.minor)));
                }
            },
            None => {},
        }
    }

    /// After an accepted message was filed: group `v` no longer misses
    /// `minor`, the buffer gained exactly that key, and the invariant holds.
    proof fn lemma_inv_after_accept(
        &self,
        orig: &Channel<M>,
        pre: &Channel<M>,
        v: u64,
        minor: u8,
        declared: u16,
        pm: PendingMessage<M>,
    )
        requires
            orig.wf(),
            1 <= declared <= 256,
            (minor as int) < declared,
            pre.window == orig.window,
            pre.next_send == orig.next_send,
            pre.frontier_v == orig.frontier_v,
            orig.newest_v <= pre.newest_v <= orig.frontier_v + orig.window,
            orig.frontier_v < v <= pre.newest_v,
            pre.buffer == orig.buffer,
            pre.delivered == orig.delivered,
            pre.groups.inv(),
            forall|w: u64| w != v ==> #[trigger] pre.groups.same_group(&orig.groups, w),
            pre.groups.contains_major(v),
            !pre.groups.expired_of(v),
            pre.groups.size_of(v) == declared,
            !pre.groups.group_missing(v, minor as int),
            orig.groups.contains_major(v) ==> (pre.groups.size_of(v) == orig.groups.size_of(v)
                && forall|m: int|
                #[trigger] pre.groups.group_missing(v, m) ==> orig.groups.group_missing(v, m)),
            self.window == pre.window,
            self.next_send == pre.next_send,
            self.frontier_v == pre.frontier_v,
            self.newest_v == pre.newest_v,
            self.groups == pre.groups,
            self.delivered == pre.delivered,
            self.buffer.inv(),
            pm.vmaj == v,
            pm.minor == minor,
            exists|p: int|
                0 <= p <= pre.pending().len() && self.pending() == pre.pending().insert(p, pm),
        ensures
            self.wf(),
    {
        let p = choose|p: int|
            0 <= p <= pre.pending().len() && self.pending() == pre.pending().insert(p, pm);
        assert forall|w: u64| #[trigger] self.groups.contains_major(w) implies self.frontier_v < w
            <= self.newest_v by {
            if w != v {
                assert(self.groups.same_group(&orig.groups, w));
                assert(orig.groups.contains_major(w));
            }
        }
        assert forall|i: int| 0 <= i < self.pending().len() implies {
            let pm = #[trigger] self.pending()[i];
            &&& pm.vmaj <= self.newest_v
            &&& pm.vmaj > self.frontier_v ==> {
                &&& self.groups.contains_major(pm.vmaj)
                &&& (pm.minor as int) < self.groups.size_of(pm.vmaj)
                &&& !self.groups.group_missing(pm.vmaj, pm.minor as int)
            }
        } by {
            if i == p {
                assert(self.pending()[i].vmaj == v && self.pending()[i].minor == minor);
            } else {
                let j = if i < p {
                    i
                } else {
                    i - 1
                };
                let pm0 = orig.pending()[j];
                assert(pm0 == self.pending()[i]);
                assert(pm0.vmaj <= orig.newest_v);
                if pm0.vmaj > self.frontier_v {
                    assert(orig.groups.contains_major(pm0.vmaj));
                    if pm0.vmaj != v {
                        assert(self.groups.same_group(&orig.groups, pm0.vmaj));
                    } else {
                        assert(!orig.groups.group_missing(v, pm0.minor as int));
                        if pre.groups.group_missing(v, pm0.minor as int) {
                            assert(orig.groups.group_missing(v, pm0.minor as int));
                        }
                    }
                }
            }
        }
        match self.delivered@ {
            Some(k) => {
                assert(k.0 <= self.frontier_v);
                assert forall|i: int| 0 <= i < self.pending().len() implies key_lt(
                    k,
                    ((#[trigger] self.pending()[i]).vmaj, self.pending()[i].minor),
                ) by {
                    if i == p {
                        assert(self.pending()[i].vmaj == v);
                        assert(k.0 <= self.frontier_v < v);
                    } else {
                        let j = if i < p {
                            i
                        } else {
                            i - 1
                        };
                        let pm0 = orig.pending()[j];
                        assert(pm0 == self.pending()[i]);
                        assert(key_lt(k, (pm0.vmaj, pm0.minor)));
                    }
                }
            },
            None => {},
        }
    }

    /// The frontier never trails the newest observed major by more than the
    /// window, and never passes it.
    pub proof fn lemma_frontier_within_window(c: &Channel<M>)
        requires
            c.inv(),
        ensures
            c.frontier() <= c.newest() <= c.frontier() + c.window(),
    {
    }

    /// No out-of-window delivery: every message the channel is still holding
    /// for delivery sits at most one window beyond the frontier on the
    /// virtual delivery line. A message is only ever buffered while its major
    /// is within the window of the frontier of its arrival, and the frontier
    /// never regresses, so nothing farther out can ever reach `try_recv`.
    pub proof fn lemma_no_out_of_window_delivery(c: &Channel<M>)
        requires
            c.inv(),
        ensures
            forall|i: int|
                0 <= i < c.pending().len() ==> (#[trigger] c.pending()[i]).vmaj as int
                    <= c.frontier() + c.window(),
    {
        assert forall|i: int|
            0 <= i < c.pending().len() implies (#[trigger] c.pending()[i]).vmaj as int
            <= c.frontier() + c.window() by {
            assert(c.pending()[i].vmaj <= c.newest_v);
        }
    }

    /// Advance the delivery frontier as far as resolution allows: step past
    /// every group that is complete or expired, and, while the reordering
    /// window is saturated (the newest observed major a full window ahead of
    /// the frontier), force the blocking group to expire with a gap event.
    /// Records of passed groups are dropped; no other group changes.
    fn advance_frontier(&mut self)
        requires
            old(self).wf(),
        ensures
            final(self).wf(),
            final(self).resolved(),
            old(self).frontier_v <= final(self).frontier_v,
            final(self).newest_v == old(self).newest_v,
            final(self).window == old(self).window,
            final(self).next_send == old(self).next_send,
            final(self).buffer == old(self).buffer,
            final(self).delivered == old(self).delivered,
            old(self).gaps@.is_prefix_of(final(self).gaps@),
            forall|w: u64|
                #[trigger] final(self).groups.contains_major(w)
                    ==> (old(self).groups.contains_major(w)
                    && final(self).groups.same_group(&old(self).groups, w)),
            forall|w: u64|
                old(self).groups.contains_major(w)
                    && !(#[trigger] final(self).groups.contains_major(w))
                    ==> w <= final(self).frontier_v,
    {
        loop
            invariant
                old(self).wf(),
                self.wf(),
                old(self).frontier_v <= self.frontier_v,
                self.newest_v == old(self).newest_v,
                self.window == old(self).window,
                self.next_send == old(self).next_send,
                self.buffer == old(self).buffer,
                self.delivered == old(self).delivered,
                old(self).gaps@.is_prefix_of(self.gaps@),
                forall|w: u64|
                    #[trigger] self.groups.contains_major(w) ==> (old(self).groups.contains_major(
                        w,
                    ) && self.groups.same_group(&old(self).groups, w)),
                forall|w: u64|
                    old(self).groups.contains_major(w) && !(#[trigger] self.groups.contains_major(
                        w,
                    )) ==> w <= self.frontier_v,
            decreases self.newest_v - self.frontier_v,
        {
            if self.frontier_v >= self.newest_v {
                proof {
                    assert(self.frontier() == self.newest());
                }
                return ;
            }
            let next = self.frontier_v + 1;
            let ghost pre = *self;
            let known = self.groups.contains(next);
            let passable = if known {
                self.groups.is_passable(next)
            } else {
                false
            };
            let force = self.newest_v - self.frontier_v >= self.window as u64;
            if !passable && !force {
                proof {
                    assert(((self.frontier() + 1) as u64) == next);
                    assert(self.resolved());
                }
                return ;
            }
            if !passable {
                self.gaps.push(wire_expired(next));
            }
            self.frontier_v = next;
            self.groups.expire_below(next);
            proof {
                self.lemma_step_restores(&pre, old(self), next);
            }
        }
    }

    /// After one advancement step past `next` (its record, if any, removed
    /// and the frontier moved onto it), the invariant and the loop's framing
    /// facts carry over.
    proof fn lemma_step_restores(&self, pre: &Channel<M>, orig: &Channel<M>, next: u64)
        requires
            orig.wf(),
            pre.wf(),
            orig.frontier_v <= pre.frontier_v,
            pre.frontier_v < pre.newest_v,
            next == pre.frontier_v + 1,
            forall|w: u64|
                #[trigger] pre.groups.contains_major(w) ==> (orig.groups.contains_major(w)
                    && pre.groups.same_group(&orig.groups, w)),
            forall|w: u64|
                orig.groups.contains_major(w) && !(#[trigger] pre.groups.contains_major(w)) ==> w
                    <= pre.frontier_v,
            self.window == pre.window,
            self.next_send == pre.next_send,
            self.frontier_v == next,
            self.newest_v == pre.newest_v,
            self.buffer == pre.buffer,
            self.delivered == pre.delivered,
            forall|w: u64|
                #[trigger] self.groups.contains_major(w) == (pre.groups.contains_major(w) && w
                    > next),
            forall|w: u64|
                w > next && pre.groups.contains_major(w)
                    ==> #[trigger] self.groups.same_group(&pre.groups, w),
            self.groups.inv(),
        ensures
            self.wf(),
            forall|w: u64|
                #[trigger] self.groups.contains_major(w) ==> (orig.groups.contains_major(w)
                    && self.groups.same_group(&orig.groups, w)),
            forall|w: u64|
                orig.groups.contains_major(w) && !(#[trigger] self.groups.contains_major(w)) ==> w
                    <= self.frontier_v,
    {
        assert forall|w: u64| #[trigger] self.groups.contains_major(w) implies (
        orig.groups.contains_major(w) && self.groups.same_group(&orig.groups, w)) by {
            assert(pre.groups.contains_major(w));
            assert(self.groups.same_group(&pre.groups, w));
            assert(pre.groups.same_group(&orig.groups, w));
        }
        assert forall|w: u64|
            orig.groups.contains_major(w) && !(#[trigger] self.groups.contains_major(w)) implies w
            <= self.frontier_v by {
            if pre.groups.contains_major(w) {
                assert(w == next || w <= pre.frontier_v);
            }
        }
        assert forall|v: u64| #[trigger] self.groups.contains_major(v) implies self.frontier_v < v
            <= self.newest_v by {
            assert(pre.groups.contains_major(v));
        }
        assert(self.pending() == pre.pending());
        assert forall|i: int| 0 <= i < self.pending().len() implies {
            let pm = #[trigger] self.pending()[i];
            &&& pm.vmaj <= self.newest_v
            &&& pm.vmaj > self.frontier_v ==> {
                &&& self.groups.contains_major(pm.vmaj)
                &&& (pm.minor as int) < self.groups.size_of(pm.vmaj)
                &&& !self.groups.group_missing(pm.vmaj, pm.minor as int)
            }
        } by {
            let pm0 = pre.pending()[i];
            assert(pm0 == self.pending()[i]);
            assert(pm0.vmaj <= pre.newest_v);
            if pm0.vmaj > self.frontier_v {
                assert(pm0.vmaj > pre.frontier_v);
                assert(pre.groups.contains_major(pm0.vmaj));
                assert(pm0.vmaj != next);
                assert(self.groups.same_group(&pre.groups, pm0.vmaj));
            }
        }
        match self.delivered@ {
            Some(k) => {
                assert(k.0 <= pre.frontier_v);
                assert forall|i: int| 0 <= i < self.pending().len() implies key_lt(
                    k,
                    ((#[trigger] self.pending()[i]).vmaj, self.pending()[i].minor),
                ) by {
                    let pm0 = pre.pending()[i];
                    assert(pm0 == self.pending()[i]);
                    assert(key_lt(k, (pm0.vmaj, pm0.minor)));
                }
            },
            None => {},
        }
    }
}

/// The gap notification for the group at virtual ordinal `v`.
fn wire_expired(v: u64) -> (e: ExpiredGroup)
    ensures
        e.major.0 == wire32(v),
{
    ExpiredGroup { major: wire_major_of(v) }
}

} // verus!
