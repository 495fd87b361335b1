use reassembly::channels::{AcceptOutcome, Channel, Message, MinorId, RawMessage};
use reassembly::cyclic::MajorId;

#[derive(Clone, Copy, Debug, PartialEq, Eq)]
struct Payload(u32);

impl Message for Payload {}

fn frame(major: u32, minor: u8, size: u16, p: u32) -> RawMessage<Payload> {
    RawMessage { major: MajorId(major), minor: MinorId(minor), declared_size: size, payload: Payload(p) }
}

#[test]
fn solo_send_assigns_sequential_majors() {
    let mut ch: Channel<Payload> = Channel::new();
    let w0 = ch.solo_send(Payload(10));
    assert_eq!(w0.major, MajorId(0));
    assert_eq!(w0.minor, MinorId(0));
    assert_eq!(w0.declared_size, 1);
    assert_eq!(w0.payload, Payload(10));
    let w1 = ch.solo_send(Payload(11));
    assert_eq!(w1.major, MajorId(1));
}

#[test]
fn group_send_assigns_one_major_and_sequential_minors() {
    let mut ch: Channel<Payload> = Channel::new();
    ch.solo_send(Payload(0));
    let ws = ch.group_send(vec![Payload(20), Payload(21), Payload(22)]);
    assert_eq!(ws.len(), 3);
    for (i, w) in ws.iter().enumerate() {
        assert_eq!(w.major, MajorId(1));
        assert_eq!(w.minor, MinorId(i as u8));
        assert_eq!(w.declared_size, 3);
        assert_eq!(w.payload, Payload(20 + i as u32));
    }
    let w = ch.solo_send(Payload(30));
    assert_eq!(w.major, MajorId(2));
}

#[test]
fn end_to_end_reordered_delivery() {
    // Sender: solo A as major 0; group [B, C] as major 1, minors 0 and 1.
    let mut tx: Channel<Payload> = Channel::new();
    let a = tx.solo_send(Payload(1));
    let bc = tx.group_send(vec![Payload(2), Payload(3)]);
    assert_eq!(a.major, MajorId(0));
    assert_eq!(bc[0].major, MajorId(1));
    assert_eq!(bc[0].minor, MinorId(0));
    assert_eq!(bc[1].minor, MinorId(1));

    // Receiver sees C first, then A, then B.
    let mut rx: Channel<Payload> = Channel::new();
    assert_eq!(rx.accept(frame(1, 1, 2, 3)), AcceptOutcome::Accepted);
    assert_eq!(rx.try_recv(), None);
    assert_eq!(rx.accept(frame(0, 0, 1, 1)), AcceptOutcome::Accepted);
    assert_eq!(rx.try_recv(), Some(Payload(1)));
    assert_eq!(rx.try_recv(), None);
    assert_eq!(rx.accept(frame(1, 0, 2, 2)), AcceptOutcome::Accepted);
    assert_eq!(rx.try_recv(), Some(Payload(2)));
    assert_eq!(rx.try_recv(), Some(Payload(3)));
    assert_eq!(rx.try_recv(), None);
}

#[test]
fn duplicate_accept_is_idempotent() {
    let mut rx: Channel<Payload> = Channel::new();
    // Duplicate inside a still-incomplete group.
    assert_eq!(rx.accept(frame(0, 0, 2, 7)), AcceptOutcome::Accepted);
    assert_eq!(rx.accept(frame(0, 0, 2, 7)), AcceptOutcome::DuplicateDropped);
    // Duplicate of an already-resolved solo message.
    assert_eq!(rx.accept(frame(0, 1, 2, 8)), AcceptOutcome::Accepted);
    assert_eq!(rx.accept(frame(0, 1, 2, 8)), AcceptOutcome::DuplicateDropped);
    // Exactly one payload is delivered for each member.
    assert_eq!(rx.try_recv(), Some(Payload(7)));
    assert_eq!(rx.try_recv(), Some(Payload(8)));
    assert_eq!(rx.try_recv(), None);
    assert_eq!(rx.accept(frame(0, 0, 2, 7)), AcceptOutcome::DuplicateDropped);
    assert_eq!(rx.try_recv(), None);
}

#[test]
fn malformed_frames_are_decode_errors() {
    let mut rx: Channel<Payload> = Channel::new();
    assert_eq!(rx.accept(frame(0, 0, 0, 1)), AcceptOutcome::DecodeError);
    assert_eq!(rx.accept(frame(0, 2, 2, 1)), AcceptOutcome::DecodeError);
    assert_eq!(rx.accept(frame(0, 0, 257, 1)), AcceptOutcome::DecodeError);
    // A decode error mutates nothing: the same well-formed frame still lands.
    assert_eq!(rx.accept(frame(0, 0, 1, 1)), AcceptOutcome::Accepted);
    assert_eq!(rx.try_recv(), Some(Payload(1)));
}

#[test]
fn out_of_window_majors_are_stale() {
    let mut rx: Channel<Payload> = Channel::new();
    // The default window is 15; the frontier starts one step before major 0,
    // so majors 0..=14 are in window and 15 is not.
    assert_eq!(rx.accept(frame(15, 0, 1, 1)), AcceptOutcome::StaleDropped);
    assert_eq!(rx.accept(frame(100, 0, 1, 1)), AcceptOutcome::StaleDropped);
    assert_eq!(rx.accept(frame(14, 0, 1, 1)), AcceptOutcome::Accepted);
    // A major that reads as behind the frontier is a duplicate, not stale.
    assert_eq!(rx.accept(frame(0xFFFF_FFFF, 0, 1, 1)), AcceptOutcome::DuplicateDropped);
    assert_eq!(rx.accept(frame(0x9000_0000, 0, 1, 1)), AcceptOutcome::DuplicateDropped);
}

#[test]
fn size_conflict_expires_the_group() {
    let mut rx: Channel<Payload> = Channel::new();
    assert_eq!(rx.accept(frame(0, 0, 3, 1)), AcceptOutcome::Accepted);
    assert_eq!(rx.accept(frame(0, 1, 2, 2)), AcceptOutcome::SizeConflict);
    let gaps = rx.gap_events();
    assert_eq!(gaps.len(), 1);
    assert_eq!(gaps[0].major, MajorId(0));
    // The corrupt group is terminal: further members are duplicates.
    assert_eq!(rx.accept(frame(0, 1, 3, 2)), AcceptOutcome::DuplicateDropped);
    // Its already-buffered member is still released once the frontier passes.
    assert_eq!(rx.try_recv(), Some(Payload(1)));
    assert_eq!(rx.try_recv(), None);
}

#[test]
fn gap_skip_over() {
    // Groups 1, 2, 3 of declared size 2; group 2's second member never
    // arrives. Once majors a full window ahead have arrived and completed,
    // group 2 expires with a gap event and delivery continues past the hole.
    let mut rx: Channel<Payload> = Channel::new();
    assert_eq!(rx.accept(frame(0, 0, 1, 0)), AcceptOutcome::Accepted);
    assert_eq!(rx.accept(frame(1, 0, 2, 10)), AcceptOutcome::Accepted);
    assert_eq!(rx.accept(frame(1, 1, 2, 11)), AcceptOutcome::Accepted);
    assert_eq!(rx.accept(frame(2, 0, 2, 20)), AcceptOutcome::Accepted);
    assert_eq!(rx.accept(frame(3, 0, 2, 30)), AcceptOutcome::Accepted);
    assert_eq!(rx.accept(frame(3, 1, 2, 31)), AcceptOutcome::Accepted);
    // Completed solo groups push the newest major a full window ahead of the
    // frontier (which is stuck just before group 2).
    for m in 4u32..=16 {
        assert_eq!(rx.accept(frame(m, 0, 1, 100 + m)), AcceptOutcome::Accepted);
    }
    let gaps = rx.gap_events();
    assert_eq!(gaps.len(), 1);
    assert_eq!(gaps[0].major, MajorId(2));
    // Both members of groups 1 and 3 are still delivered, in order; group 2's
    // one arrived member is released as the frontier passes it.
    assert_eq!(rx.try_recv(), Some(Payload(0)));
    assert_eq!(rx.try_recv(), Some(Payload(10)));
    assert_eq!(rx.try_recv(), Some(Payload(11)));
    assert_eq!(rx.try_recv(), Some(Payload(20)));
    assert_eq!(rx.try_recv(), Some(Payload(30)));
    assert_eq!(rx.try_recv(), Some(Payload(31)));
    for m in 4u32..=16 {
        assert_eq!(rx.try_recv(), Some(Payload(100 + m)));
    }
    assert_eq!(rx.try_recv(), None);
    assert_eq!(rx.gap_events().len(), 0);
}

#[test]
fn forced_expiry_of_never_seen_group() {
    let mut rx: Channel<Payload> = Channel::with_window(2);
    assert_eq!(rx.accept(frame(0, 0, 1, 1)), AcceptOutcome::Accepted);
    // Major 1 is never seen; accepting major 2 saturates the window of 2 and
    // forces the unknown group 1 to expire.
    assert_eq!(rx.accept(frame(2, 0, 1, 3)), AcceptOutcome::Accepted);
    let gaps = rx.gap_events();
    assert_eq!(gaps.len(), 1);
    assert_eq!(gaps[0].major, MajorId(1));
    assert_eq!(rx.try_recv(), Some(Payload(1)));
    assert_eq!(rx.try_recv(), Some(Payload(3)));
    assert_eq!(rx.try_recv(), None);
}

#[test]
fn delivery_is_strictly_increasing() {
    let mut rx: Channel<Payload> = Channel::new();
    // Arrival order scrambles (major, minor); delivery must sort it out.
    assert_eq!(rx.accept(frame(2, 0, 1, 200)), AcceptOutcome::Accepted);
    assert_eq!(rx.accept(frame(1, 1, 3, 102)), AcceptOutcome::Accepted);
    assert_eq!(rx.accept(frame(0, 0, 1, 0)), AcceptOutcome::Accepted);
    assert_eq!(rx.accept(frame(1, 2, 3, 103)), AcceptOutcome::Accepted);
    assert_eq!(rx.accept(frame(1, 0, 3, 101)), AcceptOutcome::Accepted);
    let mut seen: Vec<u32> = Vec::new();
    while let Some(p) = rx.try_recv() {
        seen.push(p.0);
    }
    assert_eq!(seen, vec![0, 101, 102, 103, 200]);
}

#[test]
fn gap_events_drains_the_log() {
    let mut rx: Channel<Payload> = Channel::with_window(1);
    assert_eq!(rx.accept(frame(0, 0, 1, 1)), AcceptOutcome::Accepted);
    assert_eq!(rx.accept(frame(1, 0, 2, 2)), AcceptOutcome::Accepted);
    // Major 2 saturates the window of 1: the incomplete group 1 expires.
    assert_eq!(rx.accept(frame(2, 0, 1, 3)), AcceptOutcome::Accepted);
    let first = rx.gap_events();
    assert_eq!(first.len(), 1);
    assert_eq!(first[0].major, MajorId(1));
    assert_eq!(rx.gap_events().len(), 0);
}
