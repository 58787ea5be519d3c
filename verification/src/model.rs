//! What a push and a pop do to the bytes queued in one producer's ring, and
//! the laws that follow for the queue as a whole.

use vstd::prelude::*;

verus! {

/// The smaller of two integers.
pub open spec fn spec_min(a: int, b: int) -> int {
    if a < b {
        a
    } else {
        b
    }
}

/// The number of bytes that a push of `n` bytes writes into a ring holding
/// `queued` bytes out of at most `capacity`: all of them where they fit, else
/// as many as fit.
pub open spec fn spec_push_len(queued: nat, capacity: nat, n: nat) -> nat {
    if n < capacity - queued {
        n
    } else {
        (capacity - queued) as nat
    }
}

/// The bytes queued in a ring of at most `capacity` bytes after `bytes` were
/// pushed into it.
pub open spec fn after_push(queued: Seq<u8>, capacity: nat, bytes: Seq<u8>) -> Seq<u8> {
    queued + bytes.take(spec_push_len(queued.len(), capacity, bytes.len()) as int)
}

/// The number of bytes that a pop into a destination of `room` bytes takes.
pub open spec fn pop_len(queued: Seq<u8>, room: nat) -> nat {
    spec_min(queued.len() as int, room as int) as nat
}

/// A push never lets a ring hold more than its capacity, writes at most the
/// bytes it was given, and writes all of them exactly when they fit.
pub proof fn law_push_bounded(queued: Seq<u8>, capacity: nat, bytes: Seq<u8>)
    requires
        queued.len() <= capacity,
    ensures
        after_push(queued, capacity, bytes).len() == queued.len() + spec_push_len(
            queued.len(),
            capacity,
            bytes.len(),
        ),
        after_push(queued, capacity, bytes).len() <= capacity,
        spec_push_len(queued.len(), capacity, bytes.len()) <= bytes.len(),
        spec_push_len(queued.len(), capacity, bytes.len()) == bytes.len() <==> queued.len()
            + bytes.len() <= capacity,
        spec_push_len(queued.len(), capacity, bytes.len()) == bytes.len() || queued.len()
            + spec_push_len(queued.len(), capacity, bytes.len()) == capacity,
        bytes.len() > 0 && queued.len() < capacity ==> spec_push_len(
            queued.len(),
            capacity,
            bytes.len(),
        ) > 0,
{
}

/// A push keeps the bytes already queued in front of the bytes it adds.
pub proof fn law_push_keeps_order(queued: Seq<u8>, capacity: nat, bytes: Seq<u8>)
    requires
        queued.len() <= capacity,
    ensures
        after_push(queued, capacity, bytes).take(queued.len() as int) == queued,
        after_push(queued, capacity, bytes).skip(queued.len() as int) == bytes.take(
            spec_push_len(queued.len(), capacity, bytes.len()) as int,
        ),
{
    let q2 = after_push(queued, capacity, bytes);
    assert(q2.take(queued.len() as int) =~= queued);
    assert(q2.skip(queued.len() as int) =~= bytes.take(
        spec_push_len(queued.len(), capacity, bytes.len()) as int,
    ));
}

/// Two pushes that both fit queue their bytes one after the other.
pub proof fn law_pushes_concatenate(
    queued: Seq<u8>,
    capacity: nat,
    first: Seq<u8>,
    second: Seq<u8>,
)
    requires
        queued.len() + first.len() + second.len() <= capacity,
    ensures
        after_push(after_push(queued, capacity, first), capacity, second) == queued + first
            + second,
{
    assert(first.take(first.len() as int) =~= first);
    assert(second.take(second.len() as int) =~= second);
}

/// A pop takes bytes off the front only: what it takes followed by what it
/// leaves is what was queued, and it takes at most what its destination holds.
pub proof fn law_pop_splits(queued: Seq<u8>, room: nat)
    ensures
        queued.take(pop_len(queued, room) as int) + queued.skip(pop_len(queued, room) as int)
            == queued,
        pop_len(queued, room) <= room,
        pop_len(queued, room) <= queued.len(),
        room >= queued.len() ==> queued.take(pop_len(queued, room) as int) == queued,
        queued.len() == 0 ==> pop_len(queued, room) == 0,
        pop_len(queued, room) == room || pop_len(queued, room) == queued.len(),
        queued.len() >= room ==> pop_len(queued, room) == room,
{
    assert(queued.take(pop_len(queued, room) as int) + queued.skip(pop_len(queued, room) as int)
        =~= queued);
    if room >= queued.len() {
        assert(queued.take(pop_len(queued, room) as int) =~= queued);
    }
}

/// First in, first out: after a push, a pop into a destination large enough
/// for everything queued gives back the bytes queued before, then the bytes
/// that the push accepted, and leaves the ring empty.
pub proof fn law_fifo(queued: Seq<u8>, capacity: nat, bytes: Seq<u8>, room: nat)
    requires
        queued.len() <= capacity,
        room >= after_push(queued, capacity, bytes).len(),
    ensures
        ({
            let q2 = after_push(queued, capacity, bytes);
            let n = pop_len(q2, room);
            &&& q2.take(n as int) == queued + bytes.take(
                spec_push_len(queued.len(), capacity, bytes.len()) as int,
            )
            &&& q2.skip(n as int).len() == 0
        }),
{
    let q2 = after_push(queued, capacity, bytes);
    assert(q2.take(pop_len(q2, room) as int) =~= q2);
}

/// Pushing into an empty ring and popping into a destination at least as
/// large as what was accepted gives back the first bytes pushed, as many as
/// the ring holds.
pub proof fn law_round_trip_from_empty(capacity: nat, bytes: Seq<u8>, room: nat)
    requires
        room >= spec_min(bytes.len() as int, capacity as int),
    ensures
        ({
            let q2 = after_push(Seq::empty(), capacity, bytes);
            q2.take(pop_len(q2, room) as int) == bytes.take(
                spec_min(bytes.len() as int, capacity as int),
            )
        }),
{
    let q2 = after_push(Seq::empty(), capacity, bytes);
    assert(q2.take(pop_len(q2, room) as int) =~= bytes.take(
        spec_min(bytes.len() as int, capacity as int),
    ));
}

/// Runs a sequence of steps on a ring of at most `capacity` bytes, each step
/// a push of its bytes followed by a pop into a destination of its room (a
/// step with no bytes is a pop alone, one with no room a push alone). Gives
/// the bytes queued afterwards, the bytes popped in order, and the bytes that
/// the pushes accepted in order.
pub open spec fn run_steps(queued: Seq<u8>, capacity: nat, steps: Seq<(Seq<u8>, nat)>) -> (
    Seq<u8>,
    Seq<u8>,
    Seq<u8>,
)
    decreases steps.len(),
{
    if steps.len() == 0 {
        (queued, Seq::empty(), Seq::empty())
    } else {
        let bytes = steps[0].0;
        let accepted = bytes.take(spec_push_len(queued.len(), capacity, bytes.len()) as int);
        let pushed = after_push(queued, capacity, bytes);
        let n = pop_len(pushed, steps[0].1);
        let rest = run_steps(pushed.skip(n as int), capacity, steps.skip(1));
        (rest.0, pushed.take(n as int) + rest.1, accepted + rest.2)
    }
}

/// First in, first out over any interleaving of pushes and pops on one ring:
/// the bytes popped, followed by the bytes still queued, are the bytes queued
/// at first followed by every byte the pushes accepted, in push order. So each
/// accepted byte comes out once, none is lost or duplicated, and what was
/// popped is a prefix of what was queued and accepted.
pub proof fn law_fifo_over_runs(queued: Seq<u8>, capacity: nat, steps: Seq<(Seq<u8>, nat)>)
    requires
        queued.len() <= capacity,
    ensures
        ({
            let (left, popped, accepted) = run_steps(queued, capacity, steps);
            &&& popped + left == queued + accepted
            &&& popped == (queued + accepted).take(popped.len() as int)
            &&& left.len() <= capacity
        }),
    decreases steps.len(),
{
    if steps.len() > 0 {
        let bytes = steps[0].0;
        let accepted = bytes.take(spec_push_len(queued.len(), capacity, bytes.len()) as int);
        let pushed = after_push(queued, capacity, bytes);
        let n = pop_len(pushed, steps[0].1);
        law_push_bounded(queued, capacity, bytes);
        law_fifo_over_runs(pushed.skip(n as int), capacity, steps.skip(1));
        let rest = run_steps(pushed.skip(n as int), capacity, steps.skip(1));
        assert(pushed.take(n as int) + pushed.skip(n as int) =~= pushed);
        assert(pushed.take(n as int) + rest.1 + rest.0 =~= pushed.take(n as int) + (rest.1
            + rest.0));
        assert(queued + (accepted + rest.2) =~= pushed + rest.2);
        assert(pushed.take(n as int) + (pushed.skip(n as int) + rest.2) =~= pushed + rest.2);
    }
    let (left, popped, acc) = run_steps(queued, capacity, steps);
    assert((popped + left).take(popped.len() as int) =~= popped);
}

} // verus!
