//! The mathematical model of one producer's ring: a region of `l` bytes, a
//! head index where the producer writes next and a tail index where the
//! consumer reads next. The bytes from tail up to head, going round the
//! ring once at most, are the queued bytes.

use vstd::prelude::*;

verus! {

/// An index below `2 * l`, brought back into `0..l`.
pub open spec fn wrap_index(i: int, l: int) -> int {
    if i < l {
        i
    } else {
        i - l
    }
}

/// The byte at position `i` of the ring, where `i` may go once past its end.
pub open spec fn ring_at(region: Seq<u8>, i: int) -> u8 {
    region[wrap_index(i, region.len() as int)]
}

/// The number of bytes queued in a ring of `l` slots from `tail` to `head`.
pub open spec fn ring_count(l: int, head: int, tail: int) -> int {
    if head >= tail {
        head - tail
    } else {
        head + l - tail
    }
}

/// Head and tail both address a slot of the ring.
pub open spec fn ring_indices_ok(l: int, head: int, tail: int) -> bool {
    &&& 0 <= head < l
    &&& 0 <= tail < l
}

/// The queued bytes of a ring, oldest first.
pub open spec fn ring_contents(region: Seq<u8>, head: int, tail: int) -> Seq<u8> {
    Seq::new(
        ring_count(region.len() as int, head, tail) as nat,
        |k: int| ring_at(region, tail + k),
    )
}

/// The region after `data` was written from slot `head` on, going round the
/// end of the ring to its start where `data` does not fit before the end.
pub open spec fn ring_write(region: Seq<u8>, head: int, data: Seq<u8>) -> Seq<u8> {
    let l = region.len() as int;
    Seq::new(
        region.len(),
        |p: int|
            if head <= p < head + data.len() {
                data[p - head]
            } else if p < head + data.len() - l {
                data[p + l - head]
            } else {
                region[p]
            },
    )
}

/// Writing bytes at the head of a ring that has room for them, and moving the
/// head past them, appends them to the queued bytes.
pub proof fn lemma_ring_write_appends(region: Seq<u8>, head: int, tail: int, data: Seq<u8>)
    requires
        ring_indices_ok(region.len() as int, head, tail),
        ring_count(region.len() as int, head, tail) + data.len() < region.len(),
    ensures
        ring_contents(
            ring_write(region, head, data),
            wrap_index(head + data.len(), region.len() as int),
            tail,
        ) == ring_contents(region, head, tail) + data,
        ring_write(region, head, data).len() == region.len(),
{
    let l = region.len() as int;
    let n = ring_count(l, head, tail);
    let r2 = ring_write(region, head, data);
    let h2 = wrap_index(head + data.len(), l);
    let old_q = ring_contents(region, head, tail);
    let new_q = ring_contents(r2, h2, tail);
    assert(ring_count(l, h2, tail) == n + data.len());
    assert forall|k: int| 0 <= k < n + data.len() implies #[trigger] new_q[k] == (old_q
        + data)[k] by {
        if k < n {
            assert(old_q[k] == ring_at(region, tail + k));
        } else {
            assert(data[k - n] == (old_q + data)[k]);
        }
    }
    assert(new_q =~= old_q + data);
}

/// Moving the tail past `n` queued bytes removes them from the front.
pub proof fn lemma_ring_consume(region: Seq<u8>, head: int, tail: int, n: int)
    requires
        ring_indices_ok(region.len() as int, head, tail),
        0 <= n <= ring_count(region.len() as int, head, tail),
    ensures
        ring_contents(region, head, wrap_index(tail + n, region.len() as int)) == ring_contents(
            region,
            head,
            tail,
        ).skip(n),
        ring_indices_ok(region.len() as int, head, wrap_index(tail + n, region.len() as int)),
{
    let l = region.len() as int;
    let t2 = wrap_index(tail + n, l);
    let old_q = ring_contents(region, head, tail);
    let new_q = ring_contents(region, head, t2);
    assert(ring_count(l, head, t2) == ring_count(l, head, tail) - n);
    assert forall|k: int| 0 <= k < new_q.len() implies #[trigger] new_q[k] == old_q.skip(n)[k] by {
        assert(old_q[k + n] == ring_at(region, tail + k + n));
    }
    assert(new_q =~= old_q.skip(n));
}

} // verus!
