//! The queue's memory: one ring of `L = 2^C` bytes per producer, laid out
//! one after the other in a buffer of `S = T * L` bytes, with a head index and
//! a tail index per ring; and the handles through which producers and the
//! consumer reach their parts of it.

use crate::allocator::{AllocError, Region, ThreadSafeAlloc};
use crate::index::{compress, decompress, law_small_queue_uncompressed, spec_element_count};
use crate::model::{after_push, pop_len, spec_min, spec_push_len};
use crate::ring::{
    lemma_ring_consume, lemma_ring_write_appends, ring_at, ring_contents, ring_count,
    ring_indices_ok, ring_write, wrap_index,
};
use vstd::arithmetic::power2::{lemma2_to64, lemma_pow2_pos, pow2};
use vstd::bits::lemma_u16_pow2_no_overflow;
use vstd::prelude::*;
use vstd::slice::slice_subrange;

verus! {

/// The first byte of ring `pid` lies `pid * l` bytes into the buffer, and its
/// last byte inside a buffer of `t * l` bytes.
pub proof fn lemma_region_bounds(pid: int, t: int, l: int)
    requires
        0 <= pid < t,
        0 <= l,
    ensures
        0 <= pid * l,
        pid * l + l <= t * l,
{
    assert(0 <= pid * l) by (nonlinear_arith)
        requires
            0 <= pid,
            0 <= l,
    ;
    assert(pid * l + l <= t * l) by (nonlinear_arith)
        requires
            0 <= pid < t,
            0 <= l,
    ;
}

/// The rings of two different producers do not overlap.
pub proof fn lemma_regions_disjoint(i: int, j: int, l: int)
    requires
        0 <= i < j,
        0 <= l,
    ensures
        i * l + l <= j * l,
{
    assert(i * l + l <= j * l) by (nonlinear_arith)
        requires
            0 <= i < j,
            0 <= l,
    ;
}

/// The memory of an MPSC queue with `T` producers, each with a ring of
/// `L = 2^C` bytes, `S = T * L` bytes in all.
#[allow(non_camel_case_types)]
pub struct __MPSCQ<const T: usize, const C: usize, const S: usize, const L: usize> {
    buffer: Vec<u8>,
    tails: Vec<u16>,
    heads: Vec<u16>,
}

impl<const T: usize, const C: usize, const S: usize, const L: usize> __MPSCQ<T, C, S, L> {
    /// The parameters agree, and the buffer and the index tables have their
    /// sizes.
    pub closed spec fn shape(&self) -> bool {
        &&& C <= 16
        &&& L == pow2(C as nat)
        &&& S == T * L
        &&& self.buffer@.len() == S
        &&& self.heads@.len() == T
        &&& self.tails@.len() == T
    }

    /// The queue has its shape and every index addresses a slot of its ring.
    pub closed spec fn wf(&self) -> bool {
        &&& self.shape()
        &&& forall|i: int| 0 <= i < T ==> #[trigger] self.heads@[i] < L
        &&& forall|i: int| 0 <= i < T ==> #[trigger] self.tails@[i] < L
    }

    /// Where producer `pid` writes its next byte, within its ring.
    pub closed spec fn head_index(&self, pid: int) -> int {
        self.heads@[pid] as int
    }

    /// Where the consumer reads the next byte of producer `pid`, within its ring.
    pub closed spec fn tail_index(&self, pid: int) -> int {
        self.tails@[pid] as int
    }

    /// The bytes of producer `pid`'s ring.
    pub closed spec fn region(&self, pid: int) -> Seq<u8> {
        self.buffer@.subrange(pid * L, pid * L + L)
    }

    /// The bytes that producer `pid` has pushed and the consumer not yet
    /// popped, oldest first.
    pub open spec fn contents(&self, pid: int) -> Seq<u8> {
        ring_contents(self.region(pid), self.head_index(pid), self.tail_index(pid))
    }

    proof fn lemma_wf_facts(&self, pid: int)
        requires
            self.wf(),
            0 <= pid < T,
        ensures
            0 <= pid * L,
            pid * L + L <= S,
            self.region(pid).len() == L,
            ring_indices_ok(L as int, self.head_index(pid), self.tail_index(pid)),
            L <= 0x10000,
            L >= 1,
    {
        lemma_region_bounds(pid, T as int, L as int);
        assert(self.heads@[pid] < L && self.tails@[pid] < L);
        lemma_pow2_pos(C as nat);
        if C < 16 {
            lemma_u16_pow2_no_overflow(C as nat);
        } else {
            lemma2_to64();
        }
    }

    /// The ring of producer `pid` holds `L` bytes; the number of bytes queued
    /// in it is the element count of its head and tail, which both address a
    /// slot of the ring; the ring is never full, and it is empty exactly when
    /// head and tail meet.
    pub proof fn lemma_queued_len(&self, pid: int)
        requires
            self.wf(),
            0 <= pid < T,
        ensures
            self.region(pid).len() == L,
            0 <= self.head_index(pid) < L,
            0 <= self.tail_index(pid) < L,
            self@[pid].len() == ring_count(L as int, self.head_index(pid), self.tail_index(pid)),
            self@[pid].len() == spec_element_count(
                C as nat,
                self.head_index(pid),
                self.tail_index(pid),
            ),
            self@[pid].len() < L,
            self@[pid].len() == 0 <==> self.head_index(pid) == self.tail_index(pid),
    {
        self.lemma_wf_facts(pid);
    }

    /// Copies `src[from..from + n]` into the buffer at `at`.
    fn write_segment(&mut self, at: usize, src: &[u8], from: usize, n: usize)
        requires
            at + n <= old(self).buffer@.len(),
            from + n <= src@.len(),
        ensures
            final(self).heads == old(self).heads,
            final(self).tails == old(self).tails,
            final(self).buffer@.len() == old(self).buffer@.len(),
            forall|p: int|
                0 <= p < old(self).buffer@.len() ==> #[trigger] final(self).buffer@[p] == if at
                    <= p < at + n {
                    src@[from + p - at]
                } else {
                    old(self).buffer@[p]
                },
    {
        let mut k: usize = 0;
        while k < n
            invariant
                k <= n,
                at + n <= old(self).buffer@.len(),
                from + n <= src@.len(),
                self.heads == old(self).heads,
                self.tails == old(self).tails,
                self.buffer@.len() == old(self).buffer@.len(),
                forall|p: int|
                    0 <= p < old(self).buffer@.len() ==> #[trigger] self.buffer@[p] == if at <= p
                        < at + k {
                        src@[from + p - at]
                    } else {
                        old(self).buffer@[p]
                    },
            decreases n - k,
        {
            assert(at + k < self.buffer.len() && from + k < src.len());
            self.buffer[at + k] = src[from + k];
            k = k + 1;
        }
    }

    /// The `n` bytes of the buffer from `at` on.
    fn segment(&self, at: usize, n: usize) -> (seg: &[u8])
        requires
            at + n <= self.buffer@.len(),
        ensures
            seg@ == self.buffer@.subrange(at as int, at + n),
    {
        assert(at + n <= self.buffer.len());
        slice_subrange(self.buffer.as_slice(), at, at + n)
    }

    /// Copies `n` bytes of the buffer from `at` into `dst[to..to + n]`.
    fn read_segment(&self, at: usize, dst: &mut [u8], to: usize, n: usize)
        requires
            at + n <= self.buffer@.len(),
            to + n <= old(dst)@.len(),
        ensures
            final(dst)@.len() == old(dst)@.len(),
            forall|p: int|
                0 <= p < old(dst)@.len() ==> #[trigger] final(dst)@[p] == if to <= p < to + n {
                    self.buffer@[at + p - to]
                } else {
                    old(dst)@[p]
                },
    {
        let mut k: usize = 0;
        while k < n
            invariant
                k <= n,
                at + n <= self.buffer@.len(),
                to + n <= old(dst)@.len(),
                dst@.len() == old(dst)@.len(),
                forall|p: int|
                    0 <= p < old(dst)@.len() ==> #[trigger] dst@[p] == if to <= p < to + k {
                        self.buffer@[at + p - to]
                    } else {
                        old(dst)@[p]
                    },
            decreases n - k,
        {
            assert(at + k < self.buffer.len() && to + k < dst.len());
            dst[to + k] = self.buffer[at + k];
            k = k + 1;
        }
    }
}

impl<const T: usize, const C: usize, const S: usize, const L: usize> View for __MPSCQ<T, C, S, L> {
    type V = Seq<Seq<u8>>;

    /// The queued bytes of every producer.
    open spec fn view(&self) -> Seq<Seq<u8>> {
        Seq::new(T as nat, |pid: int| self.contents(pid))
    }
}

/// Read and write access to the head of one producer's ring. Only that
/// producer moves its head.
pub struct RWHead<const C: usize>(usize);

impl<const C: usize> RWHead<C> {
    /// The producer whose head this is.
    pub closed spec fn slot(&self) -> nat {
        self.0 as nat
    }

    pub fn new(slot: usize) -> (h: Self)
        ensures
            h.slot() == slot,
    {
        RWHead(slot)
    }

    /// Moves the head, thereby committing the bytes written before it to
    /// the consumer.
    pub fn store_atomic<const T: usize, const S: usize, const L: usize>(
        &self,
        q: &mut __MPSCQ<T, C, S, L>,
        val: u16,
    )
        requires
            old(q).shape(),
            self.slot() < T,
        ensures
            final(q).shape(),
            old(q).wf() ==> (final(q).wf() <==> val < L),
            forall|i: int| 0 <= i < T ==> #[trigger] final(q).region(i) == old(q).region(i),
            forall|i: int| 0 <= i < T ==> #[trigger] final(q).tail_index(i) == old(q).tail_index(i),
            forall|i: int|
                0 <= i < T ==> #[trigger] final(q).head_index(i) == if i == self.slot() {
                    val as int
                } else {
                    old(q).head_index(i)
                },
    {
        q.heads.set(self.0, val);
        assert(q.heads@[self.0 as int] == val);
    }

    /// Reads the head.
    pub fn read_atomic<const T: usize, const S: usize, const L: usize>(
        &self,
        q: &__MPSCQ<T, C, S, L>,
    ) -> (h: u16)
        requires
            q.shape(),
            self.slot() < T,
        ensures
            h == q.head_index(self.slot() as int),
            q.wf() ==> h < L,
    {
        q.heads[self.0]
    }
}

/// A read-only view of the head of one producer's ring, for the consumer.
pub struct ReadOnlyHead<const C: usize>(usize);

impl<const C: usize> ReadOnlyHead<C> {
    /// The producer whose head this is.
    pub closed spec fn slot(&self) -> nat {
        self.0 as nat
    }

    pub fn new(slot: usize) -> (h: Self)
        ensures
            h.slot() == slot,
    {
        ReadOnlyHead(slot)
    }

    /// Reads the head.
    pub fn read_atomic<const T: usize, const S: usize, const L: usize>(
        &self,
        q: &__MPSCQ<T, C, S, L>,
    ) -> (h: u16)
        requires
            q.shape(),
            self.slot() < T,
        ensures
            h == q.head_index(self.slot() as int),
            q.wf() ==> h < L,
    {
        q.heads[self.0]
    }
}

/// Read and write access to the tail of one producer's ring. Only the
/// consumer moves a tail. Tails are stored compressed.
pub struct RWTail<const C: usize>(usize);

impl<const C: usize> RWTail<C> {
    /// The producer whose tail this is.
    pub closed spec fn slot(&self) -> nat {
        self.0 as nat
    }

    pub fn new(slot: usize) -> (t: Self)
        ensures
            t.slot() == slot,
    {
        RWTail(slot)
    }

    /// Reads the tail, decompressing it.
    pub fn read_atomic<const T: usize, const S: usize, const L: usize>(
        &self,
        q: &__MPSCQ<T, C, S, L>,
    ) -> (t: u16)
        requires
            q.shape(),
            self.slot() < T,
        ensures
            t == q.tail_index(self.slot() as int),
            q.wf() ==> t < L,
    {
        let stored = q.tails[self.0];
        proof {
            law_small_queue_uncompressed(stored, C as nat);
        }
        decompress(stored, C)
    }

    /// Moves the tail, compressing it, thereby releasing the bytes before it
    /// to the producer.
    pub fn store_atomic<const T: usize, const S: usize, const L: usize>(
        &self,
        q: &mut __MPSCQ<T, C, S, L>,
        val: u16,
    )
        requires
            old(q).shape(),
            self.slot() < T,
        ensures
            final(q).shape(),
            old(q).wf() ==> (final(q).wf() <==> val < L),
            forall|i: int| 0 <= i < T ==> #[trigger] final(q).region(i) == old(q).region(i),
            forall|i: int| 0 <= i < T ==> #[trigger] final(q).head_index(i) == old(q).head_index(i),
            forall|i: int|
                0 <= i < T ==> #[trigger] final(q).tail_index(i) == if i == self.slot() {
                    val as int
                } else {
                    old(q).tail_index(i)
                },
    {
        proof {
            law_small_queue_uncompressed(val, C as nat);
        }
        let c = compress(val, C);
        q.tails.set(self.0, c);
        assert(q.tails@[self.0 as int] == val);
    }
}

/// A read-only view of the tail of one producer's ring, for that producer.
pub struct ReadOnlyTail<const C: usize>(usize);

impl<const C: usize> ReadOnlyTail<C> {
    /// The producer whose tail this is.
    pub closed spec fn slot(&self) -> nat {
        self.0 as nat
    }

    pub fn new(slot: usize) -> (t: Self)
        ensures
            t.slot() == slot,
    {
        ReadOnlyTail(slot)
    }

    /// Reads the tail, decompressing it.
    pub fn read_atomic<const T: usize, const S: usize, const L: usize>(
        &self,
        q: &__MPSCQ<T, C, S, L>,
    ) -> (t: u16)
        requires
            q.shape(),
            self.slot() < T,
        ensures
            t == q.tail_index(self.slot() as int),
            q.wf() ==> t < L,
    {
        let stored = q.tails[self.0];
        proof {
            law_small_queue_uncompressed(stored, C as nat);
        }
        decompress(stored, C)
    }
}

/// Write access to one producer's ring of `L` bytes, which starts `offset`
/// bytes into the queue's buffer.
pub struct RWBuffer<const L: usize>(usize);

impl<const L: usize> RWBuffer<L> {
    /// Where the ring starts in the queue's buffer.
    pub closed spec fn offset(&self) -> nat {
        self.0 as nat
    }

    pub fn new(offset: usize) -> (b: Self)
        ensures
            b.offset() == offset,
    {
        RWBuffer(offset)
    }
}

/// A read-only view of the whole buffer of `T` rings of `L` bytes each, `S`
/// bytes in all, which starts `offset` bytes into the queue's memory.
pub struct ReadOnlyBuffer<const T: usize, const S: usize, const L: usize>(usize);

impl<const T: usize, const S: usize, const L: usize> ReadOnlyBuffer<T, S, L> {
    /// Where the buffer starts.
    pub closed spec fn offset(&self) -> nat {
        self.0 as nat
    }

    pub fn new(offset: usize) -> (b: Self)
        ensures
            b.offset() == offset,
    {
        ReadOnlyBuffer(offset)
    }

    /// Returns where the ring of producer `pid` starts.
    pub fn tlq_base_ptr(&self, pid: usize) -> (p: usize)
        requires
            pid < T,
            self.offset() + pid * L <= usize::MAX,
        ensures
            p == self.offset() + pid * L,
    {
        self.0 + pid * L
    }
}

/// An index below twice the ring size, brought back into the ring.
fn ring_wrap(i: usize, l: usize) -> (w: usize)
    requires
        i < 2 * l,
    ensures
        w == wrap_index(i as int, l as int),
{
    if i < l {
        i
    } else {
        i - l
    }
}

/// The free slots of a ring of `l` slots with head `head` and tail `tail`.
fn ring_free(head: usize, tail: usize, l: usize) -> (f: usize)
    requires
        head < l,
        tail < l,
    ensures
        f == l - ring_count(l as int, head as int, tail as int),
        1 <= f <= l,
{
    if head >= tail {
        l - (head - tail)
    } else {
        tail - head
    }
}

/// The bytes queued in a ring of `l` slots with head `head` and tail `tail`.
fn ring_len(head: usize, tail: usize, l: usize) -> (n: usize)
    requires
        head < l,
        tail < l,
    ensures
        n == ring_count(l as int, head as int, tail as int),
        n < l,
{
    l - ring_free(head, tail, l)
}

/// A producer handle. Use this to push data into the MPSC queue that can be
/// read by the consumer.
pub struct TLQ<const T: usize, const C: usize, const S: usize, const L: usize> {
    pub head: RWHead<C>,
    pub tail: ReadOnlyTail<C>,
    pub buffer: RWBuffer<L>,
}

impl<const T: usize, const C: usize, const S: usize, const L: usize> TLQ<T, C, S, L> {
    /// The producer this handle belongs to.
    pub open spec fn producer_id(&self) -> nat {
        self.head.slot()
    }

    /// The head, the tail and the ring all belong to one producer of the queue.
    pub open spec fn valid(&self) -> bool {
        &&& self.head.slot() < T
        &&& self.tail.slot() == self.head.slot()
        &&& self.buffer.offset() == self.head.slot() * L
    }

    /// Pushes a byte slice to the buffer. Performs a partial write if the
    /// queue is full: at most `L - 1` bytes are ever queued, so that a full
    /// queue can be told from an empty one. Returns the number of bytes
    /// written to the queue.
    pub fn push(&self, q: &mut __MPSCQ<T, C, S, L>, byte: &[u8]) -> (written: usize)
        requires
            old(q).wf(),
            self.valid(),
        ensures
            final(q).wf(),
            written == spec_push_len(
                old(q)@[self.producer_id() as int].len(),
                (L - 1) as nat,
                byte@.len(),
            ),
            final(q)@ == old(q)@.update(
                self.producer_id() as int,
                after_push(old(q)@[self.producer_id() as int], (L - 1) as nat, byte@),
            ),
            final(q).head_index(self.producer_id() as int) == wrap_index(
                old(q).head_index(self.producer_id() as int) + written,
                L as int,
            ),
            forall|i: int|
                0 <= i < T ==> #[trigger] final(q).tail_index(i) == old(q).tail_index(i),
            forall|i: int|
                0 <= i < T && i != self.producer_id() ==> #[trigger] final(q).head_index(i)
                    == old(q).head_index(i),
            written <= byte@.len(),
            written == byte@.len() || old(q)@[self.producer_id() as int].len() + written == L
                - 1,
            final(q).region(self.producer_id() as int) == ring_write(
                old(q).region(self.producer_id() as int),
                old(q).head_index(self.producer_id() as int),
                byte@.take(written as int),
            ),
            forall|i: int|
                0 <= i < T && i != self.producer_id() ==> #[trigger] final(q).region(i)
                    == old(q).region(i),
    {
        let ghost pid = self.producer_id() as int;
        proof {
            q.lemma_wf_facts(pid);
        }
        let head = self.head.read_atomic(q);
        let tail = self.tail.read_atomic(q);
        let h = head as usize;
        let t = tail as usize;
        let capacity = ring_free(h, t, L);
        // Limit the bytes to the free slots but one: a ring filled entirely
        // could not be told from an empty one.
        let room: usize = capacity - 1;
        let len: usize = if byte.len() < room {
            byte.len()
        } else {
            room
        };
        if ring_wrap(h + 1, L) == t || len == 0 {
            assert(len == 0);
            assert(old(q)@ =~= old(q)@.update(pid, old(q)@[pid] + byte@.take(0)));
            assert(old(q).region(pid) =~= ring_write(old(q).region(pid), h as int, byte@.take(0)));
            return 0;
        }
        let target_wrap = ring_wrap(h + len, L);
        let base = self.buffer.0;
        let dst = base + h;
        if target_wrap >= h {
            q.write_segment(dst, byte, 0, len);
        } else {
            let split_len = L - h;
            q.write_segment(dst, byte, 0, split_len);
            q.write_segment(base, byte, split_len, len - split_len);
        }
        let ghost data = byte@.take(len as int);
        proof {
            assert(q.region(pid) =~= ring_write(old(q).region(pid), head as int, data));
            lemma_ring_write_appends(old(q).region(pid), head as int, tail as int, data);
            assert forall|i: int| 0 <= i < T && i != pid implies #[trigger] q.region(i)
                == old(q).region(i) by {
                lemma_region_bounds(i, T as int, L as int);
                if i < pid {
                    lemma_regions_disjoint(i, pid, L as int);
                } else {
                    lemma_regions_disjoint(pid, i, L as int);
                }
                assert(q.region(i) =~= old(q).region(i));
            }
        }
        self.head.store_atomic(q, target_wrap as u16);
        proof {
            assert forall|i: int| 0 <= i < T implies #[trigger] q@[i] == old(q)@.update(
                pid,
                old(q)@[pid] + data,
            )[i] by {
                if i != pid {
                    assert(q.contents(i) == old(q).contents(i));
                }
            }
            assert(q@ =~= old(q)@.update(pid, old(q)@[pid] + data));
        }
        len
    }
}

/// A section of a producer's ring that the consumer may read.
pub trait Section<'a> {
    /// The bytes of the section.
    spec fn bytes(&self) -> Seq<u8>;

    fn get_buffer<'b>(&'b mut self) -> (b: &'b [u8])
        ensures
            b@ == old(self).bytes(),
            final(self).bytes() == old(self).bytes(),
    ;
}

/// The bytes that a pop took off a producer's ring, as one piece of that ring.
pub struct SectionImpl<'a, const C: usize> {
    pub buffer: &'a [u8],
}

impl<'a, const C: usize> Section<'a> for SectionImpl<'a, C> {
    open spec fn bytes(&self) -> Seq<u8> {
        self.buffer@
    }

    fn get_buffer<'b>(&'b mut self) -> (b: &'b [u8]) {
        self.buffer
    }
}

/// A safe interface to the MPSC queue for its single consumer.
pub trait ConsumerHandle<const T: usize, const C: usize, const S: usize, const L: usize> {
    /// The handle reads the head and writes the tail of each of the `T`
    /// rings, and reads the whole buffer.
    spec fn serves(&self) -> bool;

    /// Returns the number of producers.
    fn get_producer_count(&self) -> (n: usize)
        ensures
            n == T,
    ;

    /// From the producer given by `pid`, reads at most `dst.len()` bytes
    /// from its ring, copies them into `dst` and moves the ring's tail past
    /// them. Returns the number of bytes copied.
    fn pop_into(&self, q: &mut __MPSCQ<T, C, S, L>, pid: usize, dst: &mut [u8]) -> (n: usize)
        requires
            old(q).wf(),
            self.serves(),
            pid < T,
        ensures
            final(q).wf(),
            n == pop_len(old(q)@[pid as int], old(dst)@.len()),
            n <= old(dst)@.len() && n <= old(q)@[pid as int].len(),
            n == old(dst)@.len() || n == old(q)@[pid as int].len(),
            final(dst)@ == old(q)@[pid as int].take(n as int) + old(dst)@.skip(n as int),
            final(q)@ == old(q)@.update(pid as int, old(q)@[pid as int].skip(n as int)),
            final(q).tail_index(pid as int) == wrap_index(
                old(q).tail_index(pid as int) + n,
                L as int,
            ),
            forall|i: int|
                0 <= i < T ==> #[trigger] final(q).head_index(i) == old(q).head_index(i),
            forall|i: int|
                0 <= i < T && i != pid ==> #[trigger] final(q).tail_index(i)
                    == old(q).tail_index(i),
            forall|i: int| 0 <= i < T ==> #[trigger] final(q).region(i) == old(q).region(i),
    ;

    /// Takes off the ring of producer `pid` the bytes queued from its tail up
    /// to the end of the ring or to its head, whichever comes first, and
    /// returns them as one section of the ring.
    fn pop<'a>(&self, q: &'a mut __MPSCQ<T, C, S, L>, pid: usize) -> (sec: SectionImpl<'a, C>)
        requires
            old(q).wf(),
            self.serves(),
            pid < T,
        ensures
            final(q).wf(),
            ({
                let k = spec_min(
                    old(q)@[pid as int].len() as int,
                    L - old(q).tail_index(pid as int),
                );
                &&& sec.bytes() == old(q)@[pid as int].take(k)
                &&& final(q)@ == old(q)@.update(pid as int, old(q)@[pid as int].skip(k))
                &&& final(q).tail_index(pid as int) == wrap_index(
                    old(q).tail_index(pid as int) + k,
                    L as int,
                )
            }),
            forall|i: int|
                0 <= i < T ==> #[trigger] final(q).head_index(i) == old(q).head_index(i),
            forall|i: int|
                0 <= i < T && i != pid ==> #[trigger] final(q).tail_index(i)
                    == old(q).tail_index(i),
            forall|i: int| 0 <= i < T ==> #[trigger] final(q).region(i) == old(q).region(i),
    ;
}

/// The consumer's handle: the tails and heads of all rings, and the buffer.
pub struct ConsumerHandleImpl<const T: usize, const C: usize, const S: usize, const L: usize> {
    tails: Vec<RWTail<C>>,
    heads: Vec<ReadOnlyHead<C>>,
    buffer: ReadOnlyBuffer<T, S, L>,
}

impl<const T: usize, const C: usize, const S: usize, const L: usize> ConsumerHandle<
    T,
    C,
    S,
    L,
> for ConsumerHandleImpl<T, C, S, L> {
    closed spec fn serves(&self) -> bool {
        &&& self.tails@.len() == T
        &&& self.heads@.len() == T
        &&& forall|i: int| 0 <= i < T ==> #[trigger] self.tails@[i].slot() == i
        &&& forall|i: int| 0 <= i < T ==> #[trigger] self.heads@[i].slot() == i
        &&& self.buffer.offset() == 0
    }

    fn get_producer_count(&self) -> (n: usize) {
        T
    }

    fn pop_into(&self, q: &mut __MPSCQ<T, C, S, L>, pid: usize, dst: &mut [u8]) -> (n: usize) {
        let ghost p = pid as int;
        proof {
            q.lemma_wf_facts(p);
        }
        let tail = self.tails[pid].read_atomic(q);
        let head = self.heads[pid].read_atomic(q);
        let t = tail as usize;
        let count = ring_len(head as usize, t, L);
        let len: usize = if count < dst.len() {
            count
        } else {
            dst.len()
        };
        let target_wrap = ring_wrap(t + len, L);
        let base = self.buffer.tlq_base_ptr(pid);
        let src = base + t;
        if target_wrap >= t {
            q.read_segment(src, dst, 0, len);
        } else {
            let split_len = L - t;
            q.read_segment(src, dst, 0, split_len);
            q.read_segment(base, dst, split_len, len - split_len);
        }
        let ghost items = old(q)@[p];
        proof {
            assert forall|j: int| 0 <= j < len implies #[trigger] dst@[j] == items[j] by {
                assert(items[j] == ring_at(old(q).region(p), tail + j));
            }
            assert(dst@ =~= items.take(len as int) + old(dst)@.skip(len as int));
            lemma_ring_consume(q.region(p), head as int, tail as int, len as int);
        }
        self.tails[pid].store_atomic(q, target_wrap as u16);
        proof {
            assert forall|i: int| 0 <= i < T implies #[trigger] q@[i] == old(q)@.update(
                p,
                items.skip(len as int),
            )[i] by {
                if i != p {
                    assert(q.contents(i) == old(q).contents(i));
                }
            }
            assert(q@ =~= old(q)@.update(p, items.skip(len as int)));
        }
        len
    }

    fn pop<'a>(&self, q: &'a mut __MPSCQ<T, C, S, L>, pid: usize) -> (sec: SectionImpl<'a, C>) {
        let ghost p = pid as int;
        proof {
            q.lemma_wf_facts(p);
        }
        let tail = self.tails[pid].read_atomic(q);
        let head = self.heads[pid].read_atomic(q);
        let t = tail as usize;
        let len = ring_len(head as usize, t, L);
        // either the head, or the end of the ring
        let target_or_end: usize = if t + len < L {
            t + len
        } else {
            L
        };
        let src = self.buffer.tlq_base_ptr(pid) + t;
        let truncated_len = target_or_end - t;
        proof {
            lemma_ring_consume(q.region(p), head as int, tail as int, truncated_len as int);
        }
        let ghost items = old(q)@[p];
        let new_tail = ring_wrap(target_or_end, L);
        self.tails[pid].store_atomic(q, new_tail as u16);
        let shared: &'a __MPSCQ<T, C, S, L> = q;
        let bytes = shared.segment(src, truncated_len);
        proof {
            assert forall|j: int| 0 <= j < truncated_len implies #[trigger] bytes@[j] == items[j] by {
                assert(items[j] == ring_at(old(q).region(p), tail + j));
                assert(shared.region(p)[tail + j] == old(q).region(p)[tail + j]);
            }
            assert(bytes@ =~= items.take(truncated_len as int));
            assert forall|i: int| 0 <= i < T implies #[trigger] shared@[i] == old(q)@.update(
                p,
                items.skip(truncated_len as int),
            )[i] by {
                if i != p {
                    assert(shared.contents(i) == old(q).contents(i));
                }
            }
            assert(shared@ =~= old(q)@.update(p, items.skip(truncated_len as int)));
        }
        SectionImpl { buffer: bytes }
    }
}

/// A producer handle for producer `pid`.
fn prod_handle<const T: usize, const C: usize, const S: usize, const L: usize>(pid: usize) -> (p:
    TLQ<T, C, S, L>)
    requires
        pid < T,
        S == T * L,
    ensures
        p.valid(),
        p.producer_id() == pid,
{
    proof {
        lemma_region_bounds(pid as int, T as int, L as int);
    }
    TLQ { tail: ReadOnlyTail::new(pid), head: RWHead::new(pid), buffer: RWBuffer::new(pid * L) }
}

/// Returns a consumer handle. This allows a single thread to pop data from
/// the producers' rings.
fn cons_handle<const T: usize, const C: usize, const S: usize, const L: usize>() -> (c:
    ConsumerHandleImpl<T, C, S, L>)
    ensures
        c.serves(),
{
    let mut heads: Vec<ReadOnlyHead<C>> = Vec::new();
    let mut tails: Vec<RWTail<C>> = Vec::new();
    let mut i: usize = 0;
    while i < T
        invariant
            i <= T,
            heads@.len() == i,
            tails@.len() == i,
            forall|j: int| 0 <= j < i ==> #[trigger] heads@[j].slot() == j,
            forall|j: int| 0 <= j < i ==> #[trigger] tails@[j].slot() == j,
        decreases T - i,
    {
        heads.push(ReadOnlyHead::new(i));
        tails.push(RWTail::new(i));
        i = i + 1;
    }
    ConsumerHandleImpl { tails, heads, buffer: ReadOnlyBuffer::new(0) }
}

impl<const T: usize, const C: usize, const S: usize, const L: usize> __MPSCQ<T, C, S, L> {
    /// The queue's parameters agree: `T` rings of `L = 2^C` bytes, `S` bytes
    /// in all, with `C` at most 16 so that 16-bit indices address a ring.
    pub open spec fn parameters_ok() -> bool {
        &&& C <= 16
        &&& L == pow2(C as nat)
        &&& S == T * L
    }

    /// A queue whose rings are all empty, with the handles of its consumer
    /// and of each of its producers in order.
    pub open spec fn fresh_split(
        parts: (Self, ConsumerHandleImpl<T, C, S, L>, Vec<TLQ<T, C, S, L>>),
    ) -> bool {
        &&& parts.0.wf()
        &&& parts.0@ == Seq::new(T as nat, |i: int| Seq::<u8>::empty())
        &&& parts.1.serves()
        &&& parts.2@.len() == T
        &&& forall|i: int|
            0 <= i < T ==> #[trigger] parts.2@[i].valid() && parts.2@[i].producer_id() == i
        &&& forall|i: int|
            0 <= i < T ==> #[trigger] parts.0.head_index(i) == 0 && parts.0.tail_index(i) == 0
    }

    /// Memory for the queue: its buffer and its index tables, with contents
    /// that callers must not rely on.
    fn allocate_memory() -> (q: Self)
        requires
            Self::parameters_ok(),
        ensures
            q.shape(),
    {
        __MPSCQ { buffer: vec![0u8; S], tails: vec![0u16; T], heads: vec![0u16; T] }
    }

    /// Moves every head and tail to the start of its ring, which empties
    /// every ring, and leaves the buffer as it is.
    fn zero_heads_and_tails(&mut self)
        requires
            old(self).shape(),
        ensures
            final(self).wf(),
            final(self)@ == Seq::new(T as nat, |i: int| Seq::<u8>::empty()),
            forall|i: int|
                0 <= i < T ==> #[trigger] final(self).head_index(i) == 0 && final(self).tail_index(
                    i,
                ) == 0,
            forall|i: int| 0 <= i < T ==> #[trigger] final(self).region(i) == old(self).region(i),
    {
        let mut i: usize = 0;
        while i < T
            invariant
                i <= T,
                self.shape(),
                self.buffer == old(self).buffer,
                forall|j: int| 0 <= j < i ==> #[trigger] self.heads@[j] == 0,
                forall|j: int| 0 <= j < i ==> #[trigger] self.tails@[j] == 0,
            decreases T - i,
        {
            self.tails.set(i, 0);
            self.heads.set(i, 0);
            i = i + 1;
        }
        proof {
            lemma_pow2_pos(C as nat);
            assert forall|i: int| 0 <= i < T implies #[trigger] self@[i] == Seq::<u8>::empty() by {
                assert(self.heads@[i] == 0 && self.tails@[i] == 0);
                assert(self.contents(i) =~= Seq::<u8>::empty());
            }
            assert(self@ =~= Seq::new(T as nat, |i: int| Seq::<u8>::empty()));
            assert forall|i: int| 0 <= i < T implies #[trigger] self.head_index(i) == 0
                && self.tail_index(i) == 0 by {
                assert(self.heads@[i] == 0 && self.tails@[i] == 0);
            }
        }
    }

    /// Splits the queue's memory, of any contents, into the consumer's handle
    /// and the producers' handles, after moving every head and tail to the
    /// start of its ring.
    fn split(self) -> (parts: (Self, ConsumerHandleImpl<T, C, S, L>, Vec<TLQ<T, C, S, L>>))
        requires
            self.shape(),
        ensures
            Self::fresh_split(parts),
            forall|i: int| 0 <= i < T ==> #[trigger] parts.0.region(i) == self.region(i),
    {
        let mut q = self;
        q.zero_heads_and_tails();
        let mut producers: Vec<TLQ<T, C, S, L>> = Vec::new();
        let mut i: usize = 0;
        while i < T
            invariant
                i <= T,
                q.wf(),
                producers@.len() == i,
                forall|j: int|
                    0 <= j < i ==> #[trigger] producers@[j].valid() && producers@[j].producer_id()
                        == j,
            decreases T - i,
        {
            producers.push(prod_handle(i));
            i = i + 1;
        }
        let consumer = cons_handle();
        (q, consumer, producers)
    }

    /// The number of bytes of the queue's memory: its `S` ring bytes, and a
    /// 16-bit head and a 16-bit tail for each of its `T` producers.
    pub open spec fn spec_layout() -> int {
        S + 4 * T
    }

    /// Returns the number of bytes of the queue's memory, which the queue
    /// asks its allocator for.
    pub fn layout() -> (size: usize)
        requires
            Self::spec_layout() <= usize::MAX,
        ensures
            size == Self::spec_layout(),
    {
        S + 4 * T
    }

    /// Creates a queue with empty rings from the region that an allocator
    /// granted: fails with the allocator's error where it refused.
    pub fn split_view_from_grant(grant: Result<Region, AllocError>) -> (r: Result<
        (Self, ConsumerHandleImpl<T, C, S, L>, Vec<TLQ<T, C, S, L>>),
        AllocError,
    >)
        requires
            Self::parameters_ok(),
        ensures
            match grant {
                Ok(_) => r is Ok && Self::fresh_split(r->Ok_0),
                Err(e) => r == Err::<
                    (Self, ConsumerHandleImpl<T, C, S, L>, Vec<TLQ<T, C, S, L>>),
                    AllocError,
                >(e),
            },
    {
        match grant {
            Ok(_) => Ok(Self::allocate_memory().split()),
            Err(e) => Err(e),
        }
    }

    /// Creates a queue with empty rings, asking `alloc` for the bytes of the
    /// queue's memory; fails where the allocator refuses.
    pub fn split_view_with_allocator<A: ThreadSafeAlloc>(alloc: A) -> (r: Result<
        (Self, ConsumerHandleImpl<T, C, S, L>, Vec<TLQ<T, C, S, L>>),
        AllocError,
    >)
        requires
            Self::parameters_ok(),
            Self::spec_layout() <= usize::MAX,
        ensures
            r matches Ok(parts) ==> Self::fresh_split(parts),
            exists|grant: Result<Region, AllocError>|
                #[trigger] call_ensures(
                    A::allocate,
                    (&alloc, Self::spec_layout() as usize),
                    grant,
                ) && match grant {
                    Ok(_) => r is Ok,
                    Err(e) => r == Err::<
                        (Self, ConsumerHandleImpl<T, C, S, L>, Vec<TLQ<T, C, S, L>>),
                        AllocError,
                    >(e),
                },
    {
        let size = Self::layout();
        let grant = alloc.allocate(size);
        assert(call_ensures(A::allocate, (&alloc, size), grant));
        Self::split_view_from_grant(grant)
    }

    /// Creates a queue with empty rings.
    pub fn split_view_default() -> (parts: (Self, ConsumerHandleImpl<T, C, S, L>, Vec<TLQ<T, C, S, L>>))
        requires
            Self::parameters_ok(),
        ensures
            Self::fresh_split(parts),
    {
        Self::allocate_memory().split()
    }
}

} // verus!
