use wfmpsc::{
    AllocError, ConsumerHandle, Region, ConsumerHandleImpl, FixedAllocStub, RWBuffer, RWHead, RWTail,
    ReadOnlyBuffer, ReadOnlyHead, ReadOnlyTail, Section, ThreadSafeAlloc, TLQ, __MPSCQ,
};

type Q = __MPSCQ<2, 4, 32, 16>;
type Cons = ConsumerHandleImpl<2, 4, 32, 16>;
type Prod = TLQ<2, 4, 32, 16>;

fn fresh() -> (Q, Cons, Vec<Prod>) {
    Q::split_view_default()
}

fn bytes(n: usize, from: u8) -> Vec<u8> {
    (0..n).map(|i| from.wrapping_add(i as u8)).collect()
}

#[test]
fn split_gives_one_handle_per_producer() {
    let (q, cons, prods) = fresh();
    assert_eq!(prods.len(), 2);
    assert_eq!(cons.get_producer_count(), 2);
    for pid in 0..2 {
        assert_eq!(prods[pid].head.read_atomic(&q), 0);
        assert_eq!(prods[pid].tail.read_atomic(&q), 0);
    }
}

#[test]
fn push_writes_what_fits() {
    let (mut q, _cons, prods) = fresh();
    assert_eq!(prods[0].push(&mut q, &bytes(10, 0)), 10);
    // the ring holds at most 15 bytes
    assert_eq!(prods[0].push(&mut q, &bytes(10, 10)), 5);
    assert_eq!(prods[0].push(&mut q, &bytes(10, 20)), 0);
    assert_eq!(prods[0].push(&mut q, &[]), 0);
    assert_eq!(prods[0].head.read_atomic(&q), 15);
}

#[test]
fn pops_give_back_pushed_bytes_in_order() {
    let (mut q, cons, prods) = fresh();
    assert_eq!(prods[0].push(&mut q, b"abc"), 3);
    assert_eq!(prods[0].push(&mut q, b"defg"), 4);
    let mut dst = [b'.'; 5];
    assert_eq!(cons.pop_into(&mut q, 0, &mut dst), 5);
    assert_eq!(&dst, b"abcde");
    let mut dst = [b'.'; 5];
    assert_eq!(cons.pop_into(&mut q, 0, &mut dst), 2);
    // bytes past the popped ones stay as they were
    assert_eq!(&dst, b"fg...");
    assert_eq!(cons.pop_into(&mut q, 0, &mut dst), 0);
}

#[test]
fn producers_do_not_see_each_other() {
    let (mut q, cons, prods) = fresh();
    assert_eq!(prods[1].push(&mut q, b"xyz"), 3);
    let mut dst = [0u8; 8];
    assert_eq!(cons.pop_into(&mut q, 0, &mut dst), 0);
    assert_eq!(prods[0].push(&mut q, b"12"), 2);
    assert_eq!(cons.pop_into(&mut q, 1, &mut dst), 3);
    assert_eq!(&dst[..3], b"xyz");
    assert_eq!(cons.pop_into(&mut q, 0, &mut dst), 2);
    assert_eq!(&dst[..2], b"12");
}

#[test]
fn push_and_pop_wrap_round_the_ring() {
    let (mut q, cons, prods) = fresh();
    let mut dst = [0u8; 16];
    assert_eq!(prods[0].push(&mut q, &bytes(10, 0)), 10);
    assert_eq!(cons.pop_into(&mut q, 0, &mut dst), 10);
    // head and tail at 10: the next 12 bytes go round the end of the ring
    let data = bytes(12, 100);
    assert_eq!(prods[0].push(&mut q, &data), 12);
    assert_eq!(prods[0].head.read_atomic(&q), 6);
    assert_eq!(cons.pop_into(&mut q, 0, &mut dst), 12);
    assert_eq!(&dst[..12], &data[..]);
    assert_eq!(prods[0].tail.read_atomic(&q), 6);
}

#[test]
fn pop_section_stops_at_the_end_of_the_ring() {
    let (mut q, cons, prods) = fresh();
    let mut dst = [0u8; 16];
    assert_eq!(prods[1].push(&mut q, &bytes(10, 0)), 10);
    assert_eq!(cons.pop_into(&mut q, 1, &mut dst), 10);
    let data = bytes(12, 50);
    assert_eq!(prods[1].push(&mut q, &data), 12);
    {
        let mut sec = cons.pop(&mut q, 1);
        assert_eq!(sec.get_buffer(), &data[..6]);
    }
    {
        let mut sec = cons.pop(&mut q, 1);
        assert_eq!(sec.get_buffer(), &data[6..]);
    }
    let mut sec = cons.pop(&mut q, 1);
    assert_eq!(sec.get_buffer().len(), 0);
}

#[test]
fn round_trip_from_empty_keeps_first_bytes() {
    let (mut q, cons, prods) = fresh();
    let data = bytes(40, 7);
    assert_eq!(prods[0].push(&mut q, &data), 15);
    let mut dst = [0u8; 40];
    assert_eq!(cons.pop_into(&mut q, 0, &mut dst), 15);
    assert_eq!(&dst[..15], &data[..15]);
}

#[test]
fn index_handles_read_and_move_indices() {
    let (mut q, _cons, _prods) = fresh();
    let head = RWHead::<4>::new(1);
    let tail = RWTail::<4>::new(1);
    head.store_atomic(&mut q, 9);
    tail.store_atomic(&mut q, 4);
    assert_eq!(head.read_atomic(&q), 9);
    assert_eq!(tail.read_atomic(&q), 4);
    assert_eq!(ReadOnlyHead::<4>::new(1).read_atomic(&q), 9);
    assert_eq!(ReadOnlyTail::<4>::new(1).read_atomic(&q), 4);
    assert_eq!(ReadOnlyHead::<4>::new(0).read_atomic(&q), 0);
}

#[test]
fn buffer_handles_locate_rings() {
    let whole = ReadOnlyBuffer::<4, 64, 16>::new(0);
    assert_eq!(whole.tlq_base_ptr(0), 0);
    assert_eq!(whole.tlq_base_ptr(2), 32);
    assert_eq!(ReadOnlyBuffer::<4, 64, 16>::new(100).tlq_base_ptr(3), 148);
    let _ring = RWBuffer::<16>::new(32);
}

#[test]
fn fixed_stub_allocates_unless_at_null() {
    assert_eq!(
        FixedAllocStub::<4096, 64>.allocate(32),
        Ok(Region { start: 4096, len: 64 })
    );
    assert_eq!(
        FixedAllocStub::<4096, 64>.allocate(8),
        Ok(Region { start: 4096, len: 64 })
    );
    assert_eq!(FixedAllocStub::<0, 16>.allocate(8), Err(AllocError));
}

#[test]
fn split_with_allocator_fails_when_allocator_fails() {
    assert!(Q::split_view_with_allocator(FixedAllocStub::<0, 32>).is_err());
    let (mut q, cons, prods) = Q::split_view_with_allocator(FixedAllocStub::<4096, 32>).unwrap();
    assert_eq!(prods[1].push(&mut q, b"ok"), 2);
    let mut dst = [0u8; 2];
    assert_eq!(cons.pop_into(&mut q, 1, &mut dst), 2);
    assert_eq!(&dst, b"ok");
}

#[test]
fn split_from_grant_follows_the_grant() {
    assert!(matches!(Q::split_view_from_grant(Err(AllocError)), Err(AllocError)));
    let (_q, cons, prods) = Q::split_view_from_grant(Ok(Region { start: 64, len: 32 })).unwrap();
    assert_eq!(prods.len(), 2);
    assert_eq!(cons.get_producer_count(), 2);
}

#[test]
fn consecutive_pushes_concatenate() {
    let (mut q, cons, prods) = fresh();
    prods[0].push(&mut q, b"one");
    prods[0].push(&mut q, b"two");
    prods[0].push(&mut q, b"three");
    let mut dst = [0u8; 15];
    assert_eq!(cons.pop_into(&mut q, 0, &mut dst), 11);
    assert_eq!(&dst[..11], b"onetwothree");
}

#[test]
fn sixteen_bit_queue_pushes_and_pops() {
    let (mut q, cons, prods) = __MPSCQ::<1, 16, 65536, 65536>::split_view_default();
    assert_eq!(prods[0].push(&mut q, b"x"), 1);
    let mut dst = [0u8; 1];
    assert_eq!(cons.pop_into(&mut q, 0, &mut dst), 1);
    assert_eq!(&dst, b"x");
    // the ring holds at most 2^16 - 1 bytes
    let big = vec![1u8; 70000];
    assert_eq!(prods[0].push(&mut q, &big), 65535);
    assert_eq!(prods[0].head.read_atomic(&q), 0);
    assert_eq!(prods[0].tail.read_atomic(&q), 1);
    let mut sec = cons.pop(&mut q, 0);
    assert_eq!(sec.get_buffer().len(), 65535);
}

#[test]
fn new_queue_starts_every_index_at_zero() {
    let (q, cons, prods) = Q::split_view_default();
    for pid in 0..cons.get_producer_count() {
        assert_eq!(prods[pid].head.read_atomic(&q), 0);
        assert_eq!(prods[pid].tail.read_atomic(&q), 0);
    }
}

#[test]
fn wrapping_push_then_two_sections() {
    let (mut q, cons, prods) = __MPSCQ::<1, 4, 16, 16>::split_view_default();
    assert_eq!(prods[0].push(&mut q, b"0123456789"), 10);
    let mut dst = [0u8; 10];
    assert_eq!(cons.pop_into(&mut q, 0, &mut dst), 10);
    assert_eq!(prods[0].push(&mut q, b"ABCDEFGHIJ"), 10);
    assert_eq!(prods[0].head.read_atomic(&q), 4);
    {
        let mut s = cons.pop(&mut q, 0);
        assert_eq!(s.get_buffer(), b"ABCDEF");
    }
    {
        let mut s = cons.pop(&mut q, 0);
        assert_eq!(s.get_buffer(), b"GHIJ");
    }
    let mut dst = [0u8; 16];
    assert_eq!(cons.pop_into(&mut q, 0, &mut dst), 0);
}

#[test]
fn layout_counts_ring_bytes_and_indices() {
    assert_eq!(Q::layout(), 32 + 4 * 2);
    assert_eq!(__MPSCQ::<9, 16, { 9 << 16 }, { 1 << 16 }>::layout(), (9 << 16) + 36);
}

#[test]
fn index_stores_read_back_any_value() {
    let (mut q, _cons, _prods) = fresh();
    let head = RWHead::<4>::new(0);
    let tail = RWTail::<4>::new(0);
    head.store_atomic(&mut q, 40000);
    tail.store_atomic(&mut q, 65535);
    assert_eq!(head.read_atomic(&q), 40000);
    assert_eq!(ReadOnlyHead::<4>::new(0).read_atomic(&q), 40000);
    assert_eq!(tail.read_atomic(&q), 65535);
    assert_eq!(ReadOnlyTail::<4>::new(0).read_atomic(&q), 65535);
}
