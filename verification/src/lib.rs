//! A multi-producer single-consumer byte queue made of one ring buffer per
//! producer. Each producer pushes bytes into its own ring; the consumer pops
//! them, ring by ring, in the order they were pushed. The index arithmetic,
//! the ring copies and what every operation does to the queued bytes are
//! verified.

pub mod allocator;
pub mod index;
pub mod model;
pub mod queue;
pub mod ring;

pub use allocator::{AllocError, FixedAllocStub, Region, ThreadSafeAlloc};
pub use index::{
    chunk_width, compress, decompress, fmask_udefault, queue_element_count,
    queue_leftover_capacity,
};
pub use queue::{
    ConsumerHandle, ConsumerHandleImpl, RWBuffer, RWHead, RWTail, ReadOnlyBuffer, ReadOnlyHead,
    ReadOnlyTail, Section, SectionImpl, TLQ, __MPSCQ,
};
