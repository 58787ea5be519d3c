//! Where the memory of a queue comes from.

use vstd::prelude::*;

verus! {

/// An allocator refused a request.
#[derive(Debug, Clone, Copy, PartialEq, Eq)]
pub struct AllocError;

/// A region of memory: the address it starts at and its length in bytes.
#[derive(Debug, Clone, Copy, PartialEq, Eq)]
pub struct Region {
    pub start: usize,
    pub len: usize,
}

/// An allocator that a queue and its handles can share between threads.
/// Asked for `size` bytes, it grants a region, or fails.
pub trait ThreadSafeAlloc {
    fn allocate(&self, size: usize) -> Result<Region, AllocError>;
}

/// A stub allocator that always returns the same given memory region. The
/// region is given by the `START` and `SIZE` parameters (address and length
/// of the memory region); a region at address 0 cannot be handed out.
pub struct FixedAllocStub<const START: usize, const SIZE: usize>;

impl<const START: usize, const SIZE: usize> ThreadSafeAlloc for FixedAllocStub<START, SIZE> {
    /// Hands out the fixed region whatever the size asked for.
    fn allocate(&self, size: usize) -> (r: Result<Region, AllocError>)
        ensures
            r == if START == 0 {
                Err::<Region, AllocError>(AllocError)
            } else {
                Ok((Region { start: START, len: SIZE }))
            },
    {
        if START == 0 {
            Err(AllocError)
        } else {
            Ok(Region { start: START, len: SIZE })
        }
    }
}

} // verus!
