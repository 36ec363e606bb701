use vstd::prelude::*;

verus! {

/// Everything a book operation can fail with. One byte, `Copy`, no allocation.
#[derive(Copy, Clone, Debug, PartialEq, Eq, Structural)]
pub enum BookError {
    /// The handle or id handed to a cancel names no resting order.
    OrderNotFound,
    /// No free slot is left to rest the remainder of a limit order in.
    SlabFull,
    /// A price level was found with an empty queue.
    EmptyLevel,
    /// The best price named a level that does not exist.
    MissingLevel,
    /// The requested slab allocator is not available here.
    UnsupportedAllocator,
}

pub type BookResult<T> = core::result::Result<T, BookError>;

} // verus!
