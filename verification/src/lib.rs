//! A slab allocator over a caller-supplied address range.
//!
//! The heap splits its range into eight equal parts: seven slabs of fixed-size
//! blocks (64 to 4096 bytes) and one first-fit region for everything larger.
//! A request goes to the part that its size and alignment pick, and to no other.
//!
//! All bookkeeping is done on addresses. The library never reads or writes the
//! memory that it hands out, and keeps its free lists in memory of its own: it
//! says where an allocation lies, and the caller turns the address into a pointer.
//!
//! - [`layout`]: requests, and the error of a request that cannot be served.
//! - [`extent`]: runs of bytes in the address space.
//! - [`slab`]: the free list and the slab.
//! - [`big_region`]: the first-fit region for large requests.
//! - [`heap`]: the heap and the choice of the part that serves a request.
//! - [`locked_heap`]: the heap behind a spin lock.

pub mod big_region;
pub mod extent;
pub mod heap;
pub mod layout;
pub mod locked_heap;
pub mod slab;

pub use extent::Extent;
pub use heap::{Heap, HeapAllocator, MIN_HEAP_SIZE, MIN_SLAB_SIZE, NUM_OF_SLABS};
pub use layout::{AllocError, Layout, LayoutError};
pub use locked_heap::{LockedHeap, LockedHeapError};
