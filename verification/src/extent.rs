//! Runs of bytes in the address space.

use vstd::prelude::*;

verus! {

/// The `len` bytes from `start` on.
#[derive(Debug, Clone, Copy, PartialEq, Eq)]
pub struct Extent {
    pub start: usize,
    pub len: usize,
}

impl Extent {
    /// The address one past the last byte.
    pub open spec fn end(self) -> int {
        self.start + self.len
    }

    /// Whether the `size` bytes from `ptr` on all lie in the extent.
    pub open spec fn holds(self, ptr: int, size: int) -> bool {
        self.start <= ptr && ptr + size <= self.end()
    }

    /// Whether the two extents have no byte in common.
    pub open spec fn is_apart_from(self, other: Extent) -> bool {
        self.len == 0 || other.len == 0 || self.end() <= other.start || other.end() <= self.start
    }

    /// Tells whether the `size` bytes from `ptr` on all lie in the extent.
    pub fn contains(&self, ptr: usize, size: usize) -> (r: bool)
        requires
            self.end() <= usize::MAX,
        ensures
            r == self.holds(ptr as int, size as int),
    {
        self.start <= ptr && ptr - self.start <= self.len && size <= self.len - (ptr - self.start)
    }

    /// Tells whether the two extents have no byte in common.
    pub fn misses(&self, other: &Extent) -> (r: bool)
        requires
            self.end() <= usize::MAX,
            other.end() <= usize::MAX,
        ensures
            r == self.is_apart_from(*other),
    {
        self.len == 0 || other.len == 0 || self.start + self.len <= other.start || other.start
            + other.len <= self.start
    }
}

} // verus!
