//! A heap behind a spin lock, for use from more than one place at a time.

use crate::heap::{classify, usable_bounds, Heap, HeapView, MIN_HEAP_SIZE};
use crate::layout::Layout;
use vstd::prelude::*;

verus! {

/// The lock of the `spin` crate. What it guards is out of Verus's sight.
#[verifier::external_type_specification]
#[verifier::external_body]
#[verifier::reject_recursive_types(T)]
#[verifier::reject_recursive_types(R)]
pub struct ExMutex<T: ?Sized, R>(spin::mutex::Mutex<T, R>);

/// The guard that `spin`'s lock hands out while it is held.
#[verifier::external_type_specification]
#[verifier::external_body]
#[verifier::reject_recursive_types(T)]
pub struct ExMutexGuard<'a, T: 'a + ?Sized>(spin::mutex::MutexGuard<'a, T>);

/// The way in which `spin`'s lock waits: it spins.
#[verifier::external_type_specification]
#[verifier::external_body]
pub struct ExSpin(spin::relax::Spin);

/// Calls `spin::Mutex::new`: a lock that guards `slot`. Nothing is claimed of the lock:
/// what it guards is seen again only through a guard.
#[verifier::external_body]
fn mutex_new(slot: Option<Heap>) -> (mutex: spin::Mutex<Option<Heap>>) {
    spin::Mutex::new(slot)
}

/// Calls `spin::Mutex::lock`: spins until the lock is free and takes it; the lock is
/// free again when the guard is let go. Nothing is claimed of what the guard gives
/// access to: another holder may have changed it. The call does not come back while
/// the lock is held; this library holds it for the length of one call, and never asks
/// for it while it holds it.
#[verifier::external_body]
fn mutex_lock<'a>(mutex: &'a spin::Mutex<Option<Heap>>) -> (guard: spin::MutexGuard<
    'a,
    Option<Heap>,
>) {
    mutex.lock()
}

/// Calls `deref_mut` of `spin::MutexGuard`: the access to what the lock guards.
/// Nothing is claimed of the value found there.
#[verifier::external_body]
fn guard_slot<'a, 'b>(guard: &'b mut spin::MutexGuard<'a, Option<Heap>>) -> (slot: &'b mut Option<
    Heap,
>) {
    core::ops::DerefMut::deref_mut(guard)
}

/// Why a locked heap did not do what it was asked.
#[derive(Debug, Clone, Copy, PartialEq, Eq)]
pub enum LockedHeapError {
    /// The heap was not initialized yet.
    Uninitialized,
    /// The heap has no free memory that fits the request.
    OutOfMemory,
    /// The heap does not take back what it was handed.
    NotAllocated,
}

/// What is known of an address that a heap handed out for `layout`: it is not null, a
/// multiple of the block size where a slab served it, and a multiple of the alignment
/// asked for, unless that is above 4096 while the size is not.
pub open spec fn is_placed(ptr: usize, layout: Layout) -> bool {
    &&& ptr != 0
    &&& classify(layout).block_size() matches Some(block_size) ==> ptr % block_size == 0
    &&& layout.align() <= 4096 || layout.size() > 4096 ==> ptr % layout.align() == 0
}

/// What is known of an address that a heap took back for `layout`: it is not null, and
/// a multiple of the block size where a slab took it.
pub open spec fn is_returnable(ptr: usize, layout: Layout) -> bool {
    &&& ptr != 0
    &&& classify(layout).block_size() matches Some(block_size) ==> ptr % block_size == 0
}

/// A heap that takes the allocation at `ptr` back took a returnable address.
pub proof fn lemma_released_is_returnable(heap: HeapView, ptr: usize, layout: Layout)
    requires
        heap.wf(),
        heap.can_release(ptr, layout),
    ensures
        is_returnable(ptr, layout),
{
}

/// A heap that is created empty, initialized once, and used under a lock from then on.
pub struct LockedHeap(spin::Mutex<Option<Heap>>);

impl LockedHeap {
    /// A locked heap without a heap in it. Every request fails until [`LockedHeap::init`]
    /// was called.
    pub fn empty() -> LockedHeap {
        LockedHeap(mutex_new(None))
    }

    /// Puts a new heap over `[heap_start_addr, heap_start_addr + size)` in the place of
    /// whatever was there. The demands are those of [`Heap::new`].
    pub fn init(&self, heap_start_addr: usize, size: usize)
        requires
            heap_start_addr > 0,
            heap_start_addr % 4096 == 0,
            size >= MIN_HEAP_SIZE,
            size % MIN_HEAP_SIZE == 0,
            heap_start_addr + size <= usize::MAX,
    {
        let mut guard = mutex_lock(&self.0);
        let slot = guard_slot(&mut guard);
        *slot = Some(Heap::new(heap_start_addr, size));
    }

    /// A locked heap over `[heap_start_addr, heap_start_addr + heap_size)`, initialized.
    /// The demands are those of [`Heap::new`].
    pub fn new(heap_start_addr: usize, heap_size: usize) -> LockedHeap
        requires
            heap_start_addr > 0,
            heap_start_addr % 4096 == 0,
            heap_size >= MIN_HEAP_SIZE,
            heap_size % MIN_HEAP_SIZE == 0,
            heap_start_addr + heap_size <= usize::MAX,
    {
        LockedHeap(mutex_new(Some(Heap::new(heap_start_addr, heap_size))))
    }

    /// Takes the lock and allocates: see [`LockedHeap::allocate_in`]. The state of the
    /// heap is known to no caller, so only this is said of the result: an address that
    /// comes back is placed as `layout` asks.
    pub fn allocate(&self, layout: Layout) -> (r: Result<usize, LockedHeapError>)
        ensures
            r matches Ok(ptr) ==> is_placed(ptr, layout),
            r matches Err(e) ==> e != LockedHeapError::NotAllocated,
    {
        let mut guard = mutex_lock(&self.0);
        let slot = guard_slot(&mut guard);
        LockedHeap::allocate_in(slot, layout)
    }

    /// Takes the lock and hands the allocation at `ptr` back: see
    /// [`LockedHeap::deallocate_in`]. The state of the heap is known to no caller, so
    /// only this is said of the result: the heap takes back nothing but a returnable
    /// address, and does not fail for want of memory.
    pub fn deallocate(&self, ptr: usize, layout: Layout) -> (r: Result<(), LockedHeapError>)
        ensures
            r is Ok ==> is_returnable(ptr, layout),
            r matches Err(e) ==> e != LockedHeapError::OutOfMemory,
    {
        let mut guard = mutex_lock(&self.0);
        let slot = guard_slot(&mut guard);
        LockedHeap::deallocate_in(slot, ptr, layout)
    }

    /// Takes the lock and asks for the usable size: see [`LockedHeap::usable_size_in`].
    pub fn usable_size(&self, layout: &Layout) -> (r: Result<(usize, usize), LockedHeapError>)
        ensures
            r matches Ok(bounds) ==> bounds == usable_bounds(*layout),
            r matches Err(e) ==> e == LockedHeapError::Uninitialized,
    {
        let mut guard = mutex_lock(&self.0);
        let slot = guard_slot(&mut guard);
        LockedHeap::usable_size_in(slot, layout)
    }

    /// Takes the lock and allocates as a process-wide allocator does: see
    /// [`LockedHeap::alloc_or_null_in`]. The null address stands for a failed allocation.
    pub fn alloc_or_null(&self, layout: Layout) -> (r: Result<usize, LockedHeapError>)
        ensures
            r matches Ok(ptr) ==> ptr == 0 || is_placed(ptr, layout),
            r matches Err(e) ==> e == LockedHeapError::Uninitialized,
    {
        let mut guard = mutex_lock(&self.0);
        let slot = guard_slot(&mut guard);
        LockedHeap::alloc_or_null_in(slot, layout)
    }

    /// Takes the lock and hands `ptr` back as a process-wide allocator does: see
    /// [`LockedHeap::dealloc_in`]. The state of the heap is known to no caller, so only
    /// this is said of the result: the null address is never refused by an initialized
    /// heap, and any other address is taken back only if it is returnable.
    pub fn dealloc(&self, ptr: usize, layout: Layout) -> (r: Result<(), LockedHeapError>)
        ensures
            r is Ok ==> ptr == 0 || is_returnable(ptr, layout),
            ptr == 0 ==> r != Err::<(), _>(LockedHeapError::NotAllocated),
            r matches Err(e) ==> e != LockedHeapError::OutOfMemory,
    {
        let mut guard = mutex_lock(&self.0);
        let slot = guard_slot(&mut guard);
        LockedHeap::dealloc_in(slot, ptr, layout)
    }

    /// Allocates from the heap in `slot`, if there is one.
    pub fn allocate_in(slot: &mut Option<Heap>, layout: Layout) -> (r: Result<
        usize,
        LockedHeapError,
    >)
        ensures
            match *old(slot) {
                None => *final(slot) is None && r == Err::<usize, _>(LockedHeapError::Uninitialized),
                Some(heap) => {
                    &&& *final(slot) matches Some(after) && after@ == heap@.allocate(layout).0
                    &&& match heap@.allocate(layout).1 {
                        Ok(ptr) => r == Ok::<_, LockedHeapError>(ptr) && is_placed(ptr, layout),
                        Err(_) => r == Err::<usize, _>(LockedHeapError::OutOfMemory),
                    }
                },
            },
    {
        match slot {
            Some(heap) => match heap.allocate(layout) {
                Ok(ptr) => Ok(ptr),
                Err(_) => Err(LockedHeapError::OutOfMemory),
            },
            None => Err(LockedHeapError::Uninitialized),
        }
    }

    /// Hands the allocation at `ptr` back to the heap in `slot`, if there is one and it
    /// takes it.
    pub fn deallocate_in(slot: &mut Option<Heap>, ptr: usize, layout: Layout) -> (r: Result<
        (),
        LockedHeapError,
    >)
        ensures
            match *old(slot) {
                None => *final(slot) is None && r == Err::<(), _>(LockedHeapError::Uninitialized),
                Some(heap) => *final(slot) matches Some(after) && if heap@.can_release(ptr, layout) {
                    after@ == heap@.deallocate(ptr, layout) && r == Ok::<_, LockedHeapError>(())
                } else {
                    after@ == heap@ && r == Err::<(), _>(LockedHeapError::NotAllocated)
                },
            },
            r is Ok ==> is_returnable(ptr, layout),
    {
        match slot {
            Some(heap) => {
                if heap.can_deallocate(ptr, layout) {
                    proof {
                        lemma_released_is_returnable(heap@, ptr, layout);
                    }
                    heap.deallocate(ptr, layout);
                    Ok(())
                } else {
                    Err(LockedHeapError::NotAllocated)
                }
            },
            None => Err(LockedHeapError::Uninitialized),
        }
    }

    /// The usable size that the heap in `slot` gives for `layout`, if there is a heap.
    pub fn usable_size_in(slot: &Option<Heap>, layout: &Layout) -> (r: Result<
        (usize, usize),
        LockedHeapError,
    >)
        ensures
            r == (if slot is Some {
                Ok::<_, LockedHeapError>(usable_bounds(*layout))
            } else {
                Err(LockedHeapError::Uninitialized)
            }),
    {
        match slot {
            Some(heap) => Ok(heap.usable_size(layout)),
            None => Err(LockedHeapError::Uninitialized),
        }
    }

    /// Allocates from the heap in `slot` as a process-wide allocator does: a request
    /// that the heap cannot serve gives the null address.
    pub fn alloc_or_null_in(slot: &mut Option<Heap>, layout: Layout) -> (r: Result<usize, LockedHeapError>)
        ensures
            match *old(slot) {
                None => *final(slot) is None && r == Err::<usize, _>(LockedHeapError::Uninitialized),
                Some(heap) => {
                    &&& *final(slot) matches Some(after) && after@ == heap@.allocate(layout).0
                    &&& match heap@.allocate(layout).1 {
                        Ok(ptr) => r == Ok::<_, LockedHeapError>(ptr) && is_placed(ptr, layout),
                        Err(_) => r == Ok::<_, LockedHeapError>(0usize),
                    }
                },
            },
    {
        match LockedHeap::allocate_in(slot, layout) {
            Ok(ptr) => Ok(ptr),
            Err(LockedHeapError::Uninitialized) => Err(LockedHeapError::Uninitialized),
            Err(_) => Ok(0),
        }
    }

    /// Hands `ptr` back to the heap in `slot` as a process-wide allocator does: the
    /// null address is handed back to nobody.
    pub fn dealloc_in(slot: &mut Option<Heap>, ptr: usize, layout: Layout) -> (r: Result<
        (),
        LockedHeapError,
    >)
        ensures
            match *old(slot) {
                None => *final(slot) is None && r == Err::<(), _>(LockedHeapError::Uninitialized),
                Some(heap) => *final(slot) matches Some(after) && if ptr == 0 {
                    after@ == heap@ && r == Ok::<_, LockedHeapError>(())
                } else if heap@.can_release(ptr, layout) {
                    after@ == heap@.deallocate(ptr, layout) && r == Ok::<_, LockedHeapError>(())
                } else {
                    after@ == heap@ && r == Err::<(), _>(LockedHeapError::NotAllocated)
                },
            },
            r is Ok ==> ptr == 0 || is_returnable(ptr, layout),
    {
        if slot.is_none() {
            Err(LockedHeapError::Uninitialized)
        } else if ptr == 0 {
            Ok(())
        } else {
            LockedHeap::deallocate_in(slot, ptr, layout)
        }
    }
}

} // verus!
