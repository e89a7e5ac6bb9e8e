use slab_allocator::{Heap, Layout, LockedHeap, LockedHeapError};
use std::mem::{align_of, size_of};

const HEAP_START: usize = 0x10_0000;
const HEAP_SIZE: usize = 8 * 4096;

fn new_locked_heap() -> LockedHeap {
    let locked_heap = LockedHeap::empty();
    locked_heap.init(HEAP_START, HEAP_SIZE);
    locked_heap
}

fn layout(size: usize, align: usize) -> Layout {
    Layout::from_size_align(size, align).unwrap()
}

#[test]
fn locked_heap_allocate_multiple_sizes() {
    let heap = new_locked_heap();
    let base_size = size_of::<u64>();
    let base_align = align_of::<u64>();

    let layout_1 = Layout::from_size_align(base_size * 2, base_align).unwrap();
    let layout_2 = Layout::from_size_align(base_size * 3, base_align).unwrap();
    let layout_3 = Layout::from_size_align(base_size * 3, base_align * 8).unwrap();
    let layout_4 = Layout::from_size_align(base_size * 10, base_align).unwrap();

    let x = heap.alloc_or_null(layout_1.clone()).unwrap();
    let y = heap.alloc_or_null(layout_2.clone()).unwrap();
    assert_eq!(x + 64, y);
    let z = heap.alloc_or_null(layout_3.clone()).unwrap();
    assert_eq!(z % (base_size * 8), 0);

    heap.dealloc(x, layout_1.clone()).unwrap();

    let a = heap.alloc_or_null(layout_4.clone()).unwrap();
    let b = heap.alloc_or_null(layout_1.clone()).unwrap();
    assert_eq!(a, x + 4096);
    assert_eq!(x, b);

    heap.dealloc(y, layout_2).unwrap();
    heap.dealloc(z, layout_3).unwrap();
    heap.dealloc(a, layout_4).unwrap();
    heap.dealloc(b, layout_1).unwrap();
}

#[test]
fn empty_locked_heap_serves_nothing() {
    let heap = LockedHeap::empty();
    let request = layout(16, 8);
    assert_eq!(heap.allocate(request), Err(LockedHeapError::Uninitialized));
    assert_eq!(heap.alloc_or_null(request), Err(LockedHeapError::Uninitialized));
    assert_eq!(heap.deallocate(HEAP_START, request), Err(LockedHeapError::Uninitialized));
    assert_eq!(heap.dealloc(HEAP_START, request), Err(LockedHeapError::Uninitialized));
    assert_eq!(heap.dealloc(0, request), Err(LockedHeapError::Uninitialized));
    assert_eq!(heap.usable_size(&request), Err(LockedHeapError::Uninitialized));
}

#[test]
fn locked_heap_serves_after_init() {
    let heap = LockedHeap::empty();
    heap.init(HEAP_START, HEAP_SIZE);
    assert_eq!(heap.allocate(layout(16, 8)), Ok(HEAP_START));
    assert_eq!(heap.allocate(layout(80, 8)), Ok(HEAP_START + 4096));
    assert_eq!(heap.usable_size(&layout(80, 8)), Ok((80, 128)));
}

#[test]
fn new_locked_heap_is_initialized() {
    let heap = LockedHeap::new(HEAP_START, HEAP_SIZE);
    assert_eq!(heap.allocate(layout(16, 8)), Ok(HEAP_START));
    assert_eq!(heap.allocate(layout(24, 8)), Ok(HEAP_START + 64));
    assert_eq!(heap.deallocate(HEAP_START, layout(16, 8)), Ok(()));
    assert_eq!(heap.allocate(layout(16, 8)), Ok(HEAP_START));
}

#[test]
fn second_init_starts_over() {
    let heap = new_locked_heap();
    assert_eq!(heap.allocate(layout(16, 8)), Ok(HEAP_START));
    heap.init(2 * HEAP_START, 2 * HEAP_SIZE);
    assert_eq!(heap.allocate(layout(16, 8)), Ok(2 * HEAP_START));
    assert_eq!(heap.allocate(layout(80, 8)), Ok(2 * HEAP_START + 2 * 4096));
}

#[test]
fn locked_heap_reports_exhaustion() {
    let heap = new_locked_heap();
    assert_eq!(heap.allocate(layout(HEAP_SIZE + 1, 8)), Err(LockedHeapError::OutOfMemory));
    assert_eq!(heap.allocate(layout(4096, 8)), Ok(HEAP_START + 6 * 4096));
    assert_eq!(heap.allocate(layout(4096, 8)), Err(LockedHeapError::OutOfMemory));
}

#[test]
fn failed_process_wide_allocation_is_null() {
    let heap = new_locked_heap();
    assert_eq!(heap.alloc_or_null(layout(HEAP_SIZE + 1, 8)), Ok(0));
    assert_eq!(heap.alloc_or_null(layout(4096, 8)), Ok(HEAP_START + 6 * 4096));
    assert_eq!(heap.alloc_or_null(layout(4096, 8)), Ok(0));
}

#[test]
fn null_is_handed_back_to_nobody() {
    let heap = new_locked_heap();
    let request = layout(16, 8);
    assert_eq!(heap.dealloc(0, request), Ok(()));
    assert_eq!(heap.deallocate(0, request), Err(LockedHeapError::NotAllocated));
    assert_eq!(heap.allocate(request), Ok(HEAP_START));
}

#[test]
fn locked_heap_refuses_what_it_did_not_hand_out() {
    let heap = new_locked_heap();
    let request = layout(16, 8);
    assert_eq!(heap.deallocate(HEAP_START, request), Err(LockedHeapError::NotAllocated));
    assert_eq!(heap.dealloc(HEAP_START, request), Err(LockedHeapError::NotAllocated));
    let ptr = heap.allocate(request).unwrap();
    assert_eq!(heap.deallocate(ptr + 8, request), Err(LockedHeapError::NotAllocated));
    assert_eq!(heap.deallocate(ptr, request), Ok(()));
    assert_eq!(heap.deallocate(ptr, request), Err(LockedHeapError::NotAllocated));
    let large = layout(8192, 8);
    assert_eq!(heap.dealloc(HEAP_START + 7 * 4096, large), Err(LockedHeapError::NotAllocated));
}

#[test]
fn locked_heap_reuses_a_block() {
    let heap = new_locked_heap();
    let request = layout(2 * size_of::<usize>(), align_of::<usize>());
    let x = heap.allocate(request).unwrap();
    heap.deallocate(x, request).unwrap();
    let y = heap.allocate(request).unwrap();
    assert_eq!(x, y);
}

#[test]
fn slot_without_a_heap_stays_empty() {
    let mut slot: Option<Heap> = None;
    let request = layout(16, 8);
    assert_eq!(LockedHeap::allocate_in(&mut slot, request), Err(LockedHeapError::Uninitialized));
    assert_eq!(
        LockedHeap::alloc_or_null_in(&mut slot, request),
        Err(LockedHeapError::Uninitialized)
    );
    assert_eq!(
        LockedHeap::deallocate_in(&mut slot, HEAP_START, request),
        Err(LockedHeapError::Uninitialized)
    );
    assert_eq!(
        LockedHeap::dealloc_in(&mut slot, 0, request),
        Err(LockedHeapError::Uninitialized)
    );
    assert_eq!(
        LockedHeap::usable_size_in(&slot, &request),
        Err(LockedHeapError::Uninitialized)
    );
    assert!(slot.is_none());
}

#[test]
fn slot_with_a_heap_serves_from_it() {
    let mut slot = Some(Heap::new(HEAP_START, HEAP_SIZE));
    let request = layout(300, 8);
    assert_eq!(LockedHeap::usable_size_in(&slot, &request), Ok((300, 512)));
    assert_eq!(LockedHeap::allocate_in(&mut slot, request), Ok(HEAP_START + 3 * 4096));
    assert_eq!(
        LockedHeap::alloc_or_null_in(&mut slot, request),
        Ok(HEAP_START + 3 * 4096 + 512)
    );
    assert_eq!(
        LockedHeap::deallocate_in(&mut slot, HEAP_START + 3 * 4096 + 8, request),
        Err(LockedHeapError::NotAllocated)
    );
    assert_eq!(LockedHeap::deallocate_in(&mut slot, HEAP_START + 3 * 4096, request), Ok(()));
    assert_eq!(LockedHeap::dealloc_in(&mut slot, 0, request), Ok(()));
    assert_eq!(LockedHeap::dealloc_in(&mut slot, HEAP_START + 3 * 4096 + 512, request), Ok(()));
    assert_eq!(LockedHeap::allocate_in(&mut slot, request), Ok(HEAP_START + 3 * 4096 + 512));
    let mut heap = slot.unwrap();
    assert_eq!(heap.allocate(request), Ok(HEAP_START + 3 * 4096));
}

#[test]
fn slot_maps_exhaustion_to_its_own_error_and_to_null() {
    let mut slot = Some(Heap::new(HEAP_START, HEAP_SIZE));
    let request = layout(HEAP_SIZE + 1, 8);
    assert_eq!(LockedHeap::allocate_in(&mut slot, request), Err(LockedHeapError::OutOfMemory));
    assert_eq!(LockedHeap::alloc_or_null_in(&mut slot, request), Ok(0));
}
