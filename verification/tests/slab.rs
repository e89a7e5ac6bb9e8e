use slab_allocator::slab::{FreeBlock, FreeBlockList, Slab};
use slab_allocator::{AllocError, Extent, Layout};

fn any_layout() -> Layout {
    Layout::from_size_align(16, 8).unwrap()
}

#[test]
fn free_block_knows_its_address() {
    assert_eq!(FreeBlock::new(0x4000).addr(), 0x4000);
}

#[test]
fn new_list_pops_the_lowest_address_first() {
    let mut list = FreeBlockList::new(0x1000, 64, 3);
    assert_eq!(list.len(), 3);
    assert_eq!(list.pop().map(|block| block.addr()), Some(0x1000));
    assert_eq!(list.pop().map(|block| block.addr()), Some(0x1040));
    assert_eq!(list.pop().map(|block| block.addr()), Some(0x1080));
    assert!(list.pop().is_none());
    assert_eq!(list.len(), 0);
}

#[test]
fn list_without_blocks_is_empty() {
    let mut list = FreeBlockList::new(0x1000, 64, 0);
    assert_eq!(list.len(), 0);
    assert!(list.pop().is_none());
    assert_eq!(list.len(), 0);
}

#[test]
fn list_is_last_in_first_out() {
    let mut list = FreeBlockList::new(0, 0, 0);
    list.push(FreeBlock::new(64));
    list.push(FreeBlock::new(256));
    list.push(FreeBlock::new(128));
    assert_eq!(list.len(), 3);
    assert_eq!(list.pop().map(|block| block.addr()), Some(128));
    assert_eq!(list.len(), 2);
    list.push(FreeBlock::new(512));
    assert_eq!(list.pop().map(|block| block.addr()), Some(512));
    assert_eq!(list.pop().map(|block| block.addr()), Some(256));
    assert_eq!(list.pop().map(|block| block.addr()), Some(64));
    assert!(list.pop().is_none());
}

#[test]
fn popped_block_can_be_pushed_again() {
    let mut list = FreeBlockList::new(0x1000, 64, 2);
    let block = list.pop().unwrap();
    list.push(block);
    assert_eq!(list.len(), 2);
    assert_eq!(list.pop().map(|block| block.addr()), Some(0x1000));
    assert_eq!(list.pop().map(|block| block.addr()), Some(0x1040));
}

#[test]
fn long_list_is_let_go() {
    let list = FreeBlockList::new(4096, 64, 1_000_000);
    assert_eq!(list.len(), 1_000_000);
    drop(list);
}

#[test]
fn new_slab_counts_its_blocks() {
    let slab = Slab::new(0x2000, 4096, 128);
    assert_eq!(slab.block_size(), 128);
    assert_eq!(slab.capacity(), 32);
    assert_eq!(slab.free_blocks(), 32);
}

#[test]
fn slab_leaves_out_what_is_less_than_a_block() {
    let mut slab = Slab::new(0x2000, 300, 128);
    assert_eq!(slab.capacity(), 2);
    assert_eq!(slab.allocate(any_layout()), Ok(0x2000));
    assert_eq!(slab.allocate(any_layout()), Ok(0x2080));
    assert_eq!(slab.allocate(any_layout()), Err(AllocError));
}

#[test]
fn slab_smaller_than_a_block_is_empty() {
    let mut slab = Slab::new(0x2000, 100, 128);
    assert_eq!(slab.capacity(), 0);
    assert_eq!(slab.allocate(any_layout()), Err(AllocError));
}

#[test]
fn slab_hands_out_blocks_from_the_start_on() {
    let mut slab = Slab::new(0x8000, 4 * 256, 256);
    assert_eq!(slab.allocate(any_layout()), Ok(0x8000));
    assert_eq!(slab.allocate(any_layout()), Ok(0x8100));
    assert_eq!(slab.allocate(any_layout()), Ok(0x8200));
    assert_eq!(slab.free_blocks(), 1);
    assert_eq!(slab.allocate(any_layout()), Ok(0x8300));
    assert_eq!(slab.allocate(any_layout()), Err(AllocError));
    assert_eq!(slab.allocate(any_layout()), Err(AllocError));
    assert_eq!(slab.free_blocks(), 0);
    assert_eq!(slab.capacity(), 4);
}

#[test]
fn slab_does_not_look_at_the_layout() {
    let mut slab = Slab::new(0x8000, 4 * 64, 64);
    let large = Layout::from_size_align(1 << 20, 1 << 16).unwrap();
    assert_eq!(slab.allocate(large), Ok(0x8000));
}

#[test]
fn slab_reuses_the_block_that_came_back_last() {
    let mut slab = Slab::new(0x8000, 4 * 256, 256);
    let a = slab.allocate(any_layout()).unwrap();
    let b = slab.allocate(any_layout()).unwrap();
    slab.deallocate(a);
    assert_eq!(slab.free_blocks(), 3);
    assert_eq!(slab.allocate(any_layout()), Ok(a));
    slab.deallocate(b);
    slab.deallocate(a);
    assert_eq!(slab.allocate(any_layout()), Ok(a));
    assert_eq!(slab.allocate(any_layout()), Ok(b));
    assert_eq!(slab.allocate(any_layout()), Ok(0x8200));
}

#[test]
fn slab_tells_whether_it_takes_a_block_back() {
    let mut slab = Slab::new(0x8000, 2 * 256, 256);
    assert!(!slab.can_deallocate(0x8000));
    let a = slab.allocate(any_layout()).unwrap();
    assert!(slab.can_deallocate(a));
    assert!(!slab.can_deallocate(a + 1));
    assert!(!slab.can_deallocate(a + 128));
    assert!(!slab.can_deallocate(0));
    slab.deallocate(a);
    assert!(!slab.can_deallocate(a));
}

#[test]
fn grown_slab_hands_out_the_highest_new_block_first() {
    let mut slab = Slab::new(0x8000, 2 * 256, 256);
    let a = slab.allocate(any_layout()).unwrap();
    slab.grow(0x20000, 3 * 256);
    assert_eq!(slab.capacity(), 5);
    assert_eq!(slab.free_blocks(), 4);
    assert_eq!(slab.allocate(any_layout()), Ok(0x20200));
    assert_eq!(slab.allocate(any_layout()), Ok(0x20100));
    assert_eq!(slab.allocate(any_layout()), Ok(0x20000));
    assert_eq!(slab.allocate(any_layout()), Ok(0x8100));
    assert_eq!(slab.allocate(any_layout()), Err(AllocError));
    slab.deallocate(a);
    assert_eq!(slab.allocate(any_layout()), Ok(a));
}

#[test]
fn slab_grown_by_nothing_stays_as_it_is() {
    let mut slab = Slab::new(0x8000, 256, 256);
    slab.grow(0x20000, 0);
    assert_eq!(slab.capacity(), 1);
    assert_eq!(slab.allocate(any_layout()), Ok(0x8000));
    assert_eq!(slab.allocate(any_layout()), Err(AllocError));
}

#[test]
fn slab_without_memory_serves_nothing() {
    let mut slab = Slab::empty(512);
    assert_eq!(slab.block_size(), 512);
    assert_eq!(slab.capacity(), 0);
    assert_eq!(slab.free_blocks(), 0);
    assert_eq!(slab.allocate(any_layout()), Err(AllocError));
    assert!(!slab.can_deallocate(512));
}

#[test]
fn slab_without_memory_can_be_given_some() {
    let mut slab = Slab::empty(512);
    assert!(slab.can_grow(0x4000, 1024));
    slab.grow(0x4000, 1024);
    assert_eq!(slab.capacity(), 2);
    assert_eq!(slab.allocate(any_layout()), Ok(0x4200));
    assert_eq!(slab.allocate(any_layout()), Ok(0x4000));
    assert_eq!(slab.allocate(any_layout()), Err(AllocError));
}

#[test]
fn slab_takes_back_only_blocks_of_its_memory() {
    let mut slab = Slab::new(0x8000, 2 * 256, 256);
    let a = slab.allocate(any_layout()).unwrap();
    assert!(slab.can_deallocate(a));
    assert!(slab.can_deallocate(0x8100));
    assert!(!slab.can_deallocate(0x8200));
    assert!(!slab.can_deallocate(0x7f00));
    assert!(!slab.can_deallocate(0x20000));
    slab.grow(0x20000, 256);
    assert!(slab.can_deallocate(0x20000));
    assert!(!slab.can_deallocate(0x20100));
}

#[test]
fn slab_does_not_take_back_half_a_block_at_its_end() {
    let mut slab = Slab::new(0x8000, 256 + 128, 256);
    let _a = slab.allocate(any_layout()).unwrap();
    assert!(slab.can_deallocate(0x8000));
    assert!(!slab.can_deallocate(0x8100));
}

#[test]
fn slab_tells_its_memory_from_other_memory() {
    let mut slab = Slab::new(0x8000, 0x400, 256);
    slab.grow(0x20000, 0x200);
    assert!(slab.is_apart_from(&Extent { start: 0x8400, len: 0x100 }));
    assert!(slab.is_apart_from(&Extent { start: 0x7000, len: 0x1000 }));
    assert!(slab.is_apart_from(&Extent { start: 0x20200, len: 0x1000 }));
    assert!(slab.is_apart_from(&Extent { start: 0x8100, len: 0 }));
    assert!(!slab.is_apart_from(&Extent { start: 0x83ff, len: 1 }));
    assert!(!slab.is_apart_from(&Extent { start: 0x7000, len: 0x1001 }));
    assert!(!slab.is_apart_from(&Extent { start: 0x20100, len: 0x10 }));
    assert!(!slab.is_apart_from(&Extent { start: 0x1000, len: 0x40000 }));
}

#[test]
fn slab_tells_whether_it_can_grow() {
    let slab = Slab::new(0x8000, 0x400, 256);
    assert!(slab.can_grow(0x8400, 0x100));
    assert!(slab.can_grow(0x7f00, 0x100));
    assert!(slab.can_grow(0x20000, 0));
    assert!(!slab.can_grow(0, 0x100));
    assert!(!slab.can_grow(0x8480, 0x100));
    assert!(!slab.can_grow(0x8400, 0x180));
    assert!(!slab.can_grow(0x8300, 0x100));
    assert!(!slab.can_grow(0x8000, 0x400));
    assert!(!slab.can_grow(usize::MAX - 0xff, 0x100));
}
