use slab_allocator::big_region::{BigRegion, WORD_SIZE};
use slab_allocator::{AllocError, Extent, Layout};

const BOTTOM: usize = 0x4_0000;
const SIZE: usize = 0x1_0000;

fn layout(size: usize, align: usize) -> Layout {
    Layout::from_size_align(size, align).unwrap()
}

fn extent(start: usize, len: usize) -> Extent {
    Extent { start, len }
}

#[test]
fn word_is_eight_bytes() {
    assert_eq!(WORD_SIZE, 8);
}

#[test]
fn new_region_is_one_hole() {
    let region = BigRegion::new(BOTTOM, SIZE);
    assert_eq!(region.bottom(), BOTTOM);
    assert_eq!(region.top(), BOTTOM + SIZE);
    assert_eq!(region.holes(), vec![extent(BOTTOM, SIZE)]);
}

#[test]
fn region_without_bytes_has_no_hole() {
    let mut region = BigRegion::new(BOTTOM, 0);
    assert_eq!(region.holes(), vec![]);
    assert_eq!(region.top(), BOTTOM);
    assert_eq!(region.allocate(layout(8, 8)), Err(AllocError));
}

#[test]
fn allocation_takes_the_front_of_the_hole() {
    let mut region = BigRegion::new(BOTTOM, SIZE);
    assert_eq!(region.allocate(layout(0x2000, 8)), Ok(BOTTOM));
    assert_eq!(region.holes(), vec![extent(BOTTOM + 0x2000, SIZE - 0x2000)]);
}

#[test]
fn allocation_of_the_whole_hole_leaves_none() {
    let mut region = BigRegion::new(BOTTOM, SIZE);
    assert_eq!(region.allocate(layout(SIZE, 8)), Ok(BOTTOM));
    assert_eq!(region.holes(), vec![]);
    assert_eq!(region.allocate(layout(8, 8)), Err(AllocError));
}

#[test]
fn size_is_rounded_up_to_whole_words() {
    let mut region = BigRegion::new(BOTTOM, SIZE);
    assert_eq!(region.allocate(layout(1, 1)), Ok(BOTTOM));
    assert_eq!(region.allocate(layout(9, 1)), Ok(BOTTOM + 8));
    assert_eq!(region.allocate(layout(16, 1)), Ok(BOTTOM + 24));
    assert_eq!(region.allocate(layout(0, 1)), Ok(BOTTOM + 40));
    assert_eq!(region.holes(), vec![extent(BOTTOM + 48, SIZE - 48)]);
}

#[test]
fn alignment_is_one_word_at_least() {
    let mut region = BigRegion::new(BOTTOM + 4, 64);
    assert_eq!(region.allocate(layout(8, 1)), Ok(BOTTOM + 8));
    assert_eq!(region.holes(), vec![extent(BOTTOM + 4, 4), extent(BOTTOM + 16, 52)]);
}

#[test]
fn aligned_allocation_leaves_a_hole_in_front() {
    let mut region = BigRegion::new(BOTTOM + 0x100, SIZE);
    assert_eq!(region.allocate(layout(0x1000, 0x1000)), Ok(BOTTOM + 0x1000));
    assert_eq!(
        region.holes(),
        vec![extent(BOTTOM + 0x100, 0xf00), extent(BOTTOM + 0x2000, SIZE + 0x100 - 0x2000)]
    );
}

#[test]
fn aligned_allocation_at_the_end_leaves_only_the_front() {
    let mut region = BigRegion::new(BOTTOM + 0x100, 0x1f00);
    assert_eq!(region.allocate(layout(0x1000, 0x1000)), Ok(BOTTOM + 0x1000));
    assert_eq!(region.holes(), vec![extent(BOTTOM + 0x100, 0xf00)]);
}

#[test]
fn allocation_needs_room_behind_the_aligned_address() {
    let mut region = BigRegion::new(BOTTOM + 0x100, 0x1ef8);
    assert_eq!(region.allocate(layout(0x1000, 0x1000)), Err(AllocError));
    assert_eq!(region.holes(), vec![extent(BOTTOM + 0x100, 0x1ef8)]);
}

#[test]
fn first_hole_with_room_is_taken() {
    let mut region = BigRegion::new(BOTTOM, 0x400);
    let a = region.allocate(layout(0x100, 8)).unwrap();
    let b = region.allocate(layout(0x100, 8)).unwrap();
    let c = region.allocate(layout(0x100, 8)).unwrap();
    let d = region.allocate(layout(0x100, 8)).unwrap();
    assert_eq!((a, b, c, d), (BOTTOM, BOTTOM + 0x100, BOTTOM + 0x200, BOTTOM + 0x300));
    region.deallocate(a, layout(0x100, 8));
    region.deallocate(c, layout(0x100, 8));
    assert_eq!(region.holes(), vec![extent(BOTTOM, 0x100), extent(BOTTOM + 0x200, 0x100)]);
    assert_eq!(region.allocate(layout(0x80, 8)), Ok(BOTTOM));
    assert_eq!(region.allocate(layout(0x100, 8)), Ok(BOTTOM + 0x200));
    assert_eq!(region.allocate(layout(0x80, 8)), Ok(BOTTOM + 0x80));
    assert_eq!(region.allocate(layout(8, 8)), Err(AllocError));
}

#[test]
fn no_hole_is_large_enough() {
    let mut region = BigRegion::new(BOTTOM, 0x300);
    let a = region.allocate(layout(0x100, 8)).unwrap();
    let _b = region.allocate(layout(0x100, 8)).unwrap();
    let c = region.allocate(layout(0x100, 8)).unwrap();
    region.deallocate(a, layout(0x100, 8));
    region.deallocate(c, layout(0x100, 8));
    assert_eq!(region.allocate(layout(0x108, 8)), Err(AllocError));
    assert_eq!(region.allocate(layout(0x200, 8)), Err(AllocError));
    assert_eq!(region.holes(), vec![extent(BOTTOM, 0x100), extent(BOTTOM + 0x200, 0x100)]);
}

#[test]
fn freed_bytes_join_the_hole_behind() {
    let mut region = BigRegion::new(BOTTOM, 0x400);
    let a = region.allocate(layout(0x100, 8)).unwrap();
    region.deallocate(a, layout(0x100, 8));
    assert_eq!(region.holes(), vec![extent(BOTTOM, 0x400)]);
}

#[test]
fn freed_bytes_join_the_hole_in_front() {
    let mut region = BigRegion::new(BOTTOM, 0x300);
    let a = region.allocate(layout(0x100, 8)).unwrap();
    let b = region.allocate(layout(0x100, 8)).unwrap();
    let _c = region.allocate(layout(0x100, 8)).unwrap();
    region.deallocate(a, layout(0x100, 8));
    region.deallocate(b, layout(0x100, 8));
    assert_eq!(region.holes(), vec![extent(BOTTOM, 0x200)]);
}

#[test]
fn freed_bytes_join_the_holes_on_both_sides() {
    let mut region = BigRegion::new(BOTTOM, 0x400);
    let a = region.allocate(layout(0x100, 8)).unwrap();
    let b = region.allocate(layout(0x100, 8)).unwrap();
    let c = region.allocate(layout(0x100, 8)).unwrap();
    region.deallocate(a, layout(0x100, 8));
    region.deallocate(c, layout(0x100, 8));
    assert_eq!(region.holes(), vec![extent(BOTTOM, 0x100), extent(BOTTOM + 0x200, 0x200)]);
    region.deallocate(b, layout(0x100, 8));
    assert_eq!(region.holes(), vec![extent(BOTTOM, 0x400)]);
}

#[test]
fn freed_bytes_between_allocations_stand_alone() {
    let mut region = BigRegion::new(BOTTOM, 0x500);
    let _a = region.allocate(layout(0x100, 8)).unwrap();
    let b = region.allocate(layout(0x100, 8)).unwrap();
    let _c = region.allocate(layout(0x100, 8)).unwrap();
    let d = region.allocate(layout(0x100, 8)).unwrap();
    let _e = region.allocate(layout(0x100, 8)).unwrap();
    region.deallocate(d, layout(0x100, 8));
    region.deallocate(b, layout(0x100, 8));
    assert_eq!(region.holes(), vec![extent(BOTTOM + 0x100, 0x100), extent(BOTTOM + 0x300, 0x100)]);
}

#[test]
fn deallocation_rounds_the_size_as_allocation_does() {
    let mut region = BigRegion::new(BOTTOM, 0x100);
    let a = region.allocate(layout(5, 1)).unwrap();
    assert_eq!(region.holes(), vec![extent(BOTTOM + 8, 0xf8)]);
    region.deallocate(a, layout(5, 1));
    assert_eq!(region.holes(), vec![extent(BOTTOM, 0x100)]);
}

#[test]
fn region_tells_whether_it_takes_bytes_back() {
    let mut region = BigRegion::new(BOTTOM, 0x400);
    let request = layout(0x100, 8);
    assert!(!region.can_deallocate(BOTTOM, request));
    let a = region.allocate(request).unwrap();
    let b = region.allocate(request).unwrap();
    assert!(region.can_deallocate(a, request));
    assert!(region.can_deallocate(b, request));
    assert!(region.can_deallocate(a + 8, request));
    assert!(!region.can_deallocate(b + 8, request));
    assert!(!region.can_deallocate(BOTTOM - 8, request));
    assert!(!region.can_deallocate(BOTTOM + 0x400, request));
    assert!(!region.can_deallocate(0, request));
    assert!(!region.can_deallocate(a, layout(usize::MAX, 1)));
    assert!(!region.can_deallocate(usize::MAX, request));
    region.deallocate(a, request);
    assert!(!region.can_deallocate(a, request));
    assert!(region.can_deallocate(b, request));
}

#[test]
fn request_above_the_region_size_fails() {
    let mut region = BigRegion::new(BOTTOM, SIZE);
    assert_eq!(region.allocate(layout(SIZE + 1, 1)), Err(AllocError));
    assert_eq!(region.allocate(layout(usize::MAX, 1)), Err(AllocError));
    assert_eq!(region.allocate(layout(usize::MAX - 7, 8)), Err(AllocError));
    assert_eq!(region.holes(), vec![extent(BOTTOM, SIZE)]);
}

#[test]
fn alignment_beyond_the_address_space_fails() {
    let top = usize::MAX - 0xfff;
    let mut region = BigRegion::new(top - 0x1000 + 8, 0x1000);
    assert_eq!(region.allocate(layout(8, 1 << (usize::BITS - 1))), Err(AllocError));
    assert_eq!(region.allocate(layout(8, 0x2000)), Err(AllocError));
    assert_eq!(region.allocate(layout(16, 0x1000)), Err(AllocError));
    assert_eq!(region.allocate(layout(8, 0x1000)), Ok(top));
    assert_eq!(region.allocate(layout(8, 0x800)), Ok(top - 0x800));
}

#[test]
fn extension_lengthens_the_last_hole() {
    let mut region = BigRegion::new(BOTTOM, 0x200);
    let _a = region.allocate(layout(0x100, 8)).unwrap();
    region.extend(0x300);
    assert_eq!(region.top(), BOTTOM + 0x500);
    assert_eq!(region.bottom(), BOTTOM);
    assert_eq!(region.holes(), vec![extent(BOTTOM + 0x100, 0x400)]);
}

#[test]
fn extension_behind_an_allocation_is_a_new_hole() {
    let mut region = BigRegion::new(BOTTOM, 0x200);
    let a = region.allocate(layout(0x100, 8)).unwrap();
    let _b = region.allocate(layout(0x100, 8)).unwrap();
    region.extend(0x100);
    assert_eq!(region.holes(), vec![extent(BOTTOM + 0x200, 0x100)]);
    region.deallocate(a, layout(0x100, 8));
    region.extend(0x100);
    assert_eq!(region.holes(), vec![extent(BOTTOM, 0x100), extent(BOTTOM + 0x200, 0x200)]);
    assert_eq!(region.top(), BOTTOM + 0x400);
}

#[test]
fn extension_by_nothing_changes_nothing() {
    let mut region = BigRegion::new(BOTTOM, 0x200);
    let _a = region.allocate(layout(0x200, 8)).unwrap();
    region.extend(0);
    assert_eq!(region.top(), BOTTOM + 0x200);
    assert_eq!(region.holes(), vec![]);
}

#[test]
fn extension_of_an_empty_region_gives_it_a_hole() {
    let mut region = BigRegion::new(BOTTOM, 0);
    region.extend(0x40);
    assert_eq!(region.holes(), vec![extent(BOTTOM, 0x40)]);
    assert_eq!(region.allocate(layout(0x40, 0x40)), Ok(BOTTOM));
}
