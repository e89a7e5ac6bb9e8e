use slab_allocator::layout::is_power_of_two;
use slab_allocator::{Layout, LayoutError};

#[test]
fn powers_of_two_are_told_apart() {
    for k in 0..usize::BITS {
        assert!(is_power_of_two(1 << k));
    }
    for n in [0, 3, 5, 6, 7, 9, 12, 24, 100, 4095, 4097, usize::MAX, usize::MAX - 1] {
        assert!(!is_power_of_two(n), "{n}");
    }
}

#[test]
fn layout_keeps_size_and_alignment() {
    let layout = Layout::from_size_align(24, 64).unwrap();
    assert_eq!(layout.size(), 24);
    assert_eq!(layout.align(), 64);
}

#[test]
fn layout_of_size_zero_is_allowed() {
    let layout = Layout::from_size_align(0, 1).unwrap();
    assert_eq!(layout.size(), 0);
    assert_eq!(layout.align(), 1);
}

#[test]
fn layout_takes_the_largest_values() {
    let layout = Layout::from_size_align(usize::MAX, 1 << (usize::BITS - 1)).unwrap();
    assert_eq!(layout.size(), usize::MAX);
    assert_eq!(layout.align(), 1 << (usize::BITS - 1));
}

#[test]
fn alignment_must_be_a_power_of_two() {
    assert_eq!(Layout::from_size_align(8, 0).err(), Some(LayoutError));
    assert_eq!(Layout::from_size_align(8, 3).err(), Some(LayoutError));
    assert_eq!(Layout::from_size_align(8, 24).err(), Some(LayoutError));
    assert_eq!(Layout::from_size_align(0, usize::MAX).err(), Some(LayoutError));
}

#[test]
fn layout_can_be_copied() {
    let layout = Layout::from_size_align(100, 16).unwrap();
    let copy = layout;
    let clone = layout.clone();
    assert_eq!((copy.size(), copy.align()), (100, 16));
    assert_eq!((clone.size(), clone.align()), (100, 16));
}
