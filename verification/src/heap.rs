//! The heap: seven slabs and the region for large requests, and the choice between them.

use crate::big_region::{
    fresh_region,
    is_taken,
    lemma_allocate,
    lemma_allocate_spares_taken,
    lemma_deallocate_spares_taken,
    lemma_deallocate,
    lemma_extend,
    lemma_round_up,
    lemma_too_large_fails,
    request_size,
    BigRegion,
    BigRegionView,
};
use crate::extent::Extent;
use crate::layout::{lemma_multiple_of_multiple, lemma_pow2_divides, AllocError, Layout};
use crate::slab::{
    fresh_slab,
    lemma_allocate_keeps_distinct,
    lemma_deallocate_keeps_distinct,
    lemma_fresh_slab,
    lemma_fresh_slab_block,
    lemma_slab_grow,
    lemma_same_regions,
    lemma_slab_reuses_last_block,
    lemma_slab_steps,
    Slab,
    SlabView,
};
use vstd::arithmetic::power2::is_pow2;
use vstd::prelude::*;

verus! {

/// The number of parts into which the heap splits its memory.
pub const NUM_OF_SLABS: usize = 8;

/// The least size of one part.
pub const MIN_SLAB_SIZE: usize = 4096;

/// The least size of a heap.
pub const MIN_HEAP_SIZE: usize = NUM_OF_SLABS * MIN_SLAB_SIZE;

/// The parts of the heap that serve requests.
#[derive(Copy, Clone, Debug, PartialEq, Eq)]
pub enum HeapAllocator {
    Slab64Bytes,
    Slab128Bytes,
    Slab256Bytes,
    Slab512Bytes,
    Slab1024Bytes,
    Slab2048Bytes,
    Slab4096Bytes,
    LinkedListAllocator,
}

impl HeapAllocator {
    /// The place of the part in the heap's memory, counted from zero.
    pub open spec fn index(self) -> int {
        match self {
            HeapAllocator::Slab64Bytes => 0,
            HeapAllocator::Slab128Bytes => 1,
            HeapAllocator::Slab256Bytes => 2,
            HeapAllocator::Slab512Bytes => 3,
            HeapAllocator::Slab1024Bytes => 4,
            HeapAllocator::Slab2048Bytes => 5,
            HeapAllocator::Slab4096Bytes => 6,
            HeapAllocator::LinkedListAllocator => 7,
        }
    }

    /// The block size of a slab; the region for large requests has none.
    pub open spec fn block_size(self) -> Option<usize> {
        match self {
            HeapAllocator::Slab64Bytes => Some(64),
            HeapAllocator::Slab128Bytes => Some(128),
            HeapAllocator::Slab256Bytes => Some(256),
            HeapAllocator::Slab512Bytes => Some(512),
            HeapAllocator::Slab1024Bytes => Some(1024),
            HeapAllocator::Slab2048Bytes => Some(2048),
            HeapAllocator::Slab4096Bytes => Some(4096),
            HeapAllocator::LinkedListAllocator => None,
        }
    }
}

/// The part that serves `layout`: the region for large requests if the size is above
/// 4096, else the slab with the smallest blocks that are large enough for the size and
/// for the alignment, and the slab of 4096 bytes if there is no such slab.
pub open spec fn classify(layout: Layout) -> HeapAllocator {
    let size = layout.size();
    let align = layout.align();
    if size > 4096 {
        HeapAllocator::LinkedListAllocator
    } else if size <= 64 && align <= 64 {
        HeapAllocator::Slab64Bytes
    } else if size <= 128 && align <= 128 {
        HeapAllocator::Slab128Bytes
    } else if size <= 256 && align <= 256 {
        HeapAllocator::Slab256Bytes
    } else if size <= 512 && align <= 512 {
        HeapAllocator::Slab512Bytes
    } else if size <= 1024 && align <= 1024 {
        HeapAllocator::Slab1024Bytes
    } else if size <= 2048 && align <= 2048 {
        HeapAllocator::Slab2048Bytes
    } else {
        HeapAllocator::Slab4096Bytes
    }
}

/// What the heap is to its callers: its seven slabs, smallest blocks first, the region
/// for large requests, and the number of bytes that the heap was given in all.
pub struct HeapView {
    pub slabs: Seq<SlabView>,
    pub big: BigRegionView,
    pub total_len: nat,
}

impl HeapView {
    /// Each slab has its block size and is well-formed, and so is the region for large
    /// requests, which does not start at the null address and is no larger than the
    /// memory that the heap was given. No two parts have memory in common.
    pub open spec fn wf(self) -> bool {
        &&& self.slabs.len() == 7
        &&& self.slabs[0].block_size == 64 && self.slabs[0].wf()
        &&& self.slabs[1].block_size == 128 && self.slabs[1].wf()
        &&& self.slabs[2].block_size == 256 && self.slabs[2].wf()
        &&& self.slabs[3].block_size == 512 && self.slabs[3].wf()
        &&& self.slabs[4].block_size == 1024 && self.slabs[4].wf()
        &&& self.slabs[5].block_size == 2048 && self.slabs[5].wf()
        &&& self.slabs[6].block_size == 4096 && self.slabs[6].wf()
        &&& self.big.wf()
        &&& self.big.bottom > 0
        &&& self.big.top - self.big.bottom <= self.total_len
        &&& self.total_len >= MIN_HEAP_SIZE
        &&& self.parts_are_apart()
    }

    /// No two parts of the heap have a byte of memory in common.
    pub open spec fn parts_are_apart(self) -> bool {
        &&& forall|k: int, l: int, r: int, s: int|
            0 <= k < l < 7 && 0 <= r < self.slabs[k].regions.len() && 0 <= s
                < self.slabs[l].regions.len() ==> (#[trigger] self.slabs[k].regions[r]).is_apart_from(
                #[trigger] self.slabs[l].regions[s],
            )
        &&& self.slabs_are_apart_from(self.big.extent())
    }

    /// Whether `region` has no byte in common with the memory of any slab.
    pub open spec fn slabs_are_apart_from(self, region: Extent) -> bool {
        forall|k: int, r: int|
            0 <= k < 7 && 0 <= r < self.slabs[k].regions.len() ==> (
            #[trigger] self.slabs[k].regions[r]).is_apart_from(region)
    }

    /// Whether the memory of an allocation at `ptr` for `layout` lies in the part that
    /// serves `layout`: the whole block of a slab, or the bytes that the region for large
    /// requests takes for it.
    pub open spec fn holds(self, ptr: usize, layout: Layout) -> bool {
        let which = classify(layout);
        if which == HeapAllocator::LinkedListAllocator {
            self.big.extent().holds(ptr as int, request_size(layout.size() as int))
        } else {
            self.slabs[which.index()].holds_block(ptr as int)
        }
    }

    /// The heap over `[start, start + size)` before its first allocation: part `k` of
    /// the eight equal parts belongs to slab `k`, the last one to the region for large
    /// requests, and everything is free.
    pub open spec fn fresh(start: usize, size: usize) -> HeapView {
        let part = size as int / 8;
        HeapView {
            slabs: Seq::new(
                7,
                |k: int| fresh_slab((start + k * part) as usize, part as usize, slab_block_size(k)),
            ),
            big: fresh_region((start + 7 * part) as usize, part as usize),
            total_len: size as nat,
        }
    }

    /// Whether the memory at `ptr` is out: it lies in the part that serves `layout`, where
    /// an allocation for `layout` can lie, and it is not free.
    pub open spec fn is_out(self, ptr: usize, layout: Layout) -> bool {
        let which = classify(layout);
        if which == HeapAllocator::LinkedListAllocator {
            is_taken(self.big, ptr as int, request_size(layout.size() as int))
        } else {
            let slab = self.slabs[which.index()];
            slab.holds_block(ptr as int) && ptr % slab.block_size == 0 && !slab.free.contains(ptr)
        }
    }

    /// Whether no block stands twice on the free list of any slab.
    pub open spec fn is_tidy(self) -> bool {
        forall|k: int| 0 <= k < 7 ==> (#[trigger] self.slabs[k]).free.no_duplicates()
    }

    /// The heap with `slab` in the place of slab `k`.
    pub open spec fn with_slab(self, k: int, slab: SlabView) -> HeapView {
        HeapView { slabs: self.slabs.update(k, slab), ..self }
    }

    /// The heap with `big` in the place of its region for large requests.
    pub open spec fn with_big(self, big: BigRegionView) -> HeapView {
        HeapView { big, ..self }
    }

    /// The heap after one allocation, and the result of that allocation: the part that
    /// `layout` is classified to serves it, and no other part is tried.
    pub open spec fn allocate(self, layout: Layout) -> (HeapView, Result<usize, AllocError>) {
        let which = classify(layout);
        if which == HeapAllocator::LinkedListAllocator {
            (self.with_big(self.big.allocate(layout).0), self.big.allocate(layout).1)
        } else {
            let k = which.index();
            (self.with_slab(k, self.slabs[k].allocate().0), self.slabs[k].allocate().1)
        }
    }

    /// Whether the heap takes the allocation at `ptr` back, which it made for `layout`.
    pub open spec fn can_release(self, ptr: usize, layout: Layout) -> bool {
        let which = classify(layout);
        if which == HeapAllocator::LinkedListAllocator {
            self.big.can_release(ptr, layout)
        } else {
            self.slabs[which.index()].can_release(ptr)
        }
    }

    /// The heap after the allocation at `ptr` came back to the part that `layout` is
    /// classified to.
    pub open spec fn deallocate(self, ptr: usize, layout: Layout) -> HeapView {
        let which = classify(layout);
        if which == HeapAllocator::LinkedListAllocator {
            self.with_big(self.big.deallocate(ptr, layout))
        } else {
            let k = which.index();
            self.with_slab(k, self.slabs[k].deallocate(ptr))
        }
    }

    /// Whether part `which` can be given the memory of `[start, start + size)`: the
    /// heap has none of it yet; a slab takes whole blocks at an aligned, non-null address,
    /// and the region for large requests takes memory at its top only.
    pub open spec fn can_grow(self, start: usize, size: usize, which: HeapAllocator) -> bool {
        let region = Extent { start, len: size };
        &&& start + size <= usize::MAX
        &&& self.slabs_are_apart_from(region)
        &&& if which == HeapAllocator::LinkedListAllocator {
            start == self.big.top
        } else {
            region.is_apart_from(self.big.extent()) && self.slabs[which.index()].can_grow(start, size)
        }
    }

    /// The heap after part `which` was given the memory of `[start, start + size)`.
    pub open spec fn grow(self, start: usize, size: usize, which: HeapAllocator) -> HeapView {
        let grown = if which == HeapAllocator::LinkedListAllocator {
            self.with_big(self.big.extend(size))
        } else {
            self.with_slab(which.index(), self.slabs[which.index()].grow(start, size))
        };
        HeapView { total_len: (self.total_len + size) as nat, ..grown }
    }
}

/// The block size of slab `k`.
pub open spec fn slab_block_size(k: int) -> usize {
    if k == 0 {
        64
    } else if k == 1 {
        128
    } else if k == 2 {
        256
    } else if k == 3 {
        512
    } else if k == 4 {
        1024
    } else if k == 5 {
        2048
    } else {
        4096
    }
}

/// The bounds on the bytes that an allocation for `layout` can use: the size asked for,
/// and the block size of the slab that serves it, or the size again for a large request.
pub open spec fn usable_bounds(layout: Layout) -> (usize, usize) {
    match classify(layout).block_size() {
        Some(block_size) => (layout.size(), block_size),
        None => (layout.size(), layout.size()),
    }
}

/// A heap of seven slabs, with blocks of 64 to 4096 bytes, and a first-fit region for
/// requests above 4096 bytes.
///
/// Every heap is well-formed, whoever holds it: what [`HeapView::wf`] says of the view
/// holds of each value of this type.
pub struct Heap {
    slab_64_bytes: Slab,
    slab_128_bytes: Slab,
    slab_256_bytes: Slab,
    slab_512_bytes: Slab,
    slab_1024_bytes: Slab,
    slab_2048_bytes: Slab,
    slab_4096_bytes: Slab,
    big_region: BigRegion,
    total_len: Ghost<nat>,
}

impl View for Heap {
    type V = HeapView;

    closed spec fn view(&self) -> HeapView {
        HeapView {
            slabs: seq![
                self.slab_64_bytes@,
                self.slab_128_bytes@,
                self.slab_256_bytes@,
                self.slab_512_bytes@,
                self.slab_1024_bytes@,
                self.slab_2048_bytes@,
                self.slab_4096_bytes@,
            ],
            big: self.big_region@,
            total_len: self.total_len@,
        }
    }
}

impl Heap {
    #[verifier::type_invariant]
    closed spec fn inv(&self) -> bool {
        &&& self.slab_64_bytes.wf()
        &&& self.slab_128_bytes.wf()
        &&& self.slab_256_bytes.wf()
        &&& self.slab_512_bytes.wf()
        &&& self.slab_1024_bytes.wf()
        &&& self.slab_2048_bytes.wf()
        &&& self.slab_4096_bytes.wf()
        &&& self.big_region.wf()
        &&& self@.wf()
    }

    /// A heap over `[heap_start_addr, heap_start_addr + heap_size)`, which the caller
    /// owns and uses for nothing else. The range starts at a page boundary, not at the
    /// null address, and its size is a multiple of [`MIN_HEAP_SIZE`], not zero.
    pub fn new(heap_start_addr: usize, heap_size: usize) -> (heap: Heap)
        requires
            heap_start_addr > 0,
            heap_start_addr % 4096 == 0,
            heap_size >= MIN_HEAP_SIZE,
            heap_size % MIN_HEAP_SIZE == 0,
            heap_start_addr + heap_size <= usize::MAX,
        ensures
            heap@ == HeapView::fresh(heap_start_addr, heap_size),
            heap@.wf(),
    {
        let slab_size = heap_size / NUM_OF_SLABS;
        proof {
            lemma_parts_are_page_aligned(heap_start_addr as int, heap_size as int);
        }
        let slab_64_bytes = Heap::new_slab(heap_start_addr, slab_size, 64, Ghost(0));
        let slab_128_bytes = Heap::new_slab(heap_start_addr + slab_size, slab_size, 128, Ghost(1));
        let slab_256_bytes = Heap::new_slab(
            heap_start_addr + 2 * slab_size,
            slab_size,
            256,
            Ghost(2),
        );
        let slab_512_bytes = Heap::new_slab(
            heap_start_addr + 3 * slab_size,
            slab_size,
            512,
            Ghost(3),
        );
        let slab_1024_bytes = Heap::new_slab(
            heap_start_addr + 4 * slab_size,
            slab_size,
            1024,
            Ghost(4),
        );
        let slab_2048_bytes = Heap::new_slab(
            heap_start_addr + 5 * slab_size,
            slab_size,
            2048,
            Ghost(5),
        );
        let slab_4096_bytes = Heap::new_slab(
            heap_start_addr + 6 * slab_size,
            slab_size,
            4096,
            Ghost(6),
        );
        let big_region = BigRegion::new(heap_start_addr + 7 * slab_size, slab_size);
        Heap::assemble(
            slab_64_bytes,
            slab_128_bytes,
            slab_256_bytes,
            slab_512_bytes,
            slab_1024_bytes,
            slab_2048_bytes,
            slab_4096_bytes,
            big_region,
            Ghost(heap_start_addr),
            Ghost(heap_size),
        )
    }

    /// The new heap over `[start, start + size)`, made of its parts.
    fn assemble(
        slab_64_bytes: Slab,
        slab_128_bytes: Slab,
        slab_256_bytes: Slab,
        slab_512_bytes: Slab,
        slab_1024_bytes: Slab,
        slab_2048_bytes: Slab,
        slab_4096_bytes: Slab,
        big_region: BigRegion,
        Ghost(start): Ghost<usize>,
        Ghost(size): Ghost<usize>,
    ) -> (heap: Heap)
        requires
            start > 0,
            start % 4096 == 0,
            size >= MIN_HEAP_SIZE,
            size % MIN_HEAP_SIZE == 0,
            start + size <= usize::MAX,
            slab_64_bytes.wf(),
            slab_128_bytes.wf(),
            slab_256_bytes.wf(),
            slab_512_bytes.wf(),
            slab_1024_bytes.wf(),
            slab_2048_bytes.wf(),
            slab_4096_bytes.wf(),
            big_region.wf(),
            ({
                let part = (size / 8) as usize;
                &&& slab_64_bytes@ == fresh_slab(start, part, 64)
                &&& slab_128_bytes@ == fresh_slab((start + part) as usize, part, 128)
                &&& slab_256_bytes@ == fresh_slab((start + 2 * part) as usize, part, 256)
                &&& slab_512_bytes@ == fresh_slab((start + 3 * part) as usize, part, 512)
                &&& slab_1024_bytes@ == fresh_slab((start + 4 * part) as usize, part, 1024)
                &&& slab_2048_bytes@ == fresh_slab((start + 5 * part) as usize, part, 2048)
                &&& slab_4096_bytes@ == fresh_slab((start + 6 * part) as usize, part, 4096)
                &&& big_region@ == fresh_region((start + 7 * part) as usize, part)
            }),
        ensures
            heap@ == HeapView::fresh(start, size),
            heap@.wf(),
    {
        proof {
            assert(MIN_HEAP_SIZE == 32768);
            lemma_fresh_is_wf(start, size);
            lemma_fresh_parts(start, size);
        }
        Heap {
            slab_64_bytes,
            slab_128_bytes,
            slab_256_bytes,
            slab_512_bytes,
            slab_1024_bytes,
            slab_2048_bytes,
            slab_4096_bytes,
            big_region,
            total_len: Ghost(size as nat),
        }
    }

    /// The slab of part `k`, which starts at `part_start`.
    fn new_slab(part_start: usize, slab_size: usize, block_size: usize, Ghost(k): Ghost<int>) -> (slab:
        Slab)
        requires
            part_start > 0,
            part_start % 4096 == 0,
            part_start + slab_size <= usize::MAX,
            0 <= k < 7,
            block_size == slab_block_size(k),
        ensures
            slab.wf(),
            slab@ == fresh_slab(part_start, slab_size, block_size),
    {
        proof {
            assert(4096int % (block_size as int) == 0);
            lemma_multiple_of_multiple(part_start as int, 4096, block_size as int);
        }
        Slab::new(part_start, slab_size, block_size)
    }

    /// Finds the part that serves `layout`.
    pub fn layout_to_allocator(layout: &Layout) -> (which: HeapAllocator)
        ensures
            which == classify(*layout),
    {
        if layout.size() > 4096 {
            HeapAllocator::LinkedListAllocator
        } else if layout.size() <= 64 && layout.align() <= 64 {
            HeapAllocator::Slab64Bytes
        } else if layout.size() <= 128 && layout.align() <= 128 {
            HeapAllocator::Slab128Bytes
        } else if layout.size() <= 256 && layout.align() <= 256 {
            HeapAllocator::Slab256Bytes
        } else if layout.size() <= 512 && layout.align() <= 512 {
            HeapAllocator::Slab512Bytes
        } else if layout.size() <= 1024 && layout.align() <= 1024 {
            HeapAllocator::Slab1024Bytes
        } else if layout.size() <= 2048 && layout.align() <= 2048 {
            HeapAllocator::Slab2048Bytes
        } else {
            HeapAllocator::Slab4096Bytes
        }
    }

    /// Hands out memory for `layout` from the part that it is classified to. A slab
    /// answers at once; the region for large requests looks through its free extents.
    /// No other part is tried when that part has nothing left.
    pub fn allocate(&mut self, layout: Layout) -> (r: Result<usize, AllocError>)
        ensures
            old(self)@.wf(),
            final(self)@.wf(),
            final(self)@ == old(self)@.allocate(layout).0,
            r == old(self)@.allocate(layout).1,
            r matches Ok(ptr) ==> {
                &&& ptr != 0
                &&& old(self)@.holds(ptr, layout)
                &&& classify(layout).block_size() matches Some(block_size) ==> ptr % block_size == 0
                &&& layout.align() <= 4096 || layout.size() > 4096 ==> ptr % layout.align() == 0
            },
            layout.size() > old(self)@.total_len ==> r is Err,
    {
        proof {
            use_type_invariant(&*self);
            use_type_invariant(&layout);
            lemma_allocate_keeps_wf(self@, layout);
            lemma_without_part(self@, classify(layout));
            lemma_allocation_is_aligned(self@, layout);
            lemma_allocation_is_block_aligned(self@, layout);
            if layout.size() > self@.total_len {
                lemma_oversized_allocation_fails(self@, layout);
            }
        }
        let which = Heap::layout_to_allocator(&layout);
        match which {
            HeapAllocator::LinkedListAllocator => {
                let mut region = BigRegion::new(1, 0);
                self.swap_big_region(&mut region);
                let r = region.allocate(layout);
                self.swap_big_region(&mut region);
                r
            },
            _ => {
                let mut slab = Slab::empty(Heap::block_size_of(which));
                self.swap_slab(which, &mut slab);
                let r = slab.allocate(layout);
                assert(self@.slabs.update(which.index(), slab@) =~= old(self)@.allocate(
                    layout,
                ).0.slabs);
                self.swap_slab(which, &mut slab);
                r
            },
        }
    }

    /// Tells whether the allocation at `ptr`, made for `layout`, may be handed back.
    pub fn can_deallocate(&self, ptr: usize, layout: Layout) -> (r: bool)
        ensures
            self@.wf(),
            r == self@.can_release(ptr, layout),
    {
        proof {
            use_type_invariant(self);
        }
        match Heap::layout_to_allocator(&layout) {
            HeapAllocator::Slab64Bytes => self.slab_64_bytes.can_deallocate(ptr),
            HeapAllocator::Slab128Bytes => self.slab_128_bytes.can_deallocate(ptr),
            HeapAllocator::Slab256Bytes => self.slab_256_bytes.can_deallocate(ptr),
            HeapAllocator::Slab512Bytes => self.slab_512_bytes.can_deallocate(ptr),
            HeapAllocator::Slab1024Bytes => self.slab_1024_bytes.can_deallocate(ptr),
            HeapAllocator::Slab2048Bytes => self.slab_2048_bytes.can_deallocate(ptr),
            HeapAllocator::Slab4096Bytes => self.slab_4096_bytes.can_deallocate(ptr),
            HeapAllocator::LinkedListAllocator => self.big_region.can_deallocate(ptr, layout),
        }
    }

    /// Takes the allocation at `ptr` back, into the part that `layout` is classified to.
    ///
    /// `ptr` must come from a call of [`Heap::allocate`] with the same `layout`, and
    /// must not have come back since. Of this only what [`HeapView::can_release`] says
    /// is demanded, which [`Heap::can_deallocate`] tests.
    pub fn deallocate(&mut self, ptr: usize, layout: Layout)
        requires
            old(self)@.can_release(ptr, layout),
        ensures
            old(self)@.wf(),
            final(self)@.wf(),
            final(self)@ == old(self)@.deallocate(ptr, layout),
    {
        proof {
            use_type_invariant(&*self);
            use_type_invariant(&layout);
            lemma_deallocate_keeps_wf(self@, ptr, layout);
            lemma_without_part(self@, classify(layout));
        }
        let which = Heap::layout_to_allocator(&layout);
        match which {
            HeapAllocator::LinkedListAllocator => {
                let mut region = BigRegion::new(1, 0);
                self.swap_big_region(&mut region);
                region.deallocate(ptr, layout);
                self.swap_big_region(&mut region);
            },
            _ => {
                let mut slab = Slab::empty(Heap::block_size_of(which));
                self.swap_slab(which, &mut slab);
                slab.deallocate(ptr);
                assert(self@.slabs.update(which.index(), slab@) =~= old(self)@.deallocate(
                    ptr,
                    layout,
                ).slabs);
                self.swap_slab(which, &mut slab);
            },
        }
    }

    /// Tells whether part `slab` can be given the memory of
    /// `[mem_start_addr, mem_start_addr + mem_size)`.
    pub fn can_grow(&self, mem_start_addr: usize, mem_size: usize, slab: HeapAllocator) -> (r: bool)
        ensures
            r == self@.can_grow(mem_start_addr, mem_size, slab),
    {
        proof {
            use_type_invariant(self);
        }
        if mem_size > usize::MAX - mem_start_addr {
            return false;
        }
        let region = Extent { start: mem_start_addr, len: mem_size };
        let apart = self.slab_64_bytes.is_apart_from(&region) && self.slab_128_bytes.is_apart_from(
            &region,
        ) && self.slab_256_bytes.is_apart_from(&region) && self.slab_512_bytes.is_apart_from(&region)
            && self.slab_1024_bytes.is_apart_from(&region) && self.slab_2048_bytes.is_apart_from(
            &region,
        ) && self.slab_4096_bytes.is_apart_from(&region);
        assert(apart == self@.slabs_are_apart_from(region)) by {
            if apart {
                assert forall|k: int, r: int|
                    0 <= k < 7 && 0 <= r < self@.slabs[k].regions.len() implies (
                #[trigger] self@.slabs[k].regions[r]).is_apart_from(region) by {
                    if k == 0 {
                    } else if k == 1 {
                    } else if k == 2 {
                    } else if k == 3 {
                    } else if k == 4 {
                    } else if k == 5 {
                    } else {
                    }
                }
            } else {
                assert(self@.slabs[0] == self.slab_64_bytes@);
                assert(self@.slabs[1] == self.slab_128_bytes@);
                assert(self@.slabs[2] == self.slab_256_bytes@);
                assert(self@.slabs[3] == self.slab_512_bytes@);
                assert(self@.slabs[4] == self.slab_1024_bytes@);
                assert(self@.slabs[5] == self.slab_2048_bytes@);
                assert(self@.slabs[6] == self.slab_4096_bytes@);
            }
        }
        if !apart {
            return false;
        }
        let big = Extent {
            start: self.big_region.bottom(),
            len: self.big_region.top() - self.big_region.bottom(),
        };
        match slab {
            HeapAllocator::Slab64Bytes => region.misses(&big) && self.slab_64_bytes.can_grow(
                mem_start_addr,
                mem_size,
            ),
            HeapAllocator::Slab128Bytes => region.misses(&big) && self.slab_128_bytes.can_grow(
                mem_start_addr,
                mem_size,
            ),
            HeapAllocator::Slab256Bytes => region.misses(&big) && self.slab_256_bytes.can_grow(
                mem_start_addr,
                mem_size,
            ),
            HeapAllocator::Slab512Bytes => region.misses(&big) && self.slab_512_bytes.can_grow(
                mem_start_addr,
                mem_size,
            ),
            HeapAllocator::Slab1024Bytes => region.misses(&big) && self.slab_1024_bytes.can_grow(
                mem_start_addr,
                mem_size,
            ),
            HeapAllocator::Slab2048Bytes => region.misses(&big) && self.slab_2048_bytes.can_grow(
                mem_start_addr,
                mem_size,
            ),
            HeapAllocator::Slab4096Bytes => region.misses(&big) && self.slab_4096_bytes.can_grow(
                mem_start_addr,
                mem_size,
            ),
            HeapAllocator::LinkedListAllocator => mem_start_addr == self.big_region.top(),
        }
    }

    /// Gives part `slab` the memory of `[mem_start_addr, mem_start_addr + mem_size)`,
    /// which the caller owns and uses for nothing else, and of which the heap has
    /// nothing yet. The region for large requests can only be extended at its top.
    pub fn grow(&mut self, mem_start_addr: usize, mem_size: usize, slab: HeapAllocator)
        requires
            old(self)@.can_grow(mem_start_addr, mem_size, slab),
        ensures
            old(self)@.wf(),
            final(self)@.wf(),
            final(self)@ == old(self)@.grow(mem_start_addr, mem_size, slab),
    {
        proof {
            use_type_invariant(&*self);
            lemma_grow_keeps_wf(self@, mem_start_addr, mem_size, slab);
        }
        self.total_len = Ghost((self.total_len@ + mem_size) as nat);
        proof {
            lemma_without_part(self@, slab);
        }
        match slab {
            HeapAllocator::LinkedListAllocator => {
                let mut region = BigRegion::new(1, 0);
                self.swap_big_region(&mut region);
                region.extend(mem_size);
                self.swap_big_region(&mut region);
            },
            _ => {
                let mut part = Slab::empty(Heap::block_size_of(slab));
                self.swap_slab(slab, &mut part);
                part.grow(mem_start_addr, mem_size);
                assert(self@.slabs.update(slab.index(), part@) =~= old(self)@.grow(
                    mem_start_addr,
                    mem_size,
                    slab,
                ).slabs);
                self.swap_slab(slab, &mut part);
            },
        }
    }

    /// The block size of the slab `which`.
    fn block_size_of(which: HeapAllocator) -> (block_size: usize)
        requires
            which != HeapAllocator::LinkedListAllocator,
        ensures
            which.block_size() == Some(block_size),
            block_size == slab_block_size(which.index()),
    {
        match which {
            HeapAllocator::Slab64Bytes => 64,
            HeapAllocator::Slab128Bytes => 128,
            HeapAllocator::Slab256Bytes => 256,
            HeapAllocator::Slab512Bytes => 512,
            HeapAllocator::Slab1024Bytes => 1024,
            HeapAllocator::Slab2048Bytes => 2048,
            _ => 4096,
        }
    }

    /// Puts `slab` in the place of the slab `which`, and hands that one out in `slab`.
    fn swap_slab(&mut self, which: HeapAllocator, slab: &mut Slab)
        requires
            which != HeapAllocator::LinkedListAllocator,
            old(slab).wf(),
            old(self)@.with_slab(which.index(), old(slab)@).wf(),
        ensures
            final(self)@ == old(self)@.with_slab(which.index(), old(slab)@),
            final(slab)@ == old(self)@.slabs[which.index()],
            final(slab).wf(),
    {
        proof {
            use_type_invariant(&*self);
        }
        match which {
            HeapAllocator::Slab64Bytes => std::mem::swap(&mut self.slab_64_bytes, slab),
            HeapAllocator::Slab128Bytes => std::mem::swap(&mut self.slab_128_bytes, slab),
            HeapAllocator::Slab256Bytes => std::mem::swap(&mut self.slab_256_bytes, slab),
            HeapAllocator::Slab512Bytes => std::mem::swap(&mut self.slab_512_bytes, slab),
            HeapAllocator::Slab1024Bytes => std::mem::swap(&mut self.slab_1024_bytes, slab),
            HeapAllocator::Slab2048Bytes => std::mem::swap(&mut self.slab_2048_bytes, slab),
            HeapAllocator::Slab4096Bytes => std::mem::swap(&mut self.slab_4096_bytes, slab),
            HeapAllocator::LinkedListAllocator => {},
        }
        assert(self@.slabs =~= old(self)@.slabs.update(which.index(), old(slab)@));
    }

    /// Puts `region` in the place of the region for large requests, and hands that one
    /// out in `region`.
    fn swap_big_region(&mut self, region: &mut BigRegion)
        requires
            old(region).wf(),
            old(self)@.with_big(old(region)@).wf(),
        ensures
            final(self)@ == old(self)@.with_big(old(region)@),
            final(region)@ == old(self)@.big,
            final(region).wf(),
    {
        proof {
            use_type_invariant(&*self);
        }
        std::mem::swap(&mut self.big_region, region);
    }

    /// Returns bounds on the bytes that an allocation for `layout` can use.
    pub fn usable_size(&self, layout: &Layout) -> (bounds: (usize, usize))
        ensures
            bounds == usable_bounds(*layout),
            bounds.0 == layout.size(),
            bounds.1 >= layout.size(),
            classify(*layout).block_size() matches Some(block_size) ==> bounds.1 == block_size,
    {
        match Heap::layout_to_allocator(layout) {
            HeapAllocator::Slab64Bytes => (layout.size(), 64),
            HeapAllocator::Slab128Bytes => (layout.size(), 128),
            HeapAllocator::Slab256Bytes => (layout.size(), 256),
            HeapAllocator::Slab512Bytes => (layout.size(), 512),
            HeapAllocator::Slab1024Bytes => (layout.size(), 1024),
            HeapAllocator::Slab2048Bytes => (layout.size(), 2048),
            HeapAllocator::Slab4096Bytes => (layout.size(), 4096),
            HeapAllocator::LinkedListAllocator => (layout.size(), layout.size()),
        }
    }
}

/// A new heap is well-formed.
pub proof fn lemma_fresh_is_wf(start: usize, size: usize)
    requires
        start > 0,
        start % 4096 == 0,
        size >= MIN_HEAP_SIZE,
        size % MIN_HEAP_SIZE == 0,
        start + size <= usize::MAX,
    ensures
        HeapView::fresh(start, size).wf(),
{
    let part = size as int / 8;
    let fresh = HeapView::fresh(start, size);
    assert(MIN_HEAP_SIZE == 32768);
    assert(part * 8 == size && part % 4096 == 0 && part >= 4096);
    assert forall|k: int| 0 <= k < 7 implies (#[trigger] fresh.slabs[k]).wf() && fresh.slabs[k].block_size
        == slab_block_size(k) && fresh.slabs[k].regions == seq![
        Extent { start: (start + k * part) as usize, len: part as usize },
    ] && start + k * part + part <= start + 7 * part by {
        let block_size = slab_block_size(k);
        lemma_part_start(start as int, part, k);
        assert(4096int % (block_size as int) == 0);
        lemma_multiple_of_multiple(start + k * part, 4096, block_size as int);
        lemma_fresh_slab((start + k * part) as usize, part as usize, block_size);
    }
    assert(fresh.slabs[0].wf() && fresh.slabs[1].wf() && fresh.slabs[2].wf() && fresh.slabs[3].wf()
        && fresh.slabs[4].wf() && fresh.slabs[5].wf() && fresh.slabs[6].wf());
    assert forall|k: int, l: int, r: int, s: int|
        0 <= k < l < 7 && 0 <= r < fresh.slabs[k].regions.len() && 0 <= s
            < fresh.slabs[l].regions.len() implies (#[trigger] fresh.slabs[k].regions[r]).is_apart_from(
        #[trigger] fresh.slabs[l].regions[s],
    ) by {
        lemma_part_start(start as int, part, k);
        lemma_part_start(start as int, part, l);
        assert(k * part + part <= l * part) by (nonlinear_arith)
            requires
                k < l,
                part >= 0,
        ;
    }
    assert forall|k: int, r: int|
        0 <= k < 7 && 0 <= r < fresh.slabs[k].regions.len() implies (
    #[trigger] fresh.slabs[k].regions[r]).is_apart_from(fresh.big.extent()) by {
        lemma_part_start(start as int, part, k);
    }
}

/// The eight parts of a heap start at page boundaries and end where the heap ends.
proof fn lemma_parts_are_page_aligned(start: int, size: int)
    requires
        start > 0,
        start % 4096 == 0,
        size >= MIN_HEAP_SIZE,
        size % (MIN_HEAP_SIZE as int) == 0,
    ensures
        ({
            let part = size / 8;
            &&& size / (NUM_OF_SLABS as int) == part
            &&& part >= 4096
            &&& 8 * part == size
            &&& part % 4096 == 0
            &&& (start + part) % 4096 == 0
            &&& (start + 2 * part) % 4096 == 0
            &&& (start + 3 * part) % 4096 == 0
            &&& (start + 4 * part) % 4096 == 0
            &&& (start + 5 * part) % 4096 == 0
            &&& (start + 6 * part) % 4096 == 0
            &&& (start + 7 * part) % 4096 == 0
        }),
{
    assert(MIN_HEAP_SIZE == 32768);
    assert(NUM_OF_SLABS == 8);
}

/// The parts of a new heap, one by one.
proof fn lemma_fresh_parts(start: usize, size: usize)
    requires
        size % 8 == 0,
        start + size <= usize::MAX,
    ensures
        ({
            let part = (size / 8) as usize;
            &&& HeapView::fresh(start, size).slabs == seq![
                fresh_slab(start, part, 64),
                fresh_slab((start + part) as usize, part, 128),
                fresh_slab((start + 2 * part) as usize, part, 256),
                fresh_slab((start + 3 * part) as usize, part, 512),
                fresh_slab((start + 4 * part) as usize, part, 1024),
                fresh_slab((start + 5 * part) as usize, part, 2048),
                fresh_slab((start + 6 * part) as usize, part, 4096),
            ]
            &&& HeapView::fresh(start, size).big == fresh_region((start + 7 * part) as usize, part)
        }),
{
    let part = (size / 8) as usize;
    let fresh = HeapView::fresh(start, size);
    let parts = seq![
        fresh_slab(start, part, 64),
        fresh_slab((start + part) as usize, part, 128),
        fresh_slab((start + 2 * part) as usize, part, 256),
        fresh_slab((start + 3 * part) as usize, part, 512),
        fresh_slab((start + 4 * part) as usize, part, 1024),
        fresh_slab((start + 5 * part) as usize, part, 2048),
        fresh_slab((start + 6 * part) as usize, part, 4096),
    ];
    assert(fresh.slabs[0] == parts[0]);
    assert(fresh.slabs[1] == parts[1]);
    assert(fresh.slabs[2] == parts[2]);
    assert(fresh.slabs[3] == parts[3]);
    assert(fresh.slabs[4] == parts[4]);
    assert(fresh.slabs[5] == parts[5]);
    assert(fresh.slabs[6] == parts[6]);
    assert(fresh.slabs =~= parts);
}

/// Part `k` of a heap starts at a page boundary inside the heap.
proof fn lemma_part_start(start: int, part: int, k: int)
    requires
        start % 4096 == 0,
        part % 4096 == 0,
        start > 0,
        part >= 0,
        0 <= k < 7,
    ensures
        start <= start + k * part <= start + 6 * part,
        (start + k * part) % 4096 == 0,
{
    let offset = k * part;
    assert(offset == if k == 0 {
        0
    } else if k == 1 {
        part
    } else if k == 2 {
        2 * part
    } else if k == 3 {
        3 * part
    } else if k == 4 {
        4 * part
    } else if k == 5 {
        5 * part
    } else {
        6 * part
    }) by (nonlinear_arith)
        requires
            offset == k * part,
            0 <= k < 7,
    ;
}

/// The parts stay apart when each of them keeps its memory or has none.
proof fn lemma_parts_stay_apart(heap: HeapView, next: HeapView)
    requires
        heap.parts_are_apart(),
        heap.slabs.len() == 7,
        next.slabs.len() == 7,
        forall|k: int|
            0 <= k < 7 ==> (#[trigger] next.slabs[k]).regions == heap.slabs[k].regions
                || next.slabs[k].regions.len() == 0,
        next.big.extent() == heap.big.extent() || next.big.extent().len == 0,
    ensures
        next.parts_are_apart(),
{
    assert forall|k: int, l: int, r: int, s: int|
        0 <= k < l < 7 && 0 <= r < next.slabs[k].regions.len() && 0 <= s
            < next.slabs[l].regions.len() implies (#[trigger] next.slabs[k].regions[r]).is_apart_from(
        #[trigger] next.slabs[l].regions[s],
    ) by {
        assert(next.slabs[k].regions[r] == heap.slabs[k].regions[r]);
        assert(next.slabs[l].regions[s] == heap.slabs[l].regions[s]);
    }
    assert forall|k: int, r: int|
        0 <= k < 7 && 0 <= r < next.slabs[k].regions.len() implies (
    #[trigger] next.slabs[k].regions[r]).is_apart_from(next.big.extent()) by {
        assert(next.slabs[k].regions[r] == heap.slabs[k].regions[r]);
    }
}

/// The parts stay apart when one of them is given memory that the heap can be given.
proof fn lemma_grown_parts_are_apart(heap: HeapView, start: usize, size: usize, which: HeapAllocator)
    requires
        heap.wf(),
        heap.can_grow(start, size, which),
    ensures
        heap.grow(start, size, which).parts_are_apart(),
{
    let next = heap.grow(start, size, which);
    let region = Extent { start, len: size };
    if which == HeapAllocator::LinkedListAllocator {
        lemma_extend(heap.big, size);
        assert forall|k: int, r: int|
            0 <= k < 7 && 0 <= r < next.slabs[k].regions.len() implies (
        #[trigger] next.slabs[k].regions[r]).is_apart_from(next.big.extent()) by {
            assert(heap.slabs[k].regions[r].is_apart_from(heap.big.extent()));
            assert(heap.slabs[k].regions[r].is_apart_from(region));
        }
    } else {
        let g = which.index();
        let last = heap.slabs[g].regions.len() as int;
        assert forall|k: int, l: int, r: int, s: int|
            0 <= k < l < 7 && 0 <= r < next.slabs[k].regions.len() && 0 <= s
                < next.slabs[l].regions.len() implies (
        #[trigger] next.slabs[k].regions[r]).is_apart_from(#[trigger] next.slabs[l].regions[s]) by {
            if k == g && r == last {
                assert(next.slabs[l].regions[s] == heap.slabs[l].regions[s]);
                assert(heap.slabs[l].regions[s].is_apart_from(region));
            } else if l == g && s == last {
                assert(next.slabs[k].regions[r] == heap.slabs[k].regions[r]);
                assert(heap.slabs[k].regions[r].is_apart_from(region));
            } else {
                assert(next.slabs[k].regions[r] == heap.slabs[k].regions[r]);
                assert(next.slabs[l].regions[s] == heap.slabs[l].regions[s]);
            }
        }
        assert forall|k: int, r: int|
            0 <= k < 7 && 0 <= r < next.slabs[k].regions.len() implies (
        #[trigger] next.slabs[k].regions[r]).is_apart_from(next.big.extent()) by {
            if k == g && r == last {
            } else {
                assert(next.slabs[k].regions[r] == heap.slabs[k].regions[r]);
            }
        }
    }
}

/// An allocation keeps the heap well-formed, and does not change the number of bytes
/// that the heap was given.
pub proof fn lemma_allocate_keeps_wf(heap: HeapView, layout: Layout)
    requires
        heap.wf(),
        layout.is_valid(),
    ensures
        heap.allocate(layout).0.wf(),
        heap.allocate(layout).0.total_len == heap.total_len,
{
    if classify(layout) == HeapAllocator::LinkedListAllocator {
        lemma_allocate(heap.big, layout);
    } else {
        lemma_slab_steps(heap.slabs[classify(layout).index()], 0);
    }
    lemma_parts_stay_apart(heap, heap.allocate(layout).0);
}

/// Taking back an allocation that the heap can take back keeps it well-formed.
pub proof fn lemma_deallocate_keeps_wf(heap: HeapView, ptr: usize, layout: Layout)
    requires
        heap.wf(),
        heap.can_release(ptr, layout),
    ensures
        heap.deallocate(ptr, layout).wf(),
        heap.deallocate(ptr, layout).total_len == heap.total_len,
{
    if classify(layout) == HeapAllocator::LinkedListAllocator {
        lemma_deallocate(heap.big, ptr, layout);
    } else {
        lemma_slab_steps(heap.slabs[classify(layout).index()], ptr);
    }
    lemma_parts_stay_apart(heap, heap.deallocate(ptr, layout));
}

/// Giving a part memory that it can be given keeps the heap well-formed.
pub proof fn lemma_grow_keeps_wf(heap: HeapView, start: usize, size: usize, which: HeapAllocator)
    requires
        heap.wf(),
        heap.can_grow(start, size, which),
    ensures
        heap.grow(start, size, which).wf(),
        heap.grow(start, size, which).total_len == heap.total_len + size,
{
    lemma_grown_parts_are_apart(heap, start, size, which);
    if which == HeapAllocator::LinkedListAllocator {
        lemma_extend(heap.big, size);
    } else {
        lemma_slab_grow(heap.slabs[which.index()], start, size);
    }
}

/// The heap stays well-formed while one of its parts is taken out of it.
proof fn lemma_without_part(heap: HeapView, which: HeapAllocator)
    requires
        heap.wf(),
    ensures
        which == HeapAllocator::LinkedListAllocator ==> heap.with_big(BigRegionView::nothing()).wf(),
        which.block_size() matches Some(block_size) ==> heap.with_slab(
            which.index(),
            SlabView::nothing(block_size),
        ).wf(),
{
    if which == HeapAllocator::LinkedListAllocator {
        lemma_parts_stay_apart(heap, heap.with_big(BigRegionView::nothing()));
    } else {
        let block_size = which.block_size().unwrap();
        lemma_parts_stay_apart(heap, heap.with_slab(which.index(), SlabView::nothing(block_size)));
    }
}

/// An address that the heap hands out is not null. It is a multiple of the alignment
/// asked for, unless that alignment is above 4096 while the size is not: such a request
/// goes to the slab of 4096 bytes, whose blocks are aligned to 4096 and no more.
pub proof fn lemma_allocation_is_aligned(heap: HeapView, layout: Layout)
    requires
        heap.wf(),
        layout.is_valid(),
    ensures
        heap.allocate(layout).1 matches Ok(ptr) ==> {
            &&& ptr != 0
            &&& layout.align() <= 4096 || layout.size() > 4096 ==> ptr % layout.align() == 0
        },
{
    let which = classify(layout);
    if which == HeapAllocator::LinkedListAllocator {
        lemma_allocate(heap.big, layout);
    } else {
        lemma_allocation_is_block_aligned(heap, layout);
        if heap.allocate(layout).1 is Ok && layout.align() <= 4096 {
            let block_size = slab_block_size(which.index());
            lemma_is_pow2_block(which.index());
            lemma_pow2_divides(layout.align() as int, block_size as int);
            lemma_multiple_of_multiple(
                heap.allocate(layout).1.unwrap() as int,
                block_size as int,
                layout.align() as int,
            );
        }
    }
}

/// The first allocation on a heap of the least size either fails, in the one way in
/// which an allocation can fail, or returns a multiple of the alignment asked for. Left
/// out are requests with an alignment above 4096 and a size that is not.
pub proof fn lemma_first_allocation_is_aligned(start: usize, layout: Layout)
    requires
        start > 0,
        start % 4096 == 0,
        start + MIN_HEAP_SIZE <= usize::MAX,
        layout.is_valid(),
        layout.align() <= 4096 || layout.size() > 4096,
    ensures
        match HeapView::fresh(start, MIN_HEAP_SIZE).allocate(layout).1 {
            Ok(ptr) => ptr != 0 && ptr % layout.align() == 0,
            Err(e) => e == AllocError,
        },
{
    assert(MIN_HEAP_SIZE == 32768);
    lemma_fresh_is_wf(start, MIN_HEAP_SIZE);
    lemma_allocation_is_aligned(HeapView::fresh(start, MIN_HEAP_SIZE), layout);
}

/// The memory of an allocation lies in the memory of the part that serves it.
pub proof fn lemma_allocation_lies_in_heap(heap: HeapView, layout: Layout)
    requires
        heap.wf(),
        layout.is_valid(),
    ensures
        heap.allocate(layout).1 matches Ok(ptr) ==> heap.holds(ptr, layout),
{
    let which = classify(layout);
    if which == HeapAllocator::LinkedListAllocator {
        lemma_allocate(heap.big, layout);
    } else {
        lemma_slab_steps(heap.slabs[which.index()], 0);
    }
}

/// The memory that an allocation at `ptr` for `layout` takes: the whole block of a
/// slab, or the bytes that the region for large requests takes for it.
pub open spec fn footprint(ptr: usize, layout: Layout) -> (int, int) {
    match classify(layout).block_size() {
        Some(block_size) => (ptr as int, ptr + block_size),
        None => (ptr as int, ptr + request_size(layout.size() as int)),
    }
}

/// Allocations that lie in different parts of the heap have no byte in common.
pub proof fn lemma_parts_do_not_overlap(
    heap: HeapView,
    ptr: usize,
    layout: Layout,
    other_ptr: usize,
    other_layout: Layout,
)
    requires
        heap.wf(),
        heap.holds(ptr, layout),
        heap.holds(other_ptr, other_layout),
        classify(layout) != classify(other_layout),
    ensures
        footprint(ptr, layout).1 <= footprint(other_ptr, other_layout).0 || footprint(
            other_ptr,
            other_layout,
        ).1 <= footprint(ptr, layout).0,
{
    let which = classify(layout);
    let other = classify(other_layout);
    lemma_round_up(layout.size() as int, 8);
    lemma_round_up(other_layout.size() as int, 8);
    if which != HeapAllocator::LinkedListAllocator && other != HeapAllocator::LinkedListAllocator {
        let k = which.index();
        let l = other.index();
        let r = choose|r: int|
            0 <= r < heap.slabs[k].regions.len() && (#[trigger] heap.slabs[k].regions[r]).holds(
                ptr as int,
                heap.slabs[k].block_size as int,
            );
        let s = choose|s: int|
            0 <= s < heap.slabs[l].regions.len() && (#[trigger] heap.slabs[l].regions[s]).holds(
                other_ptr as int,
                heap.slabs[l].block_size as int,
            );
        if k < l {
            assert(heap.slabs[k].regions[r].is_apart_from(heap.slabs[l].regions[s]));
        } else {
            assert(heap.slabs[l].regions[s].is_apart_from(heap.slabs[k].regions[r]));
        }
    } else if which != HeapAllocator::LinkedListAllocator {
        let k = which.index();
        let r = choose|r: int|
            0 <= r < heap.slabs[k].regions.len() && (#[trigger] heap.slabs[k].regions[r]).holds(
                ptr as int,
                heap.slabs[k].block_size as int,
            );
        assert(heap.slabs[k].regions[r].is_apart_from(heap.big.extent()));
    } else {
        let l = other.index();
        let s = choose|s: int|
            0 <= s < heap.slabs[l].regions.len() && (#[trigger] heap.slabs[l].regions[s]).holds(
                other_ptr as int,
                heap.slabs[l].block_size as int,
            );
        assert(heap.slabs[l].regions[s].is_apart_from(heap.big.extent()));
    }
}

/// An allocation takes no byte of memory that is out, and what is out stays out.
pub proof fn lemma_allocation_is_fresh(
    heap: HeapView,
    layout: Layout,
    other_ptr: usize,
    other_layout: Layout,
)
    requires
        heap.wf(),
        layout.is_valid(),
        heap.is_out(other_ptr, other_layout),
        heap.allocate(layout).1 is Ok,
    ensures
        ({
            let ptr = heap.allocate(layout).1.unwrap();
            footprint(ptr, layout).1 <= footprint(other_ptr, other_layout).0 || footprint(
                other_ptr,
                other_layout,
            ).1 <= footprint(ptr, layout).0
        }),
        heap.allocate(layout).0.is_out(other_ptr, other_layout),
{
    let which = classify(layout);
    let other = classify(other_layout);
    let ptr = heap.allocate(layout).1.unwrap();
    let next = heap.allocate(layout).0;
    lemma_allocation_lies_in_heap(heap, layout);
    lemma_round_up(other_layout.size() as int, 8);
    if which != other {
        if other != HeapAllocator::LinkedListAllocator {
            assert(next.slabs[other.index()] == heap.slabs[other.index()]);
        }
        lemma_parts_do_not_overlap(heap, ptr, layout, other_ptr, other_layout);
    } else if which == HeapAllocator::LinkedListAllocator {
        lemma_allocate_spares_taken(
            heap.big,
            layout,
            other_ptr as int,
            request_size(other_layout.size() as int),
        );
    } else {
        let slab = heap.slabs[which.index()];
        let rest = next.slabs[which.index()];
        lemma_slab_steps(slab, 0);
        lemma_same_regions(slab, rest, other_ptr as int);
        assert(slab.free.contains(ptr));
        assert forall|i: int| 0 <= i < rest.free.len() implies rest.free[i] != other_ptr by {
            assert(rest.free[i] == slab.free[i + 1]);
        }
        lemma_blocks_are_apart(ptr as int, other_ptr as int, slab.block_size as int);
    }
}

/// On a new heap no block stands twice on a free list.
pub proof fn lemma_fresh_is_tidy(start: usize, size: usize)
    requires
        start > 0,
        start % 4096 == 0,
        size >= MIN_HEAP_SIZE,
        size % MIN_HEAP_SIZE == 0,
        start + size <= usize::MAX,
    ensures
        HeapView::fresh(start, size).is_tidy(),
{
    let part = size as int / 8;
    let fresh = HeapView::fresh(start, size);
    assert(MIN_HEAP_SIZE == 32768);
    assert forall|k: int| 0 <= k < 7 implies (#[trigger] fresh.slabs[k]).free.no_duplicates() by {
        let block_size = slab_block_size(k);
        lemma_part_start(start as int, part, k);
        assert(4096int % (block_size as int) == 0);
        lemma_multiple_of_multiple(start + k * part, 4096, block_size as int);
        lemma_fresh_slab((start + k * part) as usize, part as usize, block_size);
    }
}

/// A heap on whose free lists no block stands twice stays so through an allocation,
/// through growth, and when memory comes back that is out. What an allocation hands out
/// is out afterwards.
pub proof fn lemma_steps_keep_tidy(
    heap: HeapView,
    layout: Layout,
    ptr: usize,
    start: usize,
    size: usize,
    which: HeapAllocator,
)
    requires
        heap.wf(),
        heap.is_tidy(),
        layout.is_valid(),
    ensures
        heap.allocate(layout).0.is_tidy(),
        heap.allocate(layout).1 matches Ok(new) ==> heap.allocate(layout).0.is_out(new, layout),
        heap.is_out(ptr, layout) ==> heap.deallocate(ptr, layout).is_tidy(),
        heap.can_grow(start, size, which) ==> heap.grow(start, size, which).is_tidy(),
{
    let served = classify(layout);
    let k = served.index();
    let taken = heap.allocate(layout).0;
    if served == HeapAllocator::LinkedListAllocator {
        lemma_allocate(heap.big, layout);
        assert forall|j: int| 0 <= j < 7 implies (#[trigger] taken.slabs[j]).free.no_duplicates() by {
            assert(taken.slabs[j] == heap.slabs[j]);
        }
    } else {
        lemma_allocate_keeps_distinct(heap.slabs[k]);
        lemma_slab_steps(heap.slabs[k], 0);
        assert forall|j: int| 0 <= j < 7 implies (#[trigger] taken.slabs[j]).free.no_duplicates() by {
            if j != k {
                assert(taken.slabs[j] == heap.slabs[j]);
            }
        }
        if heap.allocate(layout).1 is Ok {
            lemma_same_regions(
                heap.slabs[k],
                taken.slabs[k],
                heap.allocate(layout).1.unwrap() as int,
            );
        }
    }
    if heap.is_out(ptr, layout) {
        let back = heap.deallocate(ptr, layout);
        if served != HeapAllocator::LinkedListAllocator {
            lemma_deallocate_keeps_distinct(heap.slabs[k], ptr);
        }
        assert forall|j: int| 0 <= j < 7 implies (#[trigger] back.slabs[j]).free.no_duplicates() by {
            if j != k || served == HeapAllocator::LinkedListAllocator {
                assert(back.slabs[j] == heap.slabs[j]);
            }
        }
    }
    if heap.can_grow(start, size, which) {
        let grown = heap.grow(start, size, which);
        if which != HeapAllocator::LinkedListAllocator {
            lemma_slab_grow(heap.slabs[which.index()], start, size);
        }
        assert forall|j: int| 0 <= j < 7 implies (#[trigger] grown.slabs[j]).free.no_duplicates() by {
            if j != which.index() || which == HeapAllocator::LinkedListAllocator {
                assert(grown.slabs[j] == heap.slabs[j]);
            }
        }
    }
}

/// What is out stays out when other memory comes back.
pub proof fn lemma_deallocation_spares_others(
    heap: HeapView,
    ptr: usize,
    layout: Layout,
    other_ptr: usize,
    other_layout: Layout,
)
    requires
        heap.wf(),
        heap.can_release(ptr, layout),
        heap.is_out(other_ptr, other_layout),
        footprint(ptr, layout).1 <= footprint(other_ptr, other_layout).0 || footprint(
            other_ptr,
            other_layout,
        ).1 <= footprint(ptr, layout).0,
    ensures
        heap.deallocate(ptr, layout).is_out(other_ptr, other_layout),
{
    let which = classify(layout);
    let other = classify(other_layout);
    let back = heap.deallocate(ptr, layout);
    if which != other {
        if other != HeapAllocator::LinkedListAllocator {
            assert(back.slabs[other.index()] == heap.slabs[other.index()]);
        }
    } else if which == HeapAllocator::LinkedListAllocator {
        lemma_round_up(other_layout.size() as int, 8);
        lemma_deallocate_spares_taken(
            heap.big,
            ptr,
            layout,
            other_ptr as int,
            request_size(other_layout.size() as int),
        );
    } else {
        let slab = heap.slabs[which.index()];
        let more = back.slabs[which.index()];
        lemma_same_regions(slab, more, other_ptr as int);
        assert(ptr != other_ptr);
        assert forall|i: int| 0 <= i < more.free.len() implies more.free[i] != other_ptr by {
            if i > 0 {
                assert(more.free[i] == slab.free[i - 1]);
            }
        }
    }
}

/// Two blocks at different multiples of the block size have no byte in common.
proof fn lemma_blocks_are_apart(a: int, b: int, block_size: int)
    requires
        block_size > 0,
        a >= 0,
        b >= 0,
        a % block_size == 0,
        b % block_size == 0,
        a != b,
    ensures
        a + block_size <= b || b + block_size <= a,
{
    vstd::arithmetic::div_mod::lemma_fundamental_div_mod(a, block_size);
    vstd::arithmetic::div_mod::lemma_fundamental_div_mod(b, block_size);
    let m = a / block_size;
    let n = b / block_size;
    assert(a + block_size <= b || b + block_size <= a) by (nonlinear_arith)
        requires
            a == block_size * m,
            b == block_size * n,
            a != b,
            block_size > 0,
    ;
}

/// An address that a slab hands out is a multiple of the block size of that slab.
pub proof fn lemma_allocation_is_block_aligned(heap: HeapView, layout: Layout)
    requires
        heap.wf(),
    ensures
        heap.allocate(layout).1 matches Ok(ptr) ==> (classify(layout).block_size() matches Some(
            block_size,
        ) ==> ptr != 0 && ptr % block_size == 0),
{
    let which = classify(layout);
    if which != HeapAllocator::LinkedListAllocator {
        lemma_slab_steps(heap.slabs[which.index()], 0);
    }
}

/// When a slab serves a request, handing the block back undoes the allocation, and the
/// same request then gets the same block again.
pub proof fn lemma_reallocation_returns_same_block(heap: HeapView, layout: Layout)
    requires
        heap.wf(),
        classify(layout) != HeapAllocator::LinkedListAllocator,
        heap.allocate(layout).1 is Ok,
    ensures
        ({
            let ptr = heap.allocate(layout).1.unwrap();
            let taken = heap.allocate(layout).0;
            &&& taken.can_release(ptr, layout)
            &&& taken.deallocate(ptr, layout) == heap
            &&& taken.deallocate(ptr, layout).allocate(layout) == heap.allocate(layout)
        }),
{
    let k = classify(layout).index();
    lemma_slab_reuses_last_block(heap.slabs[k]);
    let ptr = heap.allocate(layout).1.unwrap();
    let taken = heap.allocate(layout).0;
    assert(taken.deallocate(ptr, layout).slabs =~= heap.slabs);
}

/// A request for more bytes than the heap was given in all fails, and leaves the heap
/// as it is.
pub proof fn lemma_oversized_allocation_fails(heap: HeapView, layout: Layout)
    requires
        heap.wf(),
        layout.size() > heap.total_len,
    ensures
        heap.allocate(layout).1 is Err,
        heap.allocate(layout).0 == heap,
{
    lemma_too_large_fails(heap.big, layout);
}

/// On a new heap, two requests that go to the same slab one after the other get the
/// first block of that slab's part and the block right behind it, if the part holds two
/// blocks at least.
pub proof fn lemma_successive_blocks_are_adjacent(
    start: usize,
    size: usize,
    first: Layout,
    second: Layout,
)
    requires
        start > 0,
        start % 4096 == 0,
        size >= MIN_HEAP_SIZE,
        size % MIN_HEAP_SIZE == 0,
        start + size <= usize::MAX,
        classify(first) == classify(second),
        classify(first).block_size() matches Some(block_size) && 2 * block_size <= size / 8,
    ensures
        ({
            let heap = HeapView::fresh(start, size);
            let block_size = classify(first).block_size().unwrap();
            let part_start = start + classify(first).index() * (size / 8);
            &&& heap.allocate(first).1 == Ok::<usize, AllocError>(part_start as usize)
            &&& heap.allocate(first).0.allocate(second).1 == Ok::<usize, AllocError>(
                (part_start + block_size) as usize,
            )
        }),
{
    let heap = HeapView::fresh(start, size);
    let k = classify(first).index();
    let block_size = slab_block_size(k);
    let part = (size / 8) as usize;
    assert(MIN_HEAP_SIZE == 32768);
    lemma_part_start(start as int, part as int, k);
    let part_start = (start + k * part) as usize;
    assert(4096int % (block_size as int) == 0);
    lemma_multiple_of_multiple(part_start as int, 4096, block_size as int);
    assert(part / block_size >= 2) by {
        vstd::arithmetic::div_mod::lemma_div_is_ordered(
            2 * block_size as int,
            part as int,
            block_size as int,
        );
        vstd::arithmetic::div_mod::lemma_div_multiples_vanish(2, block_size as int);
    }
    lemma_fresh_slab_block(part_start, part, block_size, 0);
    lemma_fresh_slab_block(part_start, part, block_size, 1);
    let slab = heap.slabs[k];
    assert(slab == fresh_slab(part_start, part, block_size));
    assert(slab.free[0] == part_start + 0 * block_size);
    assert(slab.free[1] == part_start + 1 * block_size);
    assert(0 * block_size == 0 && 1 * block_size == block_size);
    assert(slab.allocate().0.free[0] == slab.free[1]);
    assert(heap.allocate(first).0.slabs[k] == slab.allocate().0);
}

/// The block sizes of the slabs are powers of two.
pub proof fn lemma_is_pow2_block(k: int)
    ensures
        is_pow2(slab_block_size(k) as int),
{
    reveal_with_fuel(is_pow2, 14);
}

} // verus!
