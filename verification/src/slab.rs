//! A slab: a cache of equally sized blocks, kept on a last-in, first-out free list.

use crate::extent::Extent;
use crate::layout::{AllocError, Layout};
use vstd::prelude::*;

verus! {

/// A free block: its address and the link to the block below it on the list.
pub struct FreeBlock {
    addr: usize,
    next: Option<Box<FreeBlock>>,
}

/// The addresses of the blocks chained from `link` on, nearest first.
pub closed spec fn chain_of(link: Option<Box<FreeBlock>>) -> Seq<usize>
    decreases link,
{
    match link {
        None => Seq::empty(),
        Some(block) => seq![block.addr] + chain_of(block.next),
    }
}

/// The start addresses of `n` blocks of `block_size` bytes laid out from `start` on,
/// lowest first.
pub open spec fn blocks_of(start: int, block_size: int, n: nat) -> Seq<usize> {
    Seq::new(n, |i: int| (start + i * block_size) as usize)
}

impl FreeBlock {
    /// The address of the block.
    pub closed spec fn spec_addr(&self) -> usize {
        self.addr
    }

    /// True of a block that stands alone, with no other block linked below it.
    pub closed spec fn is_detached(&self) -> bool {
        self.next.is_none()
    }

    /// The free block at `addr`, not yet on any list.
    pub fn new(addr: usize) -> (block: FreeBlock)
        ensures
            block.addr() == addr,
            block.is_detached(),
    {
        FreeBlock { addr, next: None }
    }

    /// The address of the block.
    #[verifier::when_used_as_spec(spec_addr)]
    pub fn addr(&self) -> (addr: usize)
        ensures
            addr == self.addr(),
    {
        self.addr
    }
}

/// A last-in, first-out list of free blocks. Its view is the sequence of block
/// addresses, the next one to be popped first.
pub struct FreeBlockList {
    len: usize,
    head: Option<Box<FreeBlock>>,
}

impl View for FreeBlockList {
    type V = Seq<usize>;

    closed spec fn view(&self) -> Seq<usize> {
        chain_of(self.head)
    }
}

impl FreeBlockList {
    /// The stored length is the number of blocks on the chain.
    pub closed spec fn wf(&self) -> bool {
        self.len == chain_of(self.head).len()
    }

    /// The list of the `num_of_blocks` blocks of `block_size` bytes from `start_addr` on.
    /// The lowest address is popped first.
    pub fn new(start_addr: usize, block_size: usize, num_of_blocks: usize) -> (list: FreeBlockList)
        requires
            start_addr + num_of_blocks * block_size <= usize::MAX,
        ensures
            list.wf(),
            list@ == blocks_of(start_addr as int, block_size as int, num_of_blocks as nat),
    {
        let mut new_list = FreeBlockList { len: 0, head: None };
        let mut i: usize = num_of_blocks;
        while i > 0
            invariant
                i <= num_of_blocks,
                start_addr + num_of_blocks * block_size <= usize::MAX,
                new_list.wf(),
                new_list@ == blocks_of(
                    start_addr as int,
                    block_size as int,
                    num_of_blocks as nat,
                ).subrange(i as int, num_of_blocks as int),
            decreases i,
        {
            i = i - 1;
            assert(i * block_size <= num_of_blocks * block_size) by (nonlinear_arith)
                requires
                    i <= num_of_blocks,
            ;
            new_list.push(FreeBlock::new(start_addr + i * block_size));
            assert(new_list@ =~= blocks_of(
                start_addr as int,
                block_size as int,
                num_of_blocks as nat,
            ).subrange(i as int, num_of_blocks as int));
        }
        assert(new_list@ =~= blocks_of(
            start_addr as int,
            block_size as int,
            num_of_blocks as nat,
        ));
        new_list
    }

    /// The number of blocks on the list.
    pub fn len(&self) -> (len: usize)
        requires
            self.wf(),
        ensures
            len == self@.len(),
    {
        self.len
    }

    /// Takes the head off the list, if there is one.
    pub fn pop(&mut self) -> (popped: Option<FreeBlock>)
        requires
            old(self).wf(),
        ensures
            final(self).wf(),
            old(self)@.len() == 0 ==> popped.is_none() && final(self)@ == old(self)@,
            old(self)@.len() > 0 ==> final(self)@ == old(self)@.drop_first() && (popped matches Some(
                block,
            ) && block.addr() == old(self)@[0] && block.is_detached()),
    {
        let mut head: Option<Box<FreeBlock>> = None;
        std::mem::swap(&mut self.head, &mut head);
        match head {
            None => None,
            Some(node) => {
                let mut node = *node;
                let mut next: Option<Box<FreeBlock>> = None;
                std::mem::swap(&mut node.next, &mut next);
                self.head = next;
                self.len = self.len - 1;
                assert(self@ =~= old(self)@.drop_first());
                Some(node)
            },
        }
    }

    /// Puts `free_block` on the list as its new head. Whatever was linked below the
    /// block before is let go.
    pub fn push(&mut self, free_block: FreeBlock)
        requires
            old(self).wf(),
            old(self)@.len() < usize::MAX,
        ensures
            final(self).wf(),
            final(self)@ == seq![free_block.addr()] + old(self)@,
    {
        let mut free_block = free_block;
        let mut head: Option<Box<FreeBlock>> = None;
        std::mem::swap(&mut self.head, &mut head);
        free_block.next = head;
        self.len = self.len + 1;
        self.head = Some(Box::new(free_block));
    }
}

impl Drop for FreeBlockList {
    /// Unlinks the blocks one by one, so that a long list is let go without deep recursion.
    fn drop(&mut self)
        opens_invariants none
        no_unwind
    {
        let mut rest: Option<Box<FreeBlock>> = None;
        std::mem::swap(&mut self.head, &mut rest);
        loop
            decreases rest,
        {
            match rest {
                None => {
                    break ;
                },
                Some(node) => {
                    let mut node = node;
                    let mut next: Option<Box<FreeBlock>> = None;
                    std::mem::swap(&mut node.next, &mut next);
                    rest = next;
                },
            }
        }
    }
}

/// What a slab is to its callers: the block size, the regions of memory that it was
/// given, the number of whole blocks in them, and the free list, the next block to be
/// handed out first.
pub struct SlabView {
    pub block_size: usize,
    pub regions: Seq<Extent>,
    pub capacity: usize,
    pub free: Seq<usize>,
}

impl SlabView {
    /// Whether the block at `ptr` lies in one of the regions of the slab.
    pub open spec fn holds_block(self, ptr: int) -> bool {
        exists|r: int|
            0 <= r < self.regions.len() && (#[trigger] self.regions[r]).holds(
                ptr,
                self.block_size as int,
            )
    }

    /// The regions lie in the address space and have no byte in common. Every free
    /// block is at a non-null multiple of the block size and lies in one of the regions.
    /// No more blocks are free than the slab was given.
    pub open spec fn wf(self) -> bool {
        &&& self.block_size > 0
        &&& self.free.len() <= self.capacity
        &&& forall|r: int| 0 <= r < self.regions.len() ==> (#[trigger] self.regions[r]).end() <= usize::MAX
        &&& forall|r: int, s: int|
            0 <= r < s < self.regions.len() ==> (#[trigger] self.regions[r]).is_apart_from(
                #[trigger] self.regions[s],
            )
        &&& forall|i: int|
            0 <= i < self.free.len() ==> {
                let block = #[trigger] self.free[i];
                block != 0 && block % self.block_size == 0 && self.holds_block(block as int)
            }
    }

    /// A slab of blocks of `block_size` bytes that was given no memory.
    pub open spec fn nothing(block_size: usize) -> SlabView {
        SlabView { block_size, regions: Seq::empty(), capacity: 0, free: Seq::empty() }
    }

    /// The slab after one allocation, and the result of that allocation: the head of
    /// the free list leaves it; an empty slab fails and stays as it is.
    pub open spec fn allocate(self) -> (SlabView, Result<usize, AllocError>) {
        if self.free.len() == 0 {
            (self, Err(AllocError))
        } else {
            (SlabView { free: self.free.drop_first(), ..self }, Ok(self.free[0]))
        }
    }

    /// Whether the slab takes `ptr` back: it is the address of a block in one of the
    /// regions, and at least one block is out.
    pub open spec fn can_release(self, ptr: usize) -> bool {
        &&& ptr != 0
        &&& ptr % self.block_size == 0
        &&& self.holds_block(ptr as int)
        &&& self.free.len() < self.capacity
    }

    /// The slab after `ptr` was handed back: it is the new head of the free list.
    pub open spec fn deallocate(self, ptr: usize) -> SlabView {
        SlabView { free: seq![ptr] + self.free, ..self }
    }

    /// Whether the slab can be given the memory of `[start, start + len)`: whole
    /// blocks at an aligned, non-null address, which share no byte with the regions that
    /// the slab has.
    pub open spec fn can_grow(self, start: usize, len: usize) -> bool {
        &&& start > 0
        &&& start % self.block_size == 0
        &&& len % self.block_size == 0
        &&& start + len <= usize::MAX
        &&& self.capacity + len / self.block_size <= usize::MAX
        &&& forall|r: int|
            0 <= r < self.regions.len() ==> (#[trigger] self.regions[r]).is_apart_from(
                Extent { start, len },
            )
    }

    /// The slab after it was given the blocks of `[start, start + len)`: they stand on
    /// top of the free list, the highest address first.
    pub open spec fn grow(self, start: usize, len: usize) -> SlabView {
        let n = len as int / self.block_size as int;
        SlabView {
            regions: self.regions.push(Extent { start, len }),
            capacity: (self.capacity + n) as usize,
            free: blocks_of(start as int, self.block_size as int, n as nat).reverse() + self.free,
            ..self
        }
    }
}

/// The slab over `[start, start + len)` before its first allocation: every whole block
/// is free, the lowest address first.
pub open spec fn fresh_slab(start: usize, len: usize, block_size: usize) -> SlabView {
    SlabView {
        block_size,
        regions: seq![Extent { start, len }],
        capacity: len / block_size,
        free: blocks_of(start as int, block_size as int, (len / block_size) as nat),
    }
}

/// A block that lies in a region of the slab lies in the slab.
pub proof fn lemma_holds_block(slab: SlabView, r: int, ptr: int)
    requires
        0 <= r < slab.regions.len(),
        slab.regions[r].holds(ptr, slab.block_size as int),
    ensures
        slab.holds_block(ptr),
{
}

/// A block that lies in one slab lies in every slab with the same regions and the same
/// block size.
pub proof fn lemma_same_regions(slab: SlabView, other: SlabView, ptr: int)
    requires
        slab.regions == other.regions,
        slab.block_size == other.block_size,
    ensures
        slab.holds_block(ptr) == other.holds_block(ptr),
{
    if slab.holds_block(ptr) {
        let r = choose|r: int|
            0 <= r < slab.regions.len() && (#[trigger] slab.regions[r]).holds(
                ptr,
                slab.block_size as int,
            );
        lemma_holds_block(other, r, ptr);
    }
    if other.holds_block(ptr) {
        let r = choose|r: int|
            0 <= r < other.regions.len() && (#[trigger] other.regions[r]).holds(
                ptr,
                other.block_size as int,
            );
        lemma_holds_block(slab, r, ptr);
    }
}

/// A new slab over an aligned, non-null start is well-formed, and no block is free
/// twice.
pub proof fn lemma_fresh_slab(start: usize, len: usize, block_size: usize)
    requires
        block_size > 0,
        start > 0,
        start % block_size == 0,
        start + len <= usize::MAX,
    ensures
        fresh_slab(start, len, block_size).wf(),
        fresh_slab(start, len, block_size).free.no_duplicates(),
{
    let slab = fresh_slab(start, len, block_size);
    let n = (len / block_size) as nat;
    lemma_whole_blocks(len as int, block_size as int);
    lemma_blocks_of(start as int, block_size as int, n);
    assert forall|i: int| 0 <= i < slab.free.len() implies {
        let block = #[trigger] slab.free[i];
        block != 0 && block % slab.block_size == 0 && slab.holds_block(block as int)
    } by {
        lemma_holds_block(slab, 0, slab.free[i] as int);
    }
}

/// Block `i` of a new slab is `i` blocks away from the start of the slab.
pub proof fn lemma_fresh_slab_block(start: usize, len: usize, block_size: usize, i: int)
    requires
        block_size > 0,
        start > 0,
        start % block_size == 0,
        start + len <= usize::MAX,
        0 <= i < len / block_size,
    ensures
        fresh_slab(start, len, block_size).free.len() == len / block_size,
        fresh_slab(start, len, block_size).free[i] == start + i * block_size,
{
    lemma_whole_blocks(len as int, block_size as int);
    lemma_blocks_of(start as int, block_size as int, (len / block_size) as nat);
    let blocks = blocks_of(start as int, block_size as int, (len / block_size) as nat);
    assert(blocks[i] == start + i * block_size);
}

/// Allocating and taking back keep a slab well-formed. A block that is handed out is
/// at a non-null multiple of the block size and lies in one of the regions of the slab.
pub proof fn lemma_slab_steps(slab: SlabView, ptr: usize)
    requires
        slab.wf(),
    ensures
        slab.allocate().0.wf(),
        slab.allocate().1 matches Ok(block) ==> block != 0 && block % slab.block_size == 0
            && slab.holds_block(block as int),
        slab.can_release(ptr) ==> slab.deallocate(ptr).wf(),
{
    if slab.free.len() > 0 {
        assert(slab.free[0] != 0);
        let rest = slab.allocate().0;
        assert forall|i: int| 0 <= i < rest.free.len() implies {
            let block = #[trigger] rest.free[i];
            block != 0 && block % rest.block_size == 0 && rest.holds_block(block as int)
        } by {
            assert(rest.free[i] == slab.free[i + 1]);
            lemma_same_regions(slab, rest, rest.free[i] as int);
        }
    }
    if slab.can_release(ptr) {
        let more = slab.deallocate(ptr);
        assert forall|i: int| 0 <= i < more.free.len() implies {
            let block = #[trigger] more.free[i];
            block != 0 && block % more.block_size == 0 && more.holds_block(block as int)
        } by {
            if i > 0 {
                assert(more.free[i] == slab.free[i - 1]);
            }
            lemma_same_regions(slab, more, more.free[i] as int);
        }
    }
}

/// Giving a slab memory that it can be given keeps it well-formed. If no block was
/// free twice before, none is afterwards.
pub proof fn lemma_slab_grow(slab: SlabView, start: usize, len: usize)
    requires
        slab.wf(),
        slab.can_grow(start, len),
    ensures
        slab.grow(start, len).wf(),
        slab.free.no_duplicates() ==> slab.grow(start, len).free.no_duplicates(),
{
    let n = (len / slab.block_size) as nat;
    let fresh = blocks_of(start as int, slab.block_size as int, n);
    lemma_whole_blocks(len as int, slab.block_size as int);
    lemma_blocks_of(start as int, slab.block_size as int, n);
    let grown = slab.grow(start, len);
    let last = slab.regions.len() as int;
    assert forall|r: int, s: int| 0 <= r < s < grown.regions.len() implies (
    #[trigger] grown.regions[r]).is_apart_from(#[trigger] grown.regions[s]) by {
        if s < last {
            assert(grown.regions[r] == slab.regions[r] && grown.regions[s] == slab.regions[s]);
        } else {
            assert(grown.regions[r] == slab.regions[r]);
        }
    }
    assert forall|i: int| 0 <= i < grown.free.len() implies {
        let block = #[trigger] grown.free[i];
        block != 0 && block % grown.block_size == 0 && grown.holds_block(block as int)
    } by {
        if i < n {
            assert(grown.free[i] == fresh[n - 1 - i]);
            lemma_holds_block(grown, last, grown.free[i] as int);
        } else {
            assert(grown.free[i] == slab.free[i - n]);
            let r = choose|r: int|
                0 <= r < slab.regions.len() && (#[trigger] slab.regions[r]).holds(
                    slab.free[i - n] as int,
                    slab.block_size as int,
                );
            assert(grown.regions[r] == slab.regions[r]);
            lemma_holds_block(grown, r, grown.free[i] as int);
        }
    }
    if slab.free.no_duplicates() {
        assert forall|i: int, j: int|
            0 <= i < grown.free.len() && 0 <= j < grown.free.len() && i != j implies grown.free[i]
            != grown.free[j] by {
            if i < n {
                assert(grown.free[i] == fresh[n - 1 - i]);
            } else {
                assert(grown.free[i] == slab.free[i - n]);
            }
            if j < n {
                assert(grown.free[j] == fresh[n - 1 - j]);
            } else {
                assert(grown.free[j] == slab.free[j - n]);
            }
            if i < n && j >= n {
                lemma_new_block_is_not_free(slab, start, len, n - 1 - i, j - n);
            }
            if j < n && i >= n {
                lemma_new_block_is_not_free(slab, start, len, n - 1 - j, i - n);
            }
        }
    }
}

/// A block of the memory that a slab can be given is none of the slab's free blocks.
proof fn lemma_new_block_is_not_free(slab: SlabView, start: usize, len: usize, i: int, j: int)
    requires
        slab.wf(),
        slab.can_grow(start, len),
        0 <= i < len / slab.block_size,
        0 <= j < slab.free.len(),
    ensures
        blocks_of(start as int, slab.block_size as int, (len / slab.block_size) as nat)[i]
            != slab.free[j],
{
    let n = (len / slab.block_size) as nat;
    lemma_whole_blocks(len as int, slab.block_size as int);
    lemma_blocks_of(start as int, slab.block_size as int, n);
    let block = blocks_of(start as int, slab.block_size as int, n)[i];
    let r = choose|r: int|
        0 <= r < slab.regions.len() && (#[trigger] slab.regions[r]).holds(
            slab.free[j] as int,
            slab.block_size as int,
        );
    assert(slab.regions[r].is_apart_from(Extent { start, len }));
}

/// Taking back the block that was handed out last undoes the allocation, and the next
/// allocation hands out that block again.
pub proof fn lemma_slab_reuses_last_block(slab: SlabView)
    requires
        slab.wf(),
        slab.free.len() > 0,
    ensures
        slab.allocate().0.can_release(slab.free[0]),
        slab.allocate().0.deallocate(slab.free[0]) == slab,
        slab.allocate().0.deallocate(slab.free[0]).allocate() == slab.allocate(),
{
    assert(slab.free[0] != 0);
    assert(slab.allocate().0.deallocate(slab.free[0]).free =~= slab.free);
}

/// A slab in which no block is free twice stays so when it hands out a block, and the
/// block that it hands out is free no more.
pub proof fn lemma_allocate_keeps_distinct(slab: SlabView)
    requires
        slab.free.no_duplicates(),
    ensures
        slab.allocate().0.free.no_duplicates(),
        slab.allocate().1 matches Ok(block) ==> !slab.allocate().0.free.contains(block),
{
    if slab.free.len() > 0 {
        let rest = slab.allocate().0.free;
        assert forall|i: int| 0 <= i < rest.len() implies #[trigger] rest[i] != slab.free[0] by {
            assert(rest[i] == slab.free[i + 1]);
        }
    }
}

/// A slab in which no block is free twice stays so when it takes back a block that is
/// not free.
pub proof fn lemma_deallocate_keeps_distinct(slab: SlabView, ptr: usize)
    requires
        slab.free.no_duplicates(),
        !slab.free.contains(ptr),
    ensures
        slab.deallocate(ptr).free.no_duplicates(),
{
    let grown = slab.deallocate(ptr).free;
    assert forall|i: int, j: int| 0 <= i < grown.len() && 0 <= j < grown.len() && i != j implies grown[i]
        != grown[j] by {
        if i > 0 {
            assert(grown[i] == slab.free[i - 1]);
        }
        if j > 0 {
            assert(grown[j] == slab.free[j - 1]);
        }
    }
}

/// The blocks laid out from an aligned, non-null start are at non-null multiples of
/// the block size, inside the region, and no two of them are the same.
pub proof fn lemma_blocks_of(start: int, block_size: int, n: nat)
    requires
        start > 0,
        block_size > 0,
        start % block_size == 0,
        start + n * block_size <= usize::MAX,
    ensures
        blocks_of(start, block_size, n).no_duplicates(),
        forall|i: int|
            0 <= i < n ==> {
                let b = #[trigger] blocks_of(start, block_size, n)[i];
                &&& b == start + i * block_size
                &&& b != 0
                &&& b % (block_size as usize) == 0
                &&& start <= b
                &&& b + block_size <= start + n * block_size
            },
{
    let blocks = blocks_of(start, block_size, n);
    assert forall|i: int| 0 <= i < n implies {
        let b = #[trigger] blocks[i];
        &&& b == start + i * block_size
        &&& b != 0
        &&& b % (block_size as usize) == 0
        &&& start <= b
        &&& b + block_size <= start + n * block_size
    } by {
        assert(0 <= i * block_size && (i + 1) * block_size <= n * block_size) by (nonlinear_arith)
            requires
                0 <= i < n,
                block_size > 0,
        ;
        assert((i + 1) * block_size == i * block_size + block_size) by (nonlinear_arith);
        vstd::arithmetic::div_mod::lemma_mod_multiples_vanish(i, start, block_size);
        assert(i * block_size + start == block_size * i + start) by (nonlinear_arith);
    }
    assert forall|i: int, j: int| 0 <= i < n && 0 <= j < n && i != j implies blocks[i]
        != blocks[j] by {
        assert(blocks[i] == start + i * block_size);
        assert(blocks[j] == start + j * block_size);
        assert(i * block_size != j * block_size) by (nonlinear_arith)
            requires
                i != j,
                block_size > 0,
        ;
    }
}

/// The whole blocks of a region take no more room than the region.
proof fn lemma_whole_blocks(len: int, block_size: int)
    requires
        len >= 0,
        block_size > 0,
    ensures
        0 <= (len / block_size) * block_size <= len,
        len % block_size == 0 ==> (len / block_size) * block_size == len,
{
    vstd::arithmetic::div_mod::lemma_fundamental_div_mod(len, block_size);
    vstd::arithmetic::div_mod::lemma_mod_pos_bound(len, block_size);
    assert(block_size * (len / block_size) == (len / block_size) * block_size)
        by (nonlinear_arith);
    vstd::arithmetic::div_mod::lemma_div_pos_is_pos(len, block_size);
    assert(0 <= (len / block_size) * block_size) by (nonlinear_arith)
        requires
            0 <= len / block_size,
            block_size > 0,
    ;
}

/// A cache of blocks of one size.
pub struct Slab {
    block_size: usize,
    regions: Vec<Extent>,
    capacity: usize,
    free_block_list: FreeBlockList,
}

impl View for Slab {
    type V = SlabView;

    closed spec fn view(&self) -> SlabView {
        SlabView {
            block_size: self.block_size,
            regions: self.regions@,
            capacity: self.capacity,
            free: self.free_block_list@,
        }
    }
}

impl Slab {
    /// The free list is sound: its stored length is the number of its blocks.
    pub closed spec fn list_wf(&self) -> bool {
        self.free_block_list.wf()
    }

    /// The free list is sound, and the view is well-formed.
    pub open spec fn wf(&self) -> bool {
        &&& self.list_wf()
        &&& self@.wf()
    }

    /// A slab without memory, to be given some by [`Slab::grow`].
    pub fn empty(block_size: usize) -> (slab: Slab)
        requires
            block_size > 0,
        ensures
            slab.wf(),
            slab@ == SlabView::nothing(block_size),
    {
        Slab {
            block_size,
            regions: Vec::new(),
            capacity: 0,
            free_block_list: FreeBlockList::new(0, 0, 0),
        }
    }

    /// A slab over the `slab_size / block_size` blocks from `start_addr` on. The first
    /// allocation returns `start_addr`, the next one the block after it, and so on.
    pub fn new(start_addr: usize, slab_size: usize, block_size: usize) -> (slab: Slab)
        requires
            block_size > 0,
            start_addr > 0,
            start_addr % block_size == 0,
            start_addr + slab_size <= usize::MAX,
        ensures
            slab.wf(),
            slab@ == fresh_slab(start_addr, slab_size, block_size),
    {
        let num_of_blocks = slab_size / block_size;
        proof {
            lemma_whole_blocks(slab_size as int, block_size as int);
            lemma_fresh_slab(start_addr, slab_size, block_size);
        }
        let mut regions: Vec<Extent> = Vec::new();
        regions.push(Extent { start: start_addr, len: slab_size });
        assert(regions@ =~= seq![Extent { start: start_addr, len: slab_size }]);
        Slab {
            block_size,
            regions,
            capacity: num_of_blocks,
            free_block_list: FreeBlockList::new(start_addr, block_size, num_of_blocks),
        }
    }

    /// The size of the blocks of this slab.
    pub fn block_size(&self) -> (block_size: usize)
        ensures
            block_size == self@.block_size,
    {
        self.block_size
    }

    /// The number of whole blocks in the memory that the slab was given.
    pub fn capacity(&self) -> (capacity: usize)
        ensures
            capacity == self@.capacity,
    {
        self.capacity
    }

    /// The number of blocks that are free.
    pub fn free_blocks(&self) -> (free: usize)
        requires
            self.wf(),
        ensures
            free == self@.free.len(),
    {
        self.free_block_list.len()
    }

    /// Tells whether `region` shares no byte with the memory that the slab was given.
    pub fn is_apart_from(&self, region: &Extent) -> (r: bool)
        requires
            self.wf(),
            region.end() <= usize::MAX,
        ensures
            r == (forall|i: int|
                0 <= i < self@.regions.len() ==> (#[trigger] self@.regions[i]).is_apart_from(*region)),
    {
        let mut i: usize = 0;
        while i < self.regions.len()
            invariant
                i <= self.regions.len(),
                self.wf(),
                region.end() <= usize::MAX,
                forall|j: int| 0 <= j < i ==> (#[trigger] self.regions@[j]).is_apart_from(*region),
            decreases self.regions.len() - i,
        {
            assert(self@.regions[i as int].end() <= usize::MAX);
            if !self.regions[i].misses(region) {
                return false;
            }
            i = i + 1;
        }
        true
    }

    /// Tells whether the slab can be given the memory of
    /// `[start_addr, start_addr + slab_size)`.
    pub fn can_grow(&self, start_addr: usize, slab_size: usize) -> (r: bool)
        requires
            self.wf(),
        ensures
            r == self@.can_grow(start_addr, slab_size),
    {
        if start_addr == 0 || start_addr % self.block_size != 0 || slab_size % self.block_size
            != 0 || slab_size > usize::MAX - start_addr || slab_size / self.block_size > usize::MAX
            - self.capacity {
            return false;
        }
        self.is_apart_from(&Extent { start: start_addr, len: slab_size })
    }

    /// Gives the slab the blocks of `[start_addr, start_addr + slab_size)`, which is
    /// memory that the slab does not have yet.
    pub fn grow(&mut self, start_addr: usize, slab_size: usize)
        requires
            old(self).wf(),
            old(self)@.can_grow(start_addr, slab_size),
        ensures
            final(self).wf(),
            final(self)@ == old(self)@.grow(start_addr, slab_size),
    {
        let num_of_blocks = slab_size / self.block_size;
        proof {
            lemma_whole_blocks(slab_size as int, self.block_size as int);
            lemma_slab_grow(self@, start_addr, slab_size);
        }
        let ghost fresh = blocks_of(start_addr as int, self.block_size as int, num_of_blocks as nat);
        let mut block_list = FreeBlockList::new(start_addr, self.block_size, num_of_blocks);
        let mut moved: usize = 0;
        while moved < num_of_blocks
            invariant
                moved <= num_of_blocks,
                fresh.len() == num_of_blocks,
                block_list.wf(),
                block_list@ == fresh.subrange(moved as int, num_of_blocks as int),
                self.free_block_list.wf(),
                self.block_size == old(self).block_size,
                self.capacity == old(self).capacity,
                self.regions == old(self).regions,
                self.free_block_list@ == fresh.subrange(0, moved as int).reverse() + old(
                    self,
                ).free_block_list@,
                old(self).free_block_list@.len() <= old(self).capacity,
                old(self).capacity + num_of_blocks <= usize::MAX,
            decreases num_of_blocks - moved,
        {
            match block_list.pop() {
                Some(block) => {
                    self.free_block_list.push(block);
                    moved = moved + 1;
                    assert(self.free_block_list@ =~= fresh.subrange(0, moved as int).reverse()
                        + old(self).free_block_list@);
                    assert(block_list@ =~= fresh.subrange(moved as int, num_of_blocks as int));
                },
                None => {},
            }
        }
        self.capacity = self.capacity + num_of_blocks;
        self.regions.push(Extent { start: start_addr, len: slab_size });
        assert(fresh.subrange(0, num_of_blocks as int) =~= fresh);
        assert(self@.free =~= old(self)@.grow(start_addr, slab_size).free);
    }

    /// Hands out the block at the head of the free list. `_layout` is not looked at:
    /// the caller picks a slab whose blocks are large and aligned enough for it.
    pub fn allocate(&mut self, _layout: Layout) -> (r: Result<usize, AllocError>)
        requires
            old(self).wf(),
        ensures
            final(self).wf(),
            final(self)@ == old(self)@.allocate().0,
            r == old(self)@.allocate().1,
            r matches Ok(ptr) ==> ptr != 0 && ptr % old(self)@.block_size == 0 && old(
                self,
            )@.holds_block(ptr as int),
    {
        proof {
            lemma_slab_steps(self@, 0);
        }
        match self.free_block_list.pop() {
            Some(block) => Ok(block.addr()),
            None => Err(AllocError),
        }
    }

    /// Tells whether `ptr` may be handed back.
    pub fn can_deallocate(&self, ptr: usize) -> (r: bool)
        requires
            self.wf(),
        ensures
            r == self@.can_release(ptr),
    {
        if ptr == 0 || ptr % self.block_size != 0 || self.free_block_list.len() >= self.capacity {
            return false;
        }
        let mut i: usize = 0;
        while i < self.regions.len()
            invariant
                i <= self.regions.len(),
                self.wf(),
                ptr != 0,
                ptr % self.block_size == 0,
                self.free_block_list@.len() < self.capacity,
                forall|j: int|
                    0 <= j < i ==> !(#[trigger] self.regions@[j]).holds(
                        ptr as int,
                        self.block_size as int,
                    ),
            decreases self.regions.len() - i,
        {
            assert(self@.regions[i as int].end() <= usize::MAX);
            if self.regions[i].contains(ptr, self.block_size) {
                proof {
                    lemma_holds_block(self@, i as int, ptr as int);
                }
                return true;
            }
            i = i + 1;
        }
        assert(!self@.holds_block(ptr as int));
        false
    }

    /// Takes the block at `ptr` back; it is the next one to be handed out.
    ///
    /// The block must be one that this slab handed out and that has not come back
    /// since. Of this only what [`SlabView::can_release`] says is demanded; a block that is
    /// already free would stand on the list twice.
    pub fn deallocate(&mut self, ptr: usize)
        requires
            old(self).wf(),
            old(self)@.can_release(ptr),
        ensures
            final(self).wf(),
            final(self)@ == old(self)@.deallocate(ptr),
    {
        proof {
            lemma_slab_steps(self@, ptr);
        }
        self.free_block_list.push(FreeBlock::new(ptr));
    }
}

} // verus!
