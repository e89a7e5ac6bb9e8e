//! The region for large requests: a first-fit allocator over a sorted list of free
//! extents, which joins neighbouring extents when memory comes back.

use crate::extent::Extent;
use crate::layout::{lemma_multiple_of_multiple, lemma_pow2_divides, AllocError, Layout};
use vstd::arithmetic::div_mod::{
    lemma_fundamental_div_mod,
    lemma_fundamental_div_mod_converse,
    lemma_mod_multiples_basic,
    lemma_mod_pos_bound,
};
use vstd::arithmetic::power2::is_pow2;
use vstd::prelude::*;

verus! {

/// The unit of the region: every request takes a whole number of words, at an address
/// that is a multiple of the word size.
pub const WORD_SIZE: usize = 8;

/// The least multiple of `unit` that is not below `x`.
pub open spec fn round_up(x: int, unit: int) -> int {
    ((x + unit - 1) / unit) * unit
}

/// The bytes that a request of `size` bytes takes: `size` rounded up to whole words,
/// and one word at least.
pub open spec fn request_size(size: int) -> int {
    if size == 0 {
        WORD_SIZE as int
    } else {
        round_up(size, WORD_SIZE as int)
    }
}

/// The alignment that a request of alignment `align` gets: one word at least.
pub open spec fn request_align(align: int) -> int {
    if align < WORD_SIZE {
        WORD_SIZE as int
    } else {
        align
    }
}

/// Whether `size` bytes at a multiple of `align` have room in `hole`.
pub open spec fn fits(hole: Extent, size: int, align: int) -> bool {
    round_up(hole.start as int, align) + size <= hole.end()
}

/// Whether `i` is the index of the first hole in which the request has room, or the
/// number of holes if it has room in none.
pub open spec fn is_first_fit(holes: Seq<Extent>, size: int, align: int, i: int) -> bool {
    &&& 0 <= i <= holes.len()
    &&& i < holes.len() ==> fits(holes[i], size, align)
    &&& forall|j: int| 0 <= j < i ==> !fits(#[trigger] holes[j], size, align)
}

/// The index of the first hole in which the request has room, or the number of holes
/// if it has room in none.
pub open spec fn first_fit(holes: Seq<Extent>, size: int, align: int) -> int {
    choose|i: int| is_first_fit(holes, size, align, i)
}

/// Whether `k` holes start below `ptr` and all others do not.
pub open spec fn is_rank(holes: Seq<Extent>, ptr: int, k: int) -> bool {
    &&& 0 <= k <= holes.len()
    &&& forall|j: int| 0 <= j < k ==> (#[trigger] holes[j]).start < ptr
    &&& forall|j: int| k <= j < holes.len() ==> (#[trigger] holes[j]).start >= ptr
}

/// The number of holes that start below `ptr`, in a list sorted by address.
pub open spec fn rank(holes: Seq<Extent>, ptr: int) -> int {
    choose|k: int| is_rank(holes, ptr, k)
}

/// The holes after `size` bytes at `addr` were cut out of hole `i`: what is left of
/// it in front and behind takes its place, as far as it is not empty.
pub open spec fn carve(holes: Seq<Extent>, i: int, addr: int, size: int) -> Seq<Extent> {
    let hole = holes[i];
    let front = if hole.start < addr {
        seq![Extent { start: hole.start, len: (addr - hole.start) as usize }]
    } else {
        Seq::empty()
    };
    let back = if addr + size < hole.end() {
        seq![Extent { start: (addr + size) as usize, len: (hole.end() - addr - size) as usize }]
    } else {
        Seq::empty()
    };
    holes.subrange(0, i) + front + back + holes.subrange(i + 1, holes.len() as int)
}

/// The holes after the bytes of `[ptr, ptr + size)` became free: they form one hole
/// together with the hole that ends at `ptr` and the hole that starts at `ptr + size`,
/// if there are such.
pub open spec fn join(holes: Seq<Extent>, ptr: int, size: int) -> Seq<Extent> {
    let k = rank(holes, ptr);
    let joins_left = k > 0 && holes[k - 1].end() == ptr;
    let joins_right = k < holes.len() && holes[k].start == ptr + size;
    let start = if joins_left {
        holes[k - 1].start as int
    } else {
        ptr
    };
    let end = if joins_right {
        holes[k].end()
    } else {
        ptr + size
    };
    holes.subrange(0, if joins_left { k - 1 } else { k })
        + seq![Extent { start: start as usize, len: (end - start) as usize }]
        + holes.subrange(if joins_right { k + 1 } else { k }, holes.len() as int)
}

/// What the region is to its callers: its bounds, and the free extents in the order of
/// their addresses.
pub struct BigRegionView {
    pub bottom: usize,
    pub top: usize,
    pub holes: Seq<Extent>,
}

impl BigRegionView {
    /// The holes are not empty, lie inside the region in the order of their addresses,
    /// and no two of them touch.
    pub open spec fn wf(self) -> bool {
        &&& self.bottom <= self.top
        &&& forall|i: int|
            0 <= i < self.holes.len() ==> {
                let hole = #[trigger] self.holes[i];
                hole.len > 0 && self.bottom <= hole.start && hole.end() <= self.top
            }
        &&& forall|i: int, j: int|
            0 <= i < j < self.holes.len() ==> (#[trigger] self.holes[i]).end() < (
            #[trigger] self.holes[j]).start
    }

    /// A region without memory.
    pub open spec fn nothing() -> BigRegionView {
        BigRegionView { bottom: 1, top: 1, holes: Seq::empty() }
    }

    /// The memory of the region.
    pub open spec fn extent(self) -> Extent {
        Extent { start: self.bottom, len: (self.top - self.bottom) as usize }
    }

    /// Whether the byte at `addr` is free: it lies in one of the holes.
    pub open spec fn is_free(self, addr: int) -> bool {
        exists|i: int|
            0 <= i < self.holes.len() && (#[trigger] self.holes[i]).start <= addr
                < self.holes[i].end()
    }

    /// The region after one allocation, and the result of that allocation. The first
    /// hole with room for the request is cut at the least aligned address in it; with
    /// no such hole the allocation fails and the region stays as it is.
    pub open spec fn allocate(self, layout: Layout) -> (BigRegionView, Result<usize, AllocError>) {
        let size = request_size(layout.size() as int);
        let align = request_align(layout.align() as int);
        let i = first_fit(self.holes, size, align);
        if i < self.holes.len() {
            let addr = round_up(self.holes[i].start as int, align);
            (BigRegionView { holes: carve(self.holes, i, addr, size), ..self }, Ok(addr as usize))
        } else {
            (self, Err(AllocError))
        }
    }

    /// Whether the region takes the allocation at `ptr` back: its bytes lie inside the
    /// region, and none of them is free already.
    pub open spec fn can_release(self, ptr: usize, layout: Layout) -> bool {
        is_taken(self, ptr as int, request_size(layout.size() as int))
    }

    /// The region after the allocation at `ptr` came back.
    pub open spec fn deallocate(self, ptr: usize, layout: Layout) -> BigRegionView {
        BigRegionView {
            holes: join(self.holes, ptr as int, request_size(layout.size() as int)),
            ..self
        }
    }

    /// The region after `by` more bytes were added at its top: they are free, and
    /// join the last hole if it reached the old top.
    pub open spec fn extend(self, by: usize) -> BigRegionView {
        BigRegionView {
            top: (self.top + by) as usize,
            holes: if by == 0 {
                self.holes
            } else {
                join(self.holes, self.top as int, by as int)
            },
            ..self
        }
    }
}

/// The region over `[start, start + len)` before its first allocation: all of it is
/// one hole.
pub open spec fn fresh_region(start: usize, len: usize) -> BigRegionView {
    BigRegionView {
        bottom: start,
        top: (start + len) as usize,
        holes: if len == 0 {
            Seq::empty()
        } else {
            seq![Extent { start, len }]
        },
    }
}

/// Whether the bytes of `[ptr, ptr + size)` lie inside the region and none of them is
/// in a hole.
pub open spec fn is_taken(region: BigRegionView, ptr: int, size: int) -> bool {
    &&& region.bottom <= ptr
    &&& ptr + size <= region.top
    &&& forall|i: int|
        0 <= i < region.holes.len() ==> (#[trigger] region.holes[i]).end() <= ptr || ptr + size
            <= region.holes[i].start
}

/// The word size is a power of two.
pub proof fn lemma_word_is_pow2()
    ensures
        is_pow2(WORD_SIZE as int),
{
    reveal_with_fuel(is_pow2, 5);
}

/// `round_up(x, unit)` is the least multiple of `unit` from `x` on; it is less than
/// `unit` away from `x`.
pub proof fn lemma_round_up(x: int, unit: int)
    requires
        x >= 0,
        unit > 0,
    ensures
        round_up(x, unit) % unit == 0,
        x <= round_up(x, unit) < x + unit,
        x % unit == 0 ==> round_up(x, unit) == x,
        x % unit != 0 ==> round_up(x, unit) == x + unit - x % unit,
{
    let q = x / unit;
    let r = x % unit;
    lemma_fundamental_div_mod(x, unit);
    lemma_mod_pos_bound(x, unit);
    if r == 0 {
        assert(x + unit - 1 == q * unit + (unit - 1)) by (nonlinear_arith)
            requires
                x == unit * q,
        ;
        lemma_fundamental_div_mod_converse(x + unit - 1, unit, q, unit - 1);
        assert(round_up(x, unit) == q * unit);
        assert(q * unit == x) by (nonlinear_arith)
            requires
                x == unit * q,
        ;
    } else {
        assert(x + unit - 1 == (q + 1) * unit + (r - 1)) by (nonlinear_arith)
            requires
                x == unit * q + r,
        ;
        lemma_fundamental_div_mod_converse(x + unit - 1, unit, q + 1, r - 1);
        assert(round_up(x, unit) == (q + 1) * unit);
        assert((q + 1) * unit == x + unit - r) by (nonlinear_arith)
            requires
                x == unit * q + r,
        ;
    }
    lemma_mod_multiples_basic((x + unit - 1) / unit, unit);
}

/// No multiple of `unit` lies between `x` and `round_up(x, unit)`.
pub proof fn lemma_round_up_is_least(x: int, unit: int, m: int)
    requires
        x >= 0,
        unit > 0,
        m >= x,
        m % unit == 0,
    ensures
        round_up(x, unit) <= m,
{
    lemma_round_up(x, unit);
    let up = round_up(x, unit);
    let n = (x + unit - 1) / unit;
    let qm = m / unit;
    lemma_fundamental_div_mod(m, unit);
    if m < up {
        assert(false) by (nonlinear_arith)
            requires
                m == unit * qm,
                up == n * unit,
                m < up,
                up < x + unit,
                x <= m,
                unit > 0,
        ;
    }
}

/// There is exactly one first fit.
pub proof fn lemma_first_fit(holes: Seq<Extent>, size: int, align: int, i: int)
    requires
        is_first_fit(holes, size, align, i),
    ensures
        first_fit(holes, size, align) == i,
{
    let f = first_fit(holes, size, align);
    assert(is_first_fit(holes, size, align, f));
    if f < i {
        assert(!fits(holes[f], size, align));
    }
    if i < f {
        assert(!fits(holes[i], size, align));
    }
}

/// There is exactly one rank.
pub proof fn lemma_rank(holes: Seq<Extent>, ptr: int, k: int)
    requires
        is_rank(holes, ptr, k),
    ensures
        rank(holes, ptr) == k,
{
    let r = rank(holes, ptr);
    assert(is_rank(holes, ptr, r));
    if r < k {
        assert(holes[r].start < ptr);
    }
    if k < r {
        assert(holes[k].start < ptr);
    }
}

/// Cutting an allocation out of a hole that holds it keeps the holes in order.
pub proof fn lemma_carve_wf(region: BigRegionView, i: int, addr: int, size: int)
    requires
        region.wf(),
        0 <= i < region.holes.len(),
        region.holes[i].start <= addr,
        addr + size <= region.holes[i].end(),
        size > 0,
    ensures
        (BigRegionView { holes: carve(region.holes, i, addr, size), ..region }).wf(),
{
    let holes = region.holes;
    let (f, b) = lemma_carve_shape(region, i, addr, size);
    let carved = carve(holes, i, addr, size);
    assert forall|j: int| 0 <= j < carved.len() implies {
        let h = #[trigger] carved[j];
        h.len > 0 && region.bottom <= h.start && h.end() <= region.top
    } by {
        if j < i {
            assert(carved[j] == holes[j]);
        } else if j >= i + f + b {
            assert(carved[j] == holes[j - f - b + 1]);
        }
    }
    assert forall|j: int, k: int| 0 <= j < k < carved.len() implies (#[trigger] carved[j]).end() < (
    #[trigger] carved[k]).start by {
        if j < i {
            assert(carved[j] == holes[j]);
        } else if j >= i + f + b {
            assert(carved[j] == holes[j - f - b + 1]);
        }
        if k < i {
            assert(carved[k] == holes[k]);
        } else if k >= i + f + b {
            assert(carved[k] == holes[k - f - b + 1]);
        }
    }
}

/// Freeing bytes of the region that are in no hole keeps the holes in order.
pub proof fn lemma_join_wf(region: BigRegionView, ptr: int, size: int)
    requires
        region.wf(),
        size > 0,
        is_taken(region, ptr, size),
    ensures
        (BigRegionView { holes: join(region.holes, ptr, size), ..region }).wf(),
{
    let holes = region.holes;
    let (k, l, r) = lemma_join_shape(region, ptr, size);
    let joined = join(holes, ptr, size);
    assert forall|j: int| 0 <= j < joined.len() implies {
        let h = #[trigger] joined[j];
        h.len > 0 && region.bottom <= h.start && h.end() <= region.top
    } by {
        if j < k - l {
            assert(joined[j] == holes[j]);
        } else if j > k - l {
            assert(joined[j] == holes[j + l + r - 1]);
        }
    }
    assert forall|i: int, j: int| 0 <= i < j < joined.len() implies (#[trigger] joined[i]).end() < (
    #[trigger] joined[j]).start by {
        if i < k - l {
            assert(joined[i] == holes[i]);
        } else if i > k - l {
            assert(joined[i] == holes[i + l + r - 1]);
        }
        if j < k - l {
            assert(joined[j] == holes[j]);
        } else if j > k - l {
            assert(joined[j] == holes[j + l + r - 1]);
        }
        if l == 1 {
            assert(holes[i].end() < holes[k - 1].start || i >= k - 1);
        }
        if r == 1 {
            assert(j <= k - l || holes[k].end() < holes[j + l + r - 1].start);
        }
    }
}

/// In a sorted list of holes every address has a rank.
pub proof fn lemma_rank_exists(region: BigRegionView, ptr: int)
    requires
        region.wf(),
    ensures
        is_rank(region.holes, ptr, rank(region.holes, ptr)),
{
    let holes = region.holes;
    let k = count_below(holes, ptr, holes.len() as int);
    lemma_count_below(region, ptr, holes.len() as int);
    assert(is_rank(holes, ptr, k));
}

/// The number of holes among the first `n` that start below `ptr`.
spec fn count_below(holes: Seq<Extent>, ptr: int, n: int) -> int
    decreases n,
{
    if n <= 0 {
        0
    } else if holes[n - 1].start < ptr {
        n
    } else {
        count_below(holes, ptr, n - 1)
    }
}

proof fn lemma_count_below(region: BigRegionView, ptr: int, n: int)
    requires
        region.wf(),
        0 <= n <= region.holes.len(),
    ensures
        0 <= count_below(region.holes, ptr, n) <= n,
        forall|j: int|
            0 <= j < count_below(region.holes, ptr, n) ==> (#[trigger] region.holes[j]).start < ptr,
        forall|j: int|
            count_below(region.holes, ptr, n) <= j < n ==> (#[trigger] region.holes[j]).start
                >= ptr,
    decreases n,
{
    let holes = region.holes;
    if n > 0 {
        if holes[n - 1].start < ptr {
            assert forall|j: int| 0 <= j < n implies (#[trigger] holes[j]).start < ptr by {
                if j < n - 1 {
                    assert(holes[j].end() < holes[n - 1].start);
                }
            }
        } else {
            lemma_count_below(region, ptr, n - 1);
        }
    }
}

/// The first-fit allocator for large requests.
pub struct BigRegion {
    bottom: usize,
    top: usize,
    holes: Vec<Extent>,
}

impl View for BigRegion {
    type V = BigRegionView;

    closed spec fn view(&self) -> BigRegionView {
        BigRegionView { bottom: self.bottom, top: self.top, holes: self.holes@ }
    }
}

/// `x` rounded up to a multiple of `unit`, unless that is more than a `usize` holds.
fn checked_round_up(x: usize, unit: usize) -> (r: Option<usize>)
    requires
        unit > 0,
    ensures
        match r {
            Some(up) => up == round_up(x as int, unit as int),
            None => round_up(x as int, unit as int) > usize::MAX,
        },
{
    proof {
        lemma_round_up(x as int, unit as int);
    }
    let rem = x % unit;
    if rem == 0 {
        Some(x)
    } else {
        x.checked_add(unit - rem)
    }
}

/// The bytes that a request of `size` bytes takes, unless that is more than a `usize`
/// holds.
fn checked_request_size(size: usize) -> (r: Option<usize>)
    ensures
        match r {
            Some(bytes) => bytes == request_size(size as int) && bytes > 0 && bytes >= size,
            None => request_size(size as int) > usize::MAX,
        },
{
    proof {
        lemma_round_up(size as int, WORD_SIZE as int);
    }
    if size == 0 {
        Some(WORD_SIZE)
    } else {
        checked_round_up(size, WORD_SIZE)
    }
}

impl BigRegion {
    /// The view is well-formed.
    pub open spec fn wf(&self) -> bool {
        self@.wf()
    }

    /// A region over `[start, start + len)`, all of it free.
    pub fn new(start: usize, len: usize) -> (region: BigRegion)
        requires
            start + len <= usize::MAX,
        ensures
            region.wf(),
            region@ == fresh_region(start, len),
    {
        let mut holes: Vec<Extent> = Vec::new();
        if len > 0 {
            holes.push(Extent { start, len });
        }
        assert(holes@ =~= if len == 0 {
            Seq::<Extent>::empty()
        } else {
            seq![Extent { start, len }]
        });
        BigRegion { bottom: start, top: start + len, holes }
    }

    /// The lowest address of the region.
    pub fn bottom(&self) -> (bottom: usize)
        ensures
            bottom == self@.bottom,
    {
        self.bottom
    }

    /// The address one past the region.
    pub fn top(&self) -> (top: usize)
        ensures
            top == self@.top,
    {
        self.top
    }

    /// The free extents, in the order of their addresses.
    pub fn holes(&self) -> (holes: Vec<Extent>)
        ensures
            holes@ == self@.holes,
    {
        let mut holes: Vec<Extent> = Vec::new();
        let mut i: usize = 0;
        while i < self.holes.len()
            invariant
                i <= self.holes.len(),
                holes@ == self.holes@.subrange(0, i as int),
            decreases self.holes.len() - i,
        {
            holes.push(self.holes[i]);
            i = i + 1;
            assert(holes@ =~= self.holes@.subrange(0, i as int));
        }
        assert(holes@ =~= self.holes@);
        holes
    }

    /// Adds `by` bytes at the top of the region. The caller owns the memory from the
    /// old top on; the region can grow in no other place.
    pub fn extend(&mut self, by: usize)
        requires
            old(self).wf(),
            old(self)@.top + by <= usize::MAX,
        ensures
            final(self).wf(),
            final(self)@ == old(self)@.extend(by),
    {
        if by > 0 {
            let old_top = self.top;
            self.top = old_top + by;
            assert(self@.wf() && is_taken(self@, old_top as int, by as int)) by {
                assert(forall|i: int|
                    0 <= i < self.holes@.len() ==> #[trigger] self.holes@[i] == old(self)@.holes[i]);
                assert(forall|i: int|
                    0 <= i < self@.holes.len() ==> (#[trigger] self@.holes[i]).end() <= old_top);
            }
            self.release(old_top, by);
        }
    }

    /// Hands out the first bytes that fit `layout`, looking through the holes from the
    /// lowest address up.
    pub fn allocate(&mut self, layout: Layout) -> (r: Result<usize, AllocError>)
        requires
            old(self).wf(),
        ensures
            final(self).wf(),
            final(self)@ == old(self)@.allocate(layout).0,
            r == old(self)@.allocate(layout).1,
            r matches Ok(ptr) ==> {
                &&& ptr % layout.align() == 0
                &&& ptr % WORD_SIZE == 0
                &&& is_taken(final(self)@, ptr as int, request_size(layout.size() as int))
                &&& !is_taken(old(self)@, ptr as int, request_size(layout.size() as int))
            },
    {
        let align = if layout.align() < WORD_SIZE {
            WORD_SIZE
        } else {
            layout.align()
        };
        let ghost spec_size = request_size(layout.size() as int);
        let size = match checked_request_size(layout.size()) {
            Some(size) => size,
            None => {
                proof {
                    assert(is_first_fit(self.holes@, spec_size, align as int, self.holes@.len() as int))
                        by {
                        assert forall|j: int| 0 <= j < self.holes@.len() implies !fits(
                            #[trigger] self.holes@[j],
                            spec_size,
                            align as int,
                        ) by {
                            lemma_round_up(self.holes@[j].start as int, align as int);
                        }
                    }
                    lemma_first_fit(self.holes@, spec_size, align as int, self.holes@.len() as int);
                }
                return Err(AllocError);
            },
        };
        let mut i: usize = 0;
        while i < self.holes.len()
            invariant
                i <= self.holes.len(),
                *self == *old(self),
                self.wf(),
                size > 0,
                size == request_size(layout.size() as int),
                align == request_align(layout.align() as int),
                is_pow2(layout.align() as int),
                forall|j: int| 0 <= j < i ==> !fits(#[trigger] self.holes@[j], size as int, align as int),
            decreases self.holes.len() - i,
        {
            let hole = self.holes[i];
            assert(hole == self@.holes[i as int]);
            let end = hole.start + hole.len;
            proof {
                lemma_round_up(hole.start as int, align as int);
            }
            match checked_round_up(hole.start, align) {
                Some(addr) => {
                    if addr <= end && size <= end - addr {
                        proof {
                            lemma_first_fit(self.holes@, size as int, align as int, i as int);
                            lemma_carve_wf(self@, i as int, addr as int, size as int);
                            lemma_word_is_pow2();
                            if layout.align() < WORD_SIZE {
                                lemma_pow2_divides(layout.align() as int, WORD_SIZE as int);
                                lemma_multiple_of_multiple(
                                    addr as int,
                                    WORD_SIZE as int,
                                    layout.align() as int,
                                );
                            } else {
                                lemma_pow2_divides(WORD_SIZE as int, layout.align() as int);
                                lemma_multiple_of_multiple(
                                    addr as int,
                                    layout.align() as int,
                                    WORD_SIZE as int,
                                );
                            }
                        }
                        let front_len = addr - hole.start;
                        let back_len = end - addr - size;
                        if front_len > 0 && back_len > 0 {
                            self.holes[i] = Extent { start: hole.start, len: front_len };
                            self.holes.insert(i + 1, Extent { start: addr + size, len: back_len });
                        } else if front_len > 0 {
                            self.holes[i] = Extent { start: hole.start, len: front_len };
                        } else if back_len > 0 {
                            self.holes[i] = Extent { start: addr + size, len: back_len };
                        } else {
                            self.holes.remove(i);
                        }
                        assert(self.holes@ =~= carve(
                            old(self).holes@,
                            i as int,
                            addr as int,
                            size as int,
                        ));
                        proof {
                            lemma_carved_is_taken(old(self)@, i as int, addr as int, size as int);
                        }
                        return Ok(addr);
                    }
                },
                None => {},
            }
            i = i + 1;
        }
        proof {
            lemma_first_fit(self.holes@, size as int, align as int, self.holes@.len() as int);
        }
        Err(AllocError)
    }

    /// Tells whether the allocation at `ptr` may be handed back.
    pub fn can_deallocate(&self, ptr: usize, layout: Layout) -> (r: bool)
        requires
            self.wf(),
        ensures
            r == self@.can_release(ptr, layout),
    {
        let size = match checked_request_size(layout.size()) {
            Some(size) => size,
            None => {
                return false;
            },
        };
        if ptr < self.bottom || ptr > self.top || self.top - ptr < size {
            return false;
        }
        let mut i: usize = 0;
        while i < self.holes.len()
            invariant
                i <= self.holes.len(),
                self.wf(),
                self.bottom <= ptr,
                ptr + size <= self.top,
                size == request_size(layout.size() as int),
                forall|j: int|
                    0 <= j < i ==> (#[trigger] self.holes@[j]).end() <= ptr || ptr + size
                        <= self.holes@[j].start,
            decreases self.holes.len() - i,
        {
            let hole = self.holes[i];
            assert(hole == self@.holes[i as int]);
            if !(hole.start + hole.len <= ptr || ptr + size <= hole.start) {
                return false;
            }
            i = i + 1;
        }
        true
    }

    /// Takes the allocation at `ptr` back and joins it with the free extents next to it.
    ///
    /// The allocation must be one that this region handed out for `layout` and that has
    /// not come back since. Of this only what [`BigRegionView::can_release`] says is
    /// demanded.
    pub fn deallocate(&mut self, ptr: usize, layout: Layout)
        requires
            old(self).wf(),
            old(self)@.can_release(ptr, layout),
        ensures
            final(self).wf(),
            final(self)@ == old(self)@.deallocate(ptr, layout),
    {
        match checked_request_size(layout.size()) {
            Some(size) => {
                self.release(ptr, size);
            },
            None => {},
        }
    }

    /// Makes the bytes of `[ptr, ptr + size)` free.
    fn release(&mut self, ptr: usize, size: usize)
        requires
            old(self).wf(),
            size > 0,
            is_taken(old(self)@, ptr as int, size as int),
        ensures
            final(self).wf(),
            final(self)@ == (BigRegionView {
                holes: join(old(self)@.holes, ptr as int, size as int),
                ..old(self)@
            }),
    {
        let mut k: usize = 0;
        while k < self.holes.len() && self.holes[k].start < ptr
            invariant
                k <= self.holes.len(),
                *self == *old(self),
                forall|j: int| 0 <= j < k ==> (#[trigger] self.holes@[j]).start < ptr,
            decreases self.holes.len() - k,
        {
            k = k + 1;
        }
        proof {
            assert(is_rank(self.holes@, ptr as int, k as int)) by {
                assert forall|j: int| k <= j < self.holes@.len() implies (
                #[trigger] self.holes@[j]).start >= ptr by {
                    if j > k {
                        assert(self.holes@[k as int].end() < self.holes@[j].start);
                    }
                }
            }
            lemma_rank(self.holes@, ptr as int, k as int);
            lemma_join_wf(self@, ptr as int, size as int);
        }
        let joins_left = k > 0 && self.holes[k - 1].start + self.holes[k - 1].len == ptr;
        let joins_right = k < self.holes.len() && self.holes[k].start == ptr + size;
        if joins_left && joins_right {
            let right = self.holes.remove(k);
            let left = self.holes[k - 1];
            self.holes[k - 1] = Extent { start: left.start, len: left.len + size + right.len };
        } else if joins_left {
            let left = self.holes[k - 1];
            self.holes[k - 1] = Extent { start: left.start, len: left.len + size };
        } else if joins_right {
            let right = self.holes[k];
            self.holes[k] = Extent { start: ptr, len: size + right.len };
        } else {
            self.holes.insert(k, Extent { start: ptr, len: size });
        }
        assert(self.holes@ =~= join(old(self).holes@, ptr as int, size as int));
    }
}

/// After an allocation was cut out of a hole, its bytes are in no hole.
proof fn lemma_carved_is_taken(region: BigRegionView, i: int, addr: int, size: int)
    requires
        region.wf(),
        0 <= i < region.holes.len(),
        region.holes[i].start <= addr,
        addr + size <= region.holes[i].end(),
        size > 0,
    ensures
        is_taken(BigRegionView { holes: carve(region.holes, i, addr, size), ..region }, addr, size),
        !is_taken(region, addr, size),
{
    let holes = region.holes;
    let (f, b) = lemma_carve_shape(region, i, addr, size);
    let carved = carve(holes, i, addr, size);
    assert forall|j: int| 0 <= j < carved.len() implies (#[trigger] carved[j]).end() <= addr
        || addr + size <= carved[j].start by {
        if j < i {
            assert(carved[j] == holes[j]);
        } else if j >= i + f + b {
            assert(carved[j] == holes[j - f - b + 1]);
        }
    }
    assert(!(holes[i].end() <= addr || addr + size <= holes[i].start));
}

/// The index of the first hole from `from` on in which the request has room, or the
/// number of holes.
spec fn search(holes: Seq<Extent>, size: int, align: int, from: int) -> int
    decreases holes.len() - from,
{
    if from >= holes.len() {
        holes.len() as int
    } else if fits(holes[from], size, align) {
        from
    } else {
        search(holes, size, align, from + 1)
    }
}

proof fn lemma_search(holes: Seq<Extent>, size: int, align: int, from: int)
    requires
        0 <= from <= holes.len(),
    ensures
        from <= search(holes, size, align, from) <= holes.len(),
        search(holes, size, align, from) < holes.len() ==> fits(
            holes[search(holes, size, align, from)],
            size,
            align,
        ),
        forall|j: int|
            from <= j < search(holes, size, align, from) ==> !fits(#[trigger] holes[j], size, align),
    decreases holes.len() - from,
{
    if from < holes.len() && !fits(holes[from], size, align) {
        lemma_search(holes, size, align, from + 1);
    }
}

/// Every list of holes has a first fit for every request.
pub proof fn lemma_first_fit_exists(holes: Seq<Extent>, size: int, align: int)
    ensures
        is_first_fit(holes, size, align, first_fit(holes, size, align)),
{
    lemma_search(holes, size, align, 0);
    assert(is_first_fit(holes, size, align, search(holes, size, align, 0)));
}

/// An allocation keeps the region well-formed and its bounds as they are. The address
/// that it returns is a multiple of the alignment asked for and of the word size, and
/// the bytes that it takes were free before and are free no more. A failed allocation
/// changes nothing.
pub proof fn lemma_allocate(region: BigRegionView, layout: Layout)
    requires
        region.wf(),
        layout.is_valid(),
    ensures
        region.allocate(layout).0.wf(),
        region.allocate(layout).0.bottom == region.bottom,
        region.allocate(layout).0.top == region.top,
        match region.allocate(layout).1 {
            Ok(ptr) => {
                &&& ptr % layout.align() == 0
                &&& ptr % WORD_SIZE == 0
                &&& is_taken(
                    region.allocate(layout).0,
                    ptr as int,
                    request_size(layout.size() as int),
                )
                &&& !is_taken(region, ptr as int, request_size(layout.size() as int))
            },
            Err(_) => region.allocate(layout).0 == region,
        },
{
    let size = request_size(layout.size() as int);
    let align = request_align(layout.align() as int);
    let i = first_fit(region.holes, size, align);
    lemma_first_fit_exists(region.holes, size, align);
    lemma_round_up(layout.size() as int, WORD_SIZE as int);
    if i < region.holes.len() {
        let hole = region.holes[i];
        let addr = round_up(hole.start as int, align);
        lemma_round_up(hole.start as int, align);
        lemma_carve_wf(region, i, addr, size);
        lemma_carved_is_taken(region, i, addr, size);
        lemma_word_is_pow2();
        if layout.align() < WORD_SIZE {
            lemma_pow2_divides(layout.align() as int, WORD_SIZE as int);
            lemma_multiple_of_multiple(addr, WORD_SIZE as int, layout.align() as int);
        } else {
            lemma_pow2_divides(WORD_SIZE as int, layout.align() as int);
            lemma_multiple_of_multiple(addr, layout.align() as int, WORD_SIZE as int);
        }
    }
}

/// Taking an allocation back keeps the region well-formed and its bounds as they are.
pub proof fn lemma_deallocate(region: BigRegionView, ptr: usize, layout: Layout)
    requires
        region.wf(),
        region.can_release(ptr, layout),
    ensures
        region.deallocate(ptr, layout).wf(),
        region.deallocate(ptr, layout).bottom == region.bottom,
        region.deallocate(ptr, layout).top == region.top,
{
    lemma_round_up(layout.size() as int, WORD_SIZE as int);
    lemma_join_wf(region, ptr as int, request_size(layout.size() as int));
}

/// Extending the region keeps it well-formed; its top moves up by as much as was added.
pub proof fn lemma_extend(region: BigRegionView, by: usize)
    requires
        region.wf(),
        region.top + by <= usize::MAX,
    ensures
        region.extend(by).wf(),
        region.extend(by).bottom == region.bottom,
        region.extend(by).top == region.top + by,
{
    if by > 0 {
        let raised = BigRegionView { top: (region.top + by) as usize, ..region };
        assert(raised.wf() && is_taken(raised, region.top as int, by as int)) by {
            assert(forall|i: int|
                0 <= i < raised.holes.len() ==> (#[trigger] raised.holes[i]).end() <= region.top);
        }
        lemma_join_wf(raised, region.top as int, by as int);
    }
}

/// A byte that lies in a hole is free.
proof fn lemma_free_in(region: BigRegionView, j: int, addr: int)
    requires
        0 <= j < region.holes.len(),
        region.holes[j].start <= addr < region.holes[j].end(),
    ensures
        region.is_free(addr),
{
}

/// After an allocation exactly those bytes are free that were free before and that the
/// allocation did not take.
pub proof fn lemma_allocate_takes_bytes(region: BigRegionView, layout: Layout, addr: int)
    requires
        region.wf(),
        region.allocate(layout).1 is Ok,
    ensures
        ({
            let ptr = region.allocate(layout).1.unwrap();
            let size = request_size(layout.size() as int);
            region.allocate(layout).0.is_free(addr) == (region.is_free(addr) && !(ptr <= addr < ptr
                + size))
        }),
{
    let size = request_size(layout.size() as int);
    let align = request_align(layout.align() as int);
    let i = first_fit(region.holes, size, align);
    lemma_first_fit_exists(region.holes, size, align);
    lemma_round_up(layout.size() as int, WORD_SIZE as int);
    let ptr = round_up(region.holes[i].start as int, align);
    lemma_round_up(region.holes[i].start as int, align);
    if region.is_free(addr) && !(ptr <= addr < ptr + size) {
        lemma_carve_keeps_free(region, i, ptr, size, addr);
    }
    lemma_carve_frees_no_more(region, i, ptr, size, addr);
}

/// How the holes lie after an allocation was cut out of hole `i`: `f` holes (none or
/// one) are left of it in front and `b` (none or one) behind.
spec fn carve_shape(region: BigRegionView, i: int, addr: int, size: int, f: int, b: int) -> bool {
    let holes = region.holes;
    let hole = holes[i];
    let carved = carve(holes, i, addr, size);
    &&& f == (if hole.start < addr { 1int } else { 0 })
    &&& b == (if addr + size < hole.end() { 1int } else { 0 })
    &&& carved.len() == holes.len() - 1 + f + b
    &&& f == 1 ==> carved[i] == Extent { start: hole.start, len: (addr - hole.start) as usize }
    &&& b == 1 ==> carved[i + f] == Extent {
        start: (addr + size) as usize,
        len: (hole.end() - addr - size) as usize,
    }
    &&& forall|j: int| 0 <= j < i ==> #[trigger] carved[j] == holes[j]
    &&& forall|j: int| i + f + b <= j < carved.len() ==> #[trigger] carved[j] == holes[j - f - b + 1]
    &&& forall|j: int| 0 <= j < i ==> (#[trigger] holes[j]).end() < hole.start
    &&& forall|j: int| i < j < holes.len() ==> hole.end() < (#[trigger] holes[j]).start
}

proof fn lemma_carve_shape(region: BigRegionView, i: int, addr: int, size: int) -> (fb: (int, int))
    requires
        region.wf(),
        0 <= i < region.holes.len(),
        region.holes[i].start <= addr,
        addr + size <= region.holes[i].end(),
        size > 0,
    ensures
        carve_shape(region, i, addr, size, fb.0, fb.1),
{
    let holes = region.holes;
    let hole = holes[i];
    let carved = carve(holes, i, addr, size);
    let f: int = if hole.start < addr { 1 } else { 0 };
    let b: int = if addr + size < hole.end() { 1 } else { 0 };
    assert(carved.len() == holes.len() - 1 + f + b);
    assert forall|j: int| 0 <= j < i implies #[trigger] carved[j] == holes[j] by {}
    assert forall|j: int| i + f + b <= j < carved.len() implies #[trigger] carved[j] == holes[j - f
        - b + 1] by {}
    (f, b)
}

proof fn lemma_carve_keeps_free(region: BigRegionView, i: int, ptr: int, size: int, addr: int)
    requires
        region.wf(),
        0 <= i < region.holes.len(),
        region.holes[i].start <= ptr,
        ptr + size <= region.holes[i].end(),
        size > 0,
        region.is_free(addr),
        !(ptr <= addr < ptr + size),
    ensures
        (BigRegionView { holes: carve(region.holes, i, ptr, size), ..region }).is_free(addr),
{
    let holes = region.holes;
    let (f, b) = lemma_carve_shape(region, i, ptr, size);
    let carved = carve(holes, i, ptr, size);
    let after = BigRegionView { holes: carved, ..region };
    let j = choose|j: int| 0 <= j < holes.len() && (#[trigger] holes[j]).start <= addr
        < holes[j].end();
    if j < i {
        assert(carved[j] == holes[j]);
        lemma_free_in(after, j, addr);
    } else if j > i {
        assert(carved[j + f + b - 1] == holes[j]);
        lemma_free_in(after, j + f + b - 1, addr);
    } else if addr < ptr {
        lemma_free_in(after, i, addr);
    } else {
        lemma_free_in(after, i + f, addr);
    }
}

proof fn lemma_carve_frees_no_more(region: BigRegionView, i: int, ptr: int, size: int, addr: int)
    requires
        region.wf(),
        0 <= i < region.holes.len(),
        region.holes[i].start <= ptr,
        ptr + size <= region.holes[i].end(),
        size > 0,
    ensures
        (BigRegionView { holes: carve(region.holes, i, ptr, size), ..region }).is_free(addr) ==> (
        region.is_free(addr) && !(ptr <= addr < ptr + size)),
{
    let holes = region.holes;
    let (f, b) = lemma_carve_shape(region, i, ptr, size);
    let carved = carve(holes, i, ptr, size);
    let after = BigRegionView { holes: carved, ..region };
    if after.is_free(addr) {
        let j = choose|j: int| 0 <= j < carved.len() && (#[trigger] carved[j]).start <= addr
            < carved[j].end();
        if j < i {
            assert(carved[j] == holes[j]);
            lemma_free_in(region, j, addr);
        } else if j >= i + f + b {
            assert(carved[j] == holes[j - f - b + 1]);
            lemma_free_in(region, j - f - b + 1, addr);
        } else {
            lemma_free_in(region, i, addr);
        }
    }
}

/// After an allocation came back exactly those bytes are free that were free before or
/// that belonged to the allocation.
pub proof fn lemma_deallocate_frees_bytes(
    region: BigRegionView,
    ptr: usize,
    layout: Layout,
    addr: int,
)
    requires
        region.wf(),
        region.can_release(ptr, layout),
    ensures
        region.deallocate(ptr, layout).is_free(addr) == (region.is_free(addr) || ptr <= addr < ptr
            + request_size(layout.size() as int)),
{
    lemma_round_up(layout.size() as int, WORD_SIZE as int);
    lemma_join_frees_bytes(region, ptr as int, request_size(layout.size() as int), addr);
}

/// How the holes lie after bytes that were in no hole became free: `k` holes started
/// below them, `l` of which (none or one) joins them from the left and `r` (none or
/// one) from the right.
spec fn join_shape(region: BigRegionView, ptr: int, size: int, k: int, l: int, r: int) -> bool {
    let holes = region.holes;
    let joined = join(holes, ptr, size);
    let start = if l == 1 {
        holes[k - 1].start as int
    } else {
        ptr
    };
    let end = if r == 1 {
        holes[k].end()
    } else {
        ptr + size
    };
    &&& k == rank(holes, ptr)
    &&& 0 <= k <= holes.len()
    &&& l == (if k > 0 && holes[k - 1].end() == ptr { 1int } else { 0 })
    &&& r == (if k < holes.len() && holes[k].start == ptr + size { 1int } else { 0 })
    &&& joined.len() == holes.len() + 1 - l - r
    &&& joined[k - l] == Extent { start: start as usize, len: (end - start) as usize }
    &&& 0 <= start <= ptr && ptr + size <= end <= region.top
    &&& forall|j: int| 0 <= j < k - l ==> #[trigger] joined[j] == holes[j]
    &&& forall|j: int| k - l < j < joined.len() ==> #[trigger] joined[j] == holes[j + l + r - 1]
    &&& forall|j: int| 0 <= j < k ==> (#[trigger] holes[j]).end() <= ptr
    &&& forall|j: int| k <= j < holes.len() ==> (#[trigger] holes[j]).start >= ptr + size
}

proof fn lemma_join_shape(region: BigRegionView, ptr: int, size: int) -> (klr: (int, int, int))
    requires
        region.wf(),
        size > 0,
        is_taken(region, ptr, size),
    ensures
        join_shape(region, ptr, size, klr.0, klr.1, klr.2),
{
    let holes = region.holes;
    let n = holes.len() as int;
    let k = rank(holes, ptr);
    lemma_rank_exists(region, ptr);
    let l: int = if k > 0 && holes[k - 1].end() == ptr { 1 } else { 0 };
    let r: int = if k < n && holes[k].start == ptr + size { 1 } else { 0 };
    let joined = join(holes, ptr, size);
    assert(joined.len() == n + 1 - l - r);
    assert(forall|j: int| 0 <= j < k ==> (#[trigger] holes[j]).end() <= ptr);
    assert(forall|j: int| k <= j < n ==> (#[trigger] holes[j]).start >= ptr + size);
    assert forall|j: int| 0 <= j < k - l implies #[trigger] joined[j] == holes[j] by {}
    assert forall|j: int| k - l < j < joined.len() implies #[trigger] joined[j] == holes[j + l + r
        - 1] by {}
    (k, l, r)
}

/// After the region was extended exactly those bytes are free that were free before or
/// that were added.
pub proof fn lemma_extend_frees_bytes(region: BigRegionView, by: usize, addr: int)
    requires
        region.wf(),
        region.top + by <= usize::MAX,
    ensures
        region.extend(by).is_free(addr) == (region.is_free(addr) || region.top <= addr < region.top
            + by),
{
    let raised = BigRegionView { top: (region.top + by) as usize, ..region };
    if by > 0 {
        assert(raised.wf() && is_taken(raised, region.top as int, by as int)) by {
            assert(forall|i: int|
                0 <= i < raised.holes.len() ==> (#[trigger] raised.holes[i]).end() <= region.top);
        }
        lemma_join_frees_bytes(raised, region.top as int, by as int, addr);
    }
    assert(raised.is_free(addr) == region.is_free(addr));
}

/// After bytes that were in no hole became free, exactly those bytes are in a hole that
/// were in one before or are among them.
proof fn lemma_join_frees_bytes(region: BigRegionView, ptr: int, size: int, addr: int)
    requires
        region.wf(),
        size > 0,
        is_taken(region, ptr, size),
    ensures
        (BigRegionView { holes: join(region.holes, ptr, size), ..region }).is_free(addr) == (
        region.is_free(addr) || ptr <= addr < ptr + size),
{
    if region.is_free(addr) || ptr <= addr < ptr + size {
        lemma_join_keeps_free(region, ptr, size, addr);
    }
    lemma_join_frees_no_more(region, ptr, size, addr);
}

proof fn lemma_join_keeps_free(region: BigRegionView, ptr: int, size: int, addr: int)
    requires
        region.wf(),
        size > 0,
        is_taken(region, ptr, size),
        region.is_free(addr) || ptr <= addr < ptr + size,
    ensures
        (BigRegionView { holes: join(region.holes, ptr, size), ..region }).is_free(addr),
{
    let holes = region.holes;
    let (k, l, r) = lemma_join_shape(region, ptr, size);
    let joined = join(holes, ptr, size);
    let after = BigRegionView { holes: joined, ..region };
    if ptr <= addr < ptr + size {
        lemma_free_in(after, k - l, addr);
    } else {
        let j = choose|j: int| 0 <= j < holes.len() && (#[trigger] holes[j]).start <= addr
            < holes[j].end();
        if j < k - l {
            assert(joined[j] == holes[j]);
            lemma_free_in(after, j, addr);
        } else if j >= k + r {
            assert(joined[j - l - r + 1] == holes[j]);
            lemma_free_in(after, j - l - r + 1, addr);
        } else {
            lemma_free_in(after, k - l, addr);
        }
    }
}

proof fn lemma_join_frees_no_more(region: BigRegionView, ptr: int, size: int, addr: int)
    requires
        region.wf(),
        size > 0,
        is_taken(region, ptr, size),
    ensures
        (BigRegionView { holes: join(region.holes, ptr, size), ..region }).is_free(addr) ==> (
        region.is_free(addr) || ptr <= addr < ptr + size),
{
    let holes = region.holes;
    let (k, l, r) = lemma_join_shape(region, ptr, size);
    let joined = join(holes, ptr, size);
    let after = BigRegionView { holes: joined, ..region };
    if after.is_free(addr) {
        let j = choose|j: int| 0 <= j < joined.len() && (#[trigger] joined[j]).start <= addr
            < joined[j].end();
        if j < k - l {
            assert(joined[j] == holes[j]);
            lemma_free_in(region, j, addr);
        } else if j > k - l {
            assert(joined[j] == holes[j + l + r - 1]);
            lemma_free_in(region, j + l + r - 1, addr);
        } else {
            if addr < ptr {
                lemma_free_in(region, k - 1, addr);
            } else if addr >= ptr + size {
                lemma_free_in(region, k, addr);
            }
        }
    }
}

/// Bytes that are in no hole stay so through an allocation, and the allocation takes
/// none of them.
pub proof fn lemma_allocate_spares_taken(region: BigRegionView, layout: Layout, ptr: int, size: int)
    requires
        region.wf(),
        size > 0,
        is_taken(region, ptr, size),
    ensures
        is_taken(region.allocate(layout).0, ptr, size),
        region.allocate(layout).1 matches Ok(new) ==> new + request_size(layout.size() as int) <= ptr
            || ptr + size <= new,
{
    let bytes = request_size(layout.size() as int);
    let align = request_align(layout.align() as int);
    let holes = region.holes;
    let i = first_fit(holes, bytes, align);
    lemma_first_fit_exists(holes, bytes, align);
    lemma_round_up(layout.size() as int, WORD_SIZE as int);
    if i < holes.len() {
        let new = round_up(holes[i].start as int, align);
        lemma_round_up(holes[i].start as int, align);
        let (f, b) = lemma_carve_shape(region, i, new, bytes);
        let carved = carve(holes, i, new, bytes);
        assert(holes[i].end() <= ptr || ptr + size <= holes[i].start);
        assert forall|j: int| 0 <= j < carved.len() implies (#[trigger] carved[j]).end() <= ptr || ptr
            + size <= carved[j].start by {
            if j < i {
                assert(carved[j] == holes[j]);
            } else if j >= i + f + b {
                assert(carved[j] == holes[j - f - b + 1]);
            }
        }
    }
}

/// Bytes that are in no hole stay so when other bytes come back.
pub proof fn lemma_deallocate_spares_taken(
    region: BigRegionView,
    ptr: usize,
    layout: Layout,
    other: int,
    size: int,
)
    requires
        region.wf(),
        region.can_release(ptr, layout),
        size > 0,
        is_taken(region, other, size),
        other + size <= ptr || ptr + request_size(layout.size() as int) <= other,
    ensures
        is_taken(region.deallocate(ptr, layout), other, size),
{
    let bytes = request_size(layout.size() as int);
    lemma_round_up(layout.size() as int, WORD_SIZE as int);
    let holes = region.holes;
    let (k, l, r) = lemma_join_shape(region, ptr as int, bytes);
    let joined = join(holes, ptr as int, bytes);
    assert forall|j: int| 0 <= j < joined.len() implies (#[trigger] joined[j]).end() <= other || other
        + size <= joined[j].start by {
        if j < k - l {
            assert(joined[j] == holes[j]);
        } else if j > k - l {
            assert(joined[j] == holes[j + l + r - 1]);
        } else {
            if l == 1 {
                assert(holes[k - 1].end() <= other || other + size <= holes[k - 1].start);
            }
            if r == 1 {
                assert(holes[k].end() <= other || other + size <= holes[k].start);
            }
        }
    }
}

/// A request for more bytes than the whole region has fails.
pub proof fn lemma_too_large_fails(region: BigRegionView, layout: Layout)
    requires
        region.wf(),
        layout.size() > region.top - region.bottom,
    ensures
        region.allocate(layout).1 is Err,
        region.allocate(layout).0 == region,
{
    let size = request_size(layout.size() as int);
    let align = request_align(layout.align() as int);
    lemma_round_up(layout.size() as int, WORD_SIZE as int);
    assert(is_first_fit(region.holes, size, align, region.holes.len() as int)) by {
        assert forall|j: int| 0 <= j < region.holes.len() implies !fits(
            #[trigger] region.holes[j],
            size,
            align,
        ) by {
            lemma_round_up(region.holes[j].start as int, align);
        }
    }
    lemma_first_fit(region.holes, size, align, region.holes.len() as int);
}

} // verus!
