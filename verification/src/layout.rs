//! Allocation requests: a size and a power-of-two alignment, and the error of a
//! request that cannot be served.

use vstd::arithmetic::div_mod::{lemma_fundamental_div_mod, lemma_mod_multiples_basic};
use vstd::arithmetic::power2::is_pow2;
use vstd::prelude::*;

verus! {

/// The alignment handed to [`Layout::from_size_align`] was not a power of two.
#[derive(Debug, Clone, Copy, PartialEq, Eq)]
pub struct LayoutError;

/// The allocator has no free memory that fits the request.
#[derive(Debug, Clone, Copy, PartialEq, Eq)]
pub struct AllocError;

/// A request for memory: `size` bytes at an address that is a multiple of `align`.
///
/// Every `Layout` has an alignment that is a power of two; a size of zero is allowed.
#[derive(Debug, Clone, Copy)]
pub struct Layout {
    size: usize,
    align: usize,
}

/// Tells whether `n` is a power of two.
pub fn is_power_of_two(n: usize) -> (r: bool)
    ensures
        r == is_pow2(n as int),
{
    let mut x: usize = n;
    while x > 1 && x % 2 == 0
        invariant
            is_pow2(n as int) == is_pow2(x as int),
        decreases x,
    {
        proof {
            reveal(is_pow2);
        }
        x = x / 2;
    }
    proof {
        reveal(is_pow2);
        if x > 1 {
            assert(!is_pow2(x as int));
        }
    }
    x == 1
}

/// A multiple of a multiple of `a` is a multiple of `a`.
pub proof fn lemma_multiple_of_multiple(x: int, b: int, a: int)
    requires
        a > 0,
        b > 0,
        b % a == 0,
        x % b == 0,
    ensures
        x % a == 0,
{
    let q = x / b;
    let r = b / a;
    lemma_fundamental_div_mod(x, b);
    lemma_fundamental_div_mod(b, a);
    assert(x == (q * r) * a) by (nonlinear_arith)
        requires
            x == b * q,
            b == a * r,
    ;
    lemma_mod_multiples_basic(q * r, a);
}

/// A power of two divides every power of two that is not smaller.
pub proof fn lemma_pow2_divides(a: int, b: int)
    requires
        is_pow2(a),
        is_pow2(b),
        a <= b,
    ensures
        a > 0,
        b % a == 0,
    decreases a,
{
    reveal(is_pow2);
    if a > 1 {
        let ha = a / 2;
        let hb = b / 2;
        lemma_pow2_divides(ha, hb);
        let k = hb / ha;
        lemma_fundamental_div_mod(hb, ha);
        assert(b == k * a) by (nonlinear_arith)
            requires
                hb == ha * k,
                a == 2 * ha,
                b == 2 * hb,
        ;
        lemma_mod_multiples_basic(k, a);
    }
}

impl Layout {
    /// What holds of every layout: the alignment is a power of two.
    #[verifier::type_invariant]
    pub open spec fn is_valid(&self) -> bool {
        is_pow2(self.spec_align() as int)
    }

    /// The number of bytes asked for.
    pub closed spec fn spec_size(&self) -> usize {
        self.size
    }

    /// The alignment asked for.
    pub closed spec fn spec_align(&self) -> usize {
        self.align
    }

    /// Builds a layout, or fails when `align` is not a power of two.
    pub fn from_size_align(size: usize, align: usize) -> (r: Result<Layout, LayoutError>)
        ensures
            r is Ok <==> is_pow2(align as int),
            r matches Ok(layout) ==> layout.size() == size && layout.align() == align,
    {
        if is_power_of_two(align) {
            Ok(Layout { size, align })
        } else {
            Err(LayoutError)
        }
    }

    /// The number of bytes asked for.
    #[verifier::when_used_as_spec(spec_size)]
    pub fn size(&self) -> (size: usize)
        ensures
            size == self.size(),
    {
        self.size
    }

    /// The alignment asked for, a power of two.
    #[verifier::when_used_as_spec(spec_align)]
    pub fn align(&self) -> (align: usize)
        ensures
            align == self.align(),
            is_pow2(align as int),
    {
        proof {
            use_type_invariant(self);
        }
        self.align
    }
}

} // verus!
