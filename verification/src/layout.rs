//! The size and alignment of a requested block of memory.
use vstd::arithmetic::power2::is_pow2;
use vstd::prelude::*;

use crate::{AllocationError, PAGE_SIZE};

verus! {

/// The size and alignment of a block of memory.
///
/// The alignment of a `Layout` is always a power of two.
#[derive(Debug, Clone, Copy)]
pub struct Layout {
    size: usize,
    align: usize,
}

/// Halving an even number keeps the "exactly one bit set" test, and an odd
/// number above one fails it.
proof fn lemma_single_bit_step(a: u64)
    by (bit_vector)
    requires
        a > 1,
    ensures
        (a & ((a - 1) as u64) == 0) <==> (a % 2 == 0 && (a / 2) & ((a / 2 - 1) as u64) == 0),
        a / 2 >= 1,
        a / 2 < a,
{
}

/// A positive number is a power of two exactly when it shares no bit with its
/// predecessor.
pub proof fn lemma_single_bit_is_pow2(a: u64)
    requires
        a >= 1,
    ensures
        is_pow2(a as int) <==> (a & ((a - 1) as u64) == 0),
    decreases a,
{
    reveal(is_pow2);
    if a == 1 {
        assert(1u64 & ((1u64 - 1) as u64) == 0) by (bit_vector);
    } else {
        lemma_single_bit_step(a);
        lemma_single_bit_is_pow2(a / 2);
    }
}

/// Every power of two up to the page size divides the page size.
pub proof fn lemma_pow2_divides_page(align: int)
    requires
        is_pow2(align),
        align <= PAGE_SIZE,
    ensures
        align >= 1,
        PAGE_SIZE as int % align == 0,
{
    reveal(is_pow2);
    assert(align >= 1);
    let a = align as u64;
    lemma_single_bit_is_pow2(a);
    assert(8192u64 % a == 0) by (bit_vector)
        requires
            a >= 1,
            a <= 8192,
            a & ((a - 1) as u64) == 0,
    ;
}

impl Layout {
    #[verifier::type_invariant]
    closed spec fn inv(self) -> bool {
        is_pow2(self.align as int)
    }

    /// The size of the block in bytes.
    pub closed spec fn spec_size(&self) -> usize {
        self.size
    }

    /// The alignment of the block in bytes.
    pub closed spec fn spec_align(&self) -> usize {
        self.align
    }

    /// A layout of `size` bytes aligned to `align`, which must be a power of two.
    pub fn from_size_align(size: usize, align: usize) -> (r: Result<Layout, AllocationError>)
        ensures
            is_pow2(align as int) ==> r.is_ok() && r.unwrap().spec_size() == size
                && r.unwrap().spec_align() == align,
            !is_pow2(align as int) ==> r == Err::<Layout, AllocationError>(
                AllocationError::InvalidLayout,
            ),
    {
        if align == 0 {
            proof {
                reveal(is_pow2);
            }
            return Err(AllocationError::InvalidLayout);
        }
        let a: u64 = align as u64;
        proof {
            lemma_single_bit_is_pow2(a);
        }
        if a & (a - 1) == 0 {
            Ok(Layout { size, align })
        } else {
            Err(AllocationError::InvalidLayout)
        }
    }

    /// A layout of `size` bytes aligned to `align`, where `align` is known to
    /// be a power of two.
    pub(crate) fn from_size_align_unchecked(size: usize, align: usize) -> (r: Layout)
        requires
            is_pow2(align as int),
        ensures
            r.spec_size() == size,
            r.spec_align() == align,
    {
        Layout { size, align }
    }

    /// The size of the block in bytes.
    #[verifier::when_used_as_spec(spec_size)]
    pub fn size(&self) -> (r: usize)
        ensures
            r == self.spec_size(),
    {
        self.size
    }

    /// The alignment of the block in bytes: a power of two.
    #[verifier::when_used_as_spec(spec_align)]
    pub fn align(&self) -> (r: usize)
        ensures
            r == self.spec_align(),
            is_pow2(r as int),
            r >= 1,
    {
        proof {
            use_type_invariant(self);
            reveal(is_pow2);
        }
        self.align
    }
}

} // verus!
