//! The size and alignment of a requested block of memory.

use crate::bits::power_of_two;
use vstd::prelude::*;

verus! {

/// Page size of the smallest mapping, in bytes.
pub const MIN_PAGE_SIZE: usize = 4096;

/// `n / d`, rounded up.
pub open spec fn div_ceil(n: nat, d: nat) -> nat
    recommends
        d > 0,
{
    if n % d == 0 {
        n / d
    } else {
        n / d + 1
    }
}

/// `n / d`, rounded up, for a non-zero `d`.
pub fn ceil_div(n: usize, d: usize) -> (r: usize)
    requires
        d > 0,
    ensures
        r == div_ceil(n as nat, d as nat),
{
    let q: usize = n / d;
    if n % d == 0 {
        q
    } else {
        assert(q < n) by (nonlinear_arith)
            requires
                q == n / d,
                n % d != 0,
                d > 0,
        ;
        q + 1
    }
}

/// A block request: `size` bytes at an address that is a multiple of `align`.
#[derive(Debug, Clone, Copy, PartialEq, Eq, Structural)]
pub struct Layout {
    pub size: usize,
    pub align: usize,
}

impl Layout {
    /// The largest size that any layout may have once padded.
    pub open spec fn max_size() -> nat {
        isize::MAX as nat
    }

    /// `size` rounded up to the next multiple of `align`.
    pub open spec fn padded_size(self) -> nat {
        div_ceil(self.size as nat, self.align as nat) * (self.align as nat)
    }

    /// A valid layout has a power of two as its alignment and a padded size
    /// within `max_size()`.
    pub open spec fn wf(self) -> bool {
        power_of_two(self.align) && self.padded_size() <= Self::max_size()
    }

    /// The layout of `size` bytes aligned to `align`, or `None` where `align`
    /// is no power of two or the padded size would pass `max_size()`.
    pub fn from_size_align(size: usize, align: usize) -> (r: Option<Layout>)
        ensures
            r == (if (Layout { size, align }).wf() {
                Some(Layout { size, align })
            } else {
                None
            }),
    {
        if align == 0 || align & (align - 1) != 0 {
            return None;
        }
        let blocks: usize = ceil_div(size, align);
        let limit: usize = isize::MAX as usize;
        if blocks > limit / align {
            assert(blocks * align > limit) by (nonlinear_arith)
                requires
                    blocks > limit / align,
                    align > 0,
            ;
            return None;
        }
        assert(blocks * align <= limit) by (nonlinear_arith)
            requires
                blocks <= limit / align,
                align > 0,
        ;
        Some(Layout { size, align })
    }

    /// The layout of one page, aligned to a page.
    pub fn page() -> (r: Layout)
        ensures
            r == (Layout { size: MIN_PAGE_SIZE, align: MIN_PAGE_SIZE }),
            r.wf(),
    {
        assert(4096usize & ((4096usize - 1) as usize) == 0) by (bit_vector);
        Layout { size: MIN_PAGE_SIZE, align: MIN_PAGE_SIZE }
    }

    /// This layout with its size rounded up to a multiple of its alignment.
    pub fn pad_to_align(&self) -> (r: Layout)
        requires
            self.wf(),
        ensures
            r.size == self.padded_size(),
            r.align == self.align,
    {
        let blocks: usize = ceil_div(self.size, self.align);
        Layout { size: blocks * self.align, align: self.align }
    }
}

} // verus!
