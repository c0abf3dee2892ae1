//! Four-level paging: entries, tables, the memory that holds the tables, and
//! the walk that translates, maps and unmaps.

use vstd::prelude::*;

pub mod entry;
pub mod memory;
pub mod table;

verus! {

/// The virtual address at which the kernel reaches the physical address
/// `phys`: `hhdm_offset` bytes further up.
pub fn offset(phys: usize, hhdm_offset: usize) -> (r: usize)
    requires
        phys + hhdm_offset <= usize::MAX,
    ensures
        r == phys + hhdm_offset,
{
    phys + hhdm_offset
}

} // verus!
