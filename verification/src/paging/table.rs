//! A page table: 512 entries.

use crate::paging::entry::Entry;
use vstd::prelude::*;

verus! {

/// The number of entries of a table.
pub const TABLE_ENTRY_COUNT: usize = 512;

/// A table of any of the four levels.
#[derive(Debug, Clone)]
pub struct PageTable {
    pub entries: Vec<Entry>,
}

/// A table of which no entry is present.
pub open spec fn empty_entries() -> Seq<Entry> {
    Seq::new(TABLE_ENTRY_COUNT as nat, |i: int| Entry(0))
}

impl PageTable {
    pub open spec fn wf(&self) -> bool {
        self.entries@.len() == TABLE_ENTRY_COUNT
    }

    /// A table whose entries are all zero.
    pub fn empty() -> (r: PageTable)
        ensures
            r.wf(),
            r.entries@ == empty_entries(),
    {
        let mut entries: Vec<Entry> = Vec::new();
        let mut i: usize = 0;
        while i < TABLE_ENTRY_COUNT
            invariant
                i <= TABLE_ENTRY_COUNT,
                entries@.len() == i,
                forall|j: int| 0 <= j < i ==> entries@[j] == Entry(0),
            decreases TABLE_ENTRY_COUNT - i,
        {
            entries.push(Entry(0));
            i += 1;
        }
        assert(entries@ =~= empty_entries());
        PageTable { entries }
    }

    /// The entry at `index`.
    pub fn index(&self, index: u16) -> (r: &Entry)
        requires
            self.wf(),
            index < TABLE_ENTRY_COUNT,
        ensures
            *r == self.entries@[index as int],
    {
        &self.entries[index as usize]
    }

    /// The entry at `index`, to be changed in place.
    pub fn index_mut(&mut self, index: u16) -> (r: &mut Entry)
        requires
            old(self).wf(),
            index < TABLE_ENTRY_COUNT,
        ensures
            *r == old(self).entries@[index as int],
            final(self).entries@ == old(self).entries@.update(index as int, *final(r)),
    {
        &mut self.entries[index as usize]
    }
}

/// Where in the four tables, and in the page, a virtual address points.
#[derive(Debug, Clone, Copy, PartialEq, Eq, Structural)]
pub struct PageTableIndices {
    pub p1_index: u16,
    pub p2_index: u16,
    pub p3_index: u16,
    pub p4_index: u16,
}

/// The offset of `virt` in its page.
pub open spec fn page_offset(virt: usize) -> u16 {
    (virt % 4096) as u16
}

/// The index of `virt` in the level 1 table.
pub open spec fn p1_index(virt: usize) -> u16 {
    ((virt >> 12) % 512) as u16
}

/// The index of `virt` in the level 2 table.
pub open spec fn p2_index(virt: usize) -> u16 {
    ((virt >> 12 >> 9) % 512) as u16
}

/// The index of `virt` in the level 3 table.
pub open spec fn p3_index(virt: usize) -> u16 {
    ((virt >> 12 >> 9 >> 9) % 512) as u16
}

/// The index of `virt` in the level 4 table.
pub open spec fn p4_index(virt: usize) -> u16 {
    ((virt >> 12 >> 9 >> 9 >> 9) % 512) as u16
}

impl PageTableIndices {
    /// The four table indices of `virt`.
    pub fn of(virt: usize) -> (r: PageTableIndices)
        ensures
            r.p1_index == p1_index(virt),
            r.p2_index == p2_index(virt),
            r.p3_index == p3_index(virt),
            r.p4_index == p4_index(virt),
            r.p1_index < 512 && r.p2_index < 512 && r.p3_index < 512 && r.p4_index < 512,
    {
        PageTableIndices {
            p1_index: ((virt >> 12) % 512) as u16,
            p2_index: ((virt >> 12 >> 9) % 512) as u16,
            p3_index: ((virt >> 12 >> 9 >> 9) % 512) as u16,
            p4_index: ((virt >> 12 >> 9 >> 9 >> 9) % 512) as u16,
        }
    }
}

/// The offset of `virt` in its page.
pub fn offset_in_page(virt: usize) -> (r: u16)
    ensures
        r == page_offset(virt),
        r < 4096,
{
    (virt % 4096) as u16
}

} // verus!
