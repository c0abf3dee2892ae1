//! The memory that holds page tables, and the walk through them.
//!
//! Tables live in the pages of one region of physical memory, which lies in
//! one gigabyte. The kernel reaches a page at the virtual address
//! `physical + hhdm_offset`: the table that the processor walks maps that
//! gigabyte there with one huge entry. The region's page allocator hands out
//! the pages. A page that holds a table has a level, 4 for a root down to 1
//! for a table of leaves, and an entry of a table of level `n` that names
//! another table names one of level `n - 1`.

use crate::allocators::page_allocator::{
    bitmap_pages, count_free, is_first_fit, run_is_free, PageAllocator,
};
use crate::layout::{ceil_div, Layout, MIN_PAGE_SIZE};
use crate::paging::entry::{
    lemma_flag_after_set, lemma_frame_after_flag, lemma_frame_after_store, Entry, FRAME_LIMIT,
    HUGE, PRESENT, UNCACHED, WRITABLE, WRITE_THROUGH,
};
use crate::paging::table::{
    empty_entries, offset_in_page, p1_index, p2_index, p3_index, p4_index, page_offset,
    PageTable, PageTableIndices,
};
use vstd::prelude::*;

verus! {

/// The index of the first free page, or the number of pages where none is
/// free.
pub open spec fn first_free(free: Seq<bool>) -> int
    decreases free.len(),
{
    if free.len() == 0 {
        0
    } else {
        let before = first_free(free.drop_last());
        if before < free.len() - 1 {
            before
        } else if free.last() {
            free.len() - 1
        } else {
            free.len() as int
        }
    }
}

/// The address that a present level 1 entry gives to `virt`.
pub open spec fn page_address(entry: Entry, virt: usize) -> usize {
    (entry.frame() as usize) | (page_offset(virt) as usize)
}

/// The address that a huge level 2 entry gives to `virt`.
pub open spec fn huge_2m_address(entry: Entry, virt: usize) -> usize {
    (entry.frame() as usize) | ((p1_index(virt) as usize) << 12) | (page_offset(virt) as usize)
}

/// The address that a huge level 3 entry gives to `virt`.
pub open spec fn huge_1g_address(entry: Entry, virt: usize) -> usize {
    (entry.frame() as usize) | ((p2_index(virt) as usize) << 12 << 9) | ((p1_index(virt) as usize)
        << 12) | (page_offset(virt) as usize)
}

/// The bytes that a huge entry of level 3 maps.
pub const GIB: usize = 0x4000_0000;

/// What the walk reads and changes: for every page of the region whether it
/// is free, the 512 entries it holds, and the level of the table in it (0
/// where it holds none); where the region starts, how far up the kernel
/// reaches it, and the page of the table that the processor walks.
pub struct MemoryView {
    pub base: int,
    pub hhdm: int,
    pub active: int,
    pub free: Seq<bool>,
    pub tables: Seq<Seq<Entry>>,
    pub levels: Seq<nat>,
}

impl MemoryView {
    /// Whether `phys` is the address of a page of the region.
    pub open spec fn holds(self, phys: int) -> bool {
        &&& self.base <= phys
        &&& (phys - self.base) % 4096 == 0
        &&& (phys - self.base) / 4096 < self.tables.len()
    }

    /// The index of the page at `phys`.
    pub open spec fn frame_of(self, phys: int) -> int {
        (phys - self.base) / 4096
    }

    /// The address of page `frame`.
    pub open spec fn address_of(self, frame: int) -> int {
        self.base + frame * 4096
    }

    /// The level of the table at `phys`; 0 where there is none.
    pub open spec fn level_at(self, phys: int) -> nat {
        if self.holds(phys) {
            self.levels[self.frame_of(phys)]
        } else {
            0
        }
    }

    /// What holds of an entry of a table of level 2 or more: present and not
    /// huge, it names a table one level down; huge entries stand in levels 2
    /// and 3 only; an entry that is not present is not marked huge.
    pub open spec fn entry_ok(self, level: nat, entry: Entry) -> bool {
        if !entry.flag(PRESENT) {
            !entry.flag(HUGE)
        } else if entry.flag(HUGE) {
            level == 2 || level == 3
        } else {
            self.level_at(entry.frame() as int) == level - 1
        }
    }

    /// Whether entry `index` of the table in page `frame` is in order.
    pub open spec fn slot_ok(self, frame: int, index: int) -> bool {
        self.levels[frame] >= 2 ==> self.entry_ok(self.levels[frame], self.tables[frame][index])
    }

    /// The tables are in order, and so is the table that the processor
    /// walks.
    pub open spec fn wf(self) -> bool {
        self.tables_ok() && self.active_ok()
    }

    /// Whether the root in page `root` maps the region's gigabyte at the
    /// kernel's offset with one huge entry.
    pub open spec fn direct_maps(self, root: int) -> bool {
        let virt = (self.base + self.hhdm) as usize;
        let e4 = self.tables[root][p4_index(virt) as int];
        let e3 = self.table_of(e4)[p3_index(virt) as int];
        &&& e4.flag(PRESENT)
        &&& e3.flag(PRESENT)
        &&& e3.flag(HUGE)
        &&& e3.frame() == (self.base / (GIB as int)) * GIB
    }

    /// The region lies in one gigabyte, the kernel's offset is a whole
    /// number of gigabytes, and the table that the processor walks is a root
    /// that maps the region at that offset.
    pub open spec fn active_ok(self) -> bool {
        &&& self.hhdm >= 0
        &&& self.hhdm % (GIB as int) == 0
        &&& self.base + self.hhdm + self.tables.len() * 4096 <= usize::MAX
        &&& self.base / (GIB as int) == (self.base + self.tables.len() * 4096 - 1) / (GIB as int)
        &&& 0 <= self.active < self.tables.len()
        &&& self.levels[self.active] == 4
        &&& self.direct_maps(self.active)
    }

    /// Every table holds 512 entries, a page that holds a table is not free,
    /// and the entries of the tables of levels 4 to 2 are in order.
    pub open spec fn tables_ok(self) -> bool {
        &&& self.base >= 0
        &&& self.base % 4096 == 0
        &&& self.free.len() == self.tables.len()
        &&& self.levels.len() == self.tables.len()
        &&& self.base + self.tables.len() * 4096 <= FRAME_LIMIT
        &&& forall|f: int| 0 <= f < self.tables.len() ==> (#[trigger] self.tables[f]).len() == 512
        &&& forall|f: int|
            0 <= f < self.tables.len() ==> (#[trigger] self.levels[f]) <= 4 && (self.levels[f] >= 1
                ==> !self.free[f])
        &&& forall|f: int, i: int|
            0 <= f < self.tables.len() && 0 <= i < 512 ==> #[trigger] self.slot_ok(f, i)
    }

    /// Whether `root` can stand as a level 4 table over this memory.
    pub open spec fn is_root(self, root: Seq<Entry>) -> bool {
        &&& root.len() == 512
        &&& forall|i: int| 0 <= i < 512 ==> self.entry_ok(4, #[trigger] root[i])
    }

    /// The table that `entry` names.
    pub open spec fn table_of(self, entry: Entry) -> Seq<Entry> {
        self.tables[self.frame_of(entry.frame() as int)]
    }

    /// The physical address that `virt` is mapped to under the level 4 table
    /// `root`: the walk ends with `None` at the first entry that is not
    /// present, and at a huge entry of level 3 or 2 with the address in the
    /// huge frame.
    pub open spec fn walk(self, root: Seq<Entry>, virt: usize) -> Option<usize> {
        let e4 = root[p4_index(virt) as int];
        if !e4.flag(PRESENT) {
            None
        } else {
            let e3 = self.table_of(e4)[p3_index(virt) as int];
            if !e3.flag(PRESENT) {
                None
            } else if e3.flag(HUGE) {
                Some(huge_1g_address(e3, virt))
            } else {
                let e2 = self.table_of(e3)[p2_index(virt) as int];
                if !e2.flag(PRESENT) {
                    None
                } else if e2.flag(HUGE) {
                    Some(huge_2m_address(e2, virt))
                } else {
                    let e1 = self.table_of(e2)[p1_index(virt) as int];
                    if e1.flag(PRESENT) {
                        Some(page_address(e1, virt))
                    } else {
                        None
                    }
                }
            }
        }
    }

    /// This memory with `entry` at `index` of the table in page `frame`.
    pub open spec fn with_entry(self, frame: int, index: int, entry: Entry) -> MemoryView {
        MemoryView {
            base: self.base,
            hhdm: self.hhdm,
            active: self.active,
            free: self.free,
            tables: self.tables.update(frame, self.tables[frame].update(index, entry)),
            levels: self.levels,
        }
    }

    /// This memory with page `frame` taken, zeroed and holding a table of
    /// level `level`.
    pub open spec fn with_new_table(self, frame: int, level: nat) -> MemoryView {
        MemoryView {
            base: self.base,
            hhdm: self.hhdm,
            active: self.active,
            free: self.free.update(frame, false),
            tables: self.tables.update(frame, empty_entries()),
            levels: self.levels.update(frame, level),
        }
    }

    /// The huge entry that maps the gigabyte at the physical address `phys`.
    pub open spec fn huge_entry(phys: int) -> Entry {
        Entry(0).with_frame(phys as u64).with_flag(PRESENT, true).with_flag(
            WRITABLE,
            true,
        ).with_flag(HUGE, true)
    }

    /// The memory of `pages` pages at `base` as it starts out: behind the
    /// pages of the bitmap stand the root that the processor walks and its
    /// level 3 table, which maps the region's gigabyte at the offset `hhdm`;
    /// every other page is free and holds no table.
    pub open spec fn initial(hhdm: int, base: int, pages: int) -> MemoryView {
        let root = bitmap_pages(pages as nat) as int;
        let virt = (base + hhdm) as usize;
        let blank = MemoryView {
            base,
            hhdm,
            active: root,
            free: Seq::new(pages as nat, |i: int| i >= root + 2),
            tables: Seq::new(pages as nat, |f: int| empty_entries()),
            levels: Seq::new(
                pages as nat,
                |f: int|
                    if f == root {
                        4nat
                    } else if f == root + 1 {
                        3nat
                    } else {
                        0nat
                    },
            ),
        };
        blank.with_entry(
            root + 1,
            p3_index(virt) as int,
            Self::huge_entry((base / (GIB as int)) * GIB),
        ).with_entry(root, p4_index(virt) as int, blank.link_to(Entry(0), root + 1))
    }

    /// The entry that makes a slot name the table in page `frame`.
    pub open spec fn link_to(self, entry: Entry, frame: int) -> Entry {
        entry.with_frame(self.address_of(frame) as u64).with_flag(PRESENT, true).with_flag(
            WRITABLE,
            true,
        )
    }

    /// Whether the walk can go through slot `index` of the table in page
    /// `table`: a present entry there is not huge, and for one that is not
    /// present a page is free to hold a new table.
    pub open spec fn can_descend(self, table: int, index: int) -> bool {
        let entry = self.tables[table][index];
        if entry.flag(PRESENT) {
            !entry.flag(HUGE)
        } else {
            first_free(self.free) < self.free.len()
        }
    }

    /// One step down from slot `index` of the table of level `level` in page
    /// `table`: the memory after the step and the page of the next table.
    /// Where the slot is not present, the first free page is zeroed and
    /// becomes the next table, and the slot names it, present and writable.
    pub open spec fn descend(self, table: int, index: int, level: nat) -> (MemoryView, int) {
        let entry = self.tables[table][index];
        if entry.flag(PRESENT) {
            (self, self.frame_of(entry.frame() as int))
        } else {
            let fresh = first_free(self.free);
            (
                self.with_new_table(fresh, (level - 1) as nat).with_entry(
                    table,
                    index,
                    self.link_to(entry, fresh),
                ),
                fresh,
            )
        }
    }

    /// The memory after the three steps down from the root in page `root`
    /// along `virt`, and the page of the level 1 table reached.
    pub open spec fn descend_to_leaf(self, root: int, virt: usize) -> (MemoryView, int) {
        let third = self.descend(root, p4_index(virt) as int, 4);
        let second = third.0.descend(third.1, p3_index(virt) as int, 3);
        second.0.descend(second.1, p2_index(virt) as int, 2)
    }

    /// Whether the three steps down along `virt` can be made.
    pub open spec fn can_map(self, root: int, virt: usize) -> bool {
        let third = self.descend(root, p4_index(virt) as int, 4);
        let second = third.0.descend(third.1, p3_index(virt) as int, 3);
        &&& self.can_descend(root, p4_index(virt) as int)
        &&& third.0.can_descend(third.1, p3_index(virt) as int)
        &&& second.0.can_descend(second.1, p2_index(virt) as int)
    }

    /// The leaf entry of `virt` once it maps to `phys`.
    pub open spec fn mapped_leaf(entry: Entry, phys: usize) -> Entry {
        entry.with_frame(phys as u64).with_flag(PRESENT, true)
    }

    /// The memory after `virt` has been mapped to `phys` under the root in
    /// page `root`.
    pub open spec fn map(self, root: int, virt: usize, phys: usize) -> MemoryView {
        let leaf = self.descend_to_leaf(root, virt);
        let index = p1_index(virt) as int;
        leaf.0.with_entry(leaf.1, index, Self::mapped_leaf(leaf.0.tables[leaf.1][index], phys))
    }

    /// The leaf entry of a device's page: mapped to `phys`, writable,
    /// written through, not cached.
    pub open spec fn device_leaf(entry: Entry, phys: usize) -> Entry {
        Self::mapped_leaf(entry, phys).with_flag(WRITABLE, true).with_flag(
            WRITE_THROUGH,
            true,
        ).with_cachability(false)
    }

    /// The memory after the page of a device's registers at `virt` has been
    /// mapped to `phys` under the root in page `root`.
    pub open spec fn map_device(self, root: int, virt: usize, phys: usize) -> MemoryView {
        let leaf = self.descend_to_leaf(root, virt);
        let index = p1_index(virt) as int;
        leaf.0.with_entry(leaf.1, index, Self::device_leaf(leaf.0.tables[leaf.1][index], phys))
    }

    /// Whether mapping `virt` finds its leaf entry present, so that the page
    /// is to be dropped from the TLB.
    pub open spec fn remaps(self, root: int, virt: usize) -> bool {
        let leaf = self.descend_to_leaf(root, virt);
        leaf.0.tables[leaf.1][p1_index(virt) as int].flag(PRESENT)
    }

    /// What mapping a device's page comes to: the memory afterwards, whether
    /// the page is to be dropped from the TLB, and why it could not be
    /// mapped, if it could not; nothing changes then.
    #[verifier::opaque]
    pub open spec fn after_map_device(self, root: int, virt: usize, phys: usize) -> (
        MemoryView,
        bool,
        Option<MapError>,
    ) {
        match self.map_error(root, virt, phys) {
            Some(error) => (self, false, Some(error)),
            None => (self.map_device(root, virt, phys), self.remaps(root, virt), None),
        }
    }

    /// The page of the level 1 table that holds the leaf of `virt`, where
    /// all three entries above it are present and none is huge.
    pub open spec fn leaf_table(self, root: int, virt: usize) -> Option<int> {
        let e4 = self.tables[root][p4_index(virt) as int];
        if !e4.flag(PRESENT) || e4.flag(HUGE) {
            None
        } else {
            let e3 = self.table_of(e4)[p3_index(virt) as int];
            if !e3.flag(PRESENT) || e3.flag(HUGE) {
                None
            } else {
                let e2 = self.table_of(e3)[p2_index(virt) as int];
                if !e2.flag(PRESENT) || e2.flag(HUGE) {
                    None
                } else {
                    Some(self.frame_of(e2.frame() as int))
                }
            }
        }
    }

    /// The number of tables that are missing on the way to the leaf of
    /// `virt`, or `None` where the walk meets a huge entry.
    pub open spec fn missing_tables(self, root: int, virt: usize) -> Option<nat> {
        let e4 = self.tables[root][p4_index(virt) as int];
        if !e4.flag(PRESENT) {
            Some(3)
        } else if e4.flag(HUGE) {
            None
        } else {
            let e3 = self.table_of(e4)[p3_index(virt) as int];
            if !e3.flag(PRESENT) {
                Some(2)
            } else if e3.flag(HUGE) {
                None
            } else {
                let e2 = self.table_of(e3)[p2_index(virt) as int];
                if !e2.flag(PRESENT) {
                    Some(1)
                } else if e2.flag(HUGE) {
                    None
                } else {
                    Some(0)
                }
            }
        }
    }

    /// Why `virt` cannot be mapped to `phys` under the root in page `root`,
    /// if it cannot: both must be page-aligned, `phys` must fit an entry, the
    /// walk must meet no huge entry, and a page must be free for every table
    /// that is missing.
    pub open spec fn map_error(self, root: int, virt: usize, phys: usize) -> Option<MapError> {
        if virt % 4096 != 0 || phys % 4096 != 0 {
            Some(MapError::Misaligned)
        } else if phys >= FRAME_LIMIT {
            Some(MapError::OutOfRange)
        } else {
            match self.missing_tables(root, virt) {
                None => Some(MapError::HugePage),
                Some(missing) => if count_free(self.free) < missing {
                    Some(MapError::OutOfMemory)
                } else {
                    None
                },
            }
        }
    }

    /// Whether the walk along `virt` meets a huge entry.
    pub open spec fn meets_huge(self, root: int, virt: usize) -> bool {
        self.missing_tables(root, virt).is_none()
    }

    /// The memory after `virt` has been unmapped under the root in page
    /// `root`: the leaf entry, where the walk reaches it, is no longer
    /// present.
    pub open spec fn unmap(self, root: int, virt: usize) -> MemoryView {
        match self.leaf_table(root, virt) {
            Some(table) => {
                let index = p1_index(virt) as int;
                self.with_entry(table, index, self.tables[table][index].with_flag(PRESENT, false))
            },
            None => self,
        }
    }
}

/// Why a page cannot be mapped.
#[derive(Debug, Clone, Copy, PartialEq, Eq, Structural)]
pub enum MapError {
    /// An address is not a multiple of the page size.
    Misaligned,
    /// The physical address does not fit an entry.
    OutOfRange,
    /// The walk meets a huge entry.
    HugePage,
    /// A table is missing and no page is free to hold it.
    OutOfMemory,
}

/// The pages in which page tables live.
pub struct PhysicalMemory {
    pub hhdm_offset: usize,
    /// The physical address in the processor's table register.
    pub cr3: usize,
    pub allocator: PageAllocator,
    pub frames: Vec<PageTable>,
    pub levels: Ghost<Seq<nat>>,
    pub invalidated: Vec<usize>,
}

impl PhysicalMemory {
    /// What the pages hold, as the walk sees it.
    pub open spec fn view(&self) -> MemoryView {
        MemoryView {
            base: self.allocator.region_start - self.hhdm_offset,
            hhdm: self.hhdm_offset as int,
            active: (self.cr3 - (self.allocator.region_start - self.hhdm_offset)) / 4096,
            free: self.allocator.free_map(),
            tables: Seq::new(self.frames@.len(), |f: int| self.frames@[f].entries@),
            levels: self.levels@,
        }
    }

    /// The allocator's region is the pages held here, reached through the
    /// direct map.
    pub open spec fn structure_ok(&self) -> bool {
        &&& self.allocator.wf()
        &&& self.hhdm_offset <= self.allocator.region_start
        &&& self.frames@.len() == self.allocator.page_count
        &&& self.cr3 >= self.allocator.region_start - self.hhdm_offset
        &&& (self.cr3 - (self.allocator.region_start - self.hhdm_offset)) % 4096 == 0
    }

    /// The memory is in order: its parts fit together and its tables are
    /// in order.
    pub open spec fn wf(&self) -> bool {
        self.structure_ok() && self.view().wf()
    }

    /// Whether `other` is this memory but for what its pages hold.
    pub open spec fn same_place(&self, other: &PhysicalMemory) -> bool {
        &&& self.hhdm_offset == other.hhdm_offset
        &&& self.cr3 == other.cr3
        &&& self.allocator.region_start == other.allocator.region_start
        &&& self.allocator.page_count == other.allocator.page_count
    }

    /// The memory of the `region_len / 4096` pages at the physical address
    /// `region_start`. The first pages are taken by the allocator's bitmap;
    /// the two behind them become the root that the processor walks and its
    /// level 3 table, which maps the region's gigabyte at `hhdm_offset`.
    pub fn new(hhdm_offset: usize, region_start: usize, region_len: usize) -> (r: PhysicalMemory)
        requires
            hhdm_offset + region_start + region_len <= usize::MAX,
            region_start + region_len <= FRAME_LIMIT,
            region_start % MIN_PAGE_SIZE == 0,
            hhdm_offset % GIB == 0,
            region_len / MIN_PAGE_SIZE >= bitmap_pages((region_len / MIN_PAGE_SIZE) as nat) + 2,
            region_start / GIB == (region_start + (region_len / MIN_PAGE_SIZE) * MIN_PAGE_SIZE - 1)
                / (GIB as int),
        ensures
            r.wf(),
            r.hhdm_offset == hhdm_offset,
            r.invalidated@ == Seq::<usize>::empty(),
            r.view() == MemoryView::initial(
                hhdm_offset as int,
                region_start as int,
                (region_len / MIN_PAGE_SIZE) as int,
            ),
    {
        let mut allocator = PageAllocator::new(region_start + hhdm_offset, region_len);
        let pages: usize = allocator.page_count;
        let root: usize = ceil_div(ceil_div(pages, 8), MIN_PAGE_SIZE);
        allocator.set_free_bit(root, false);
        allocator.set_free_bit(root + 1, false);
        let mut frames: Vec<PageTable> = Vec::new();
        let mut i: usize = 0;
        while i < pages
            invariant
                i <= pages,
                frames@.len() == i,
                forall|f: int| 0 <= f < i ==> (#[trigger] frames@[f]).entries@ == empty_entries(),
            decreases pages - i,
        {
            frames.push(PageTable::empty());
            i += 1;
        }
        let virt: usize = region_start + hhdm_offset;
        let indices = PageTableIndices::of(virt);
        let gigabyte: usize = (region_start / GIB) * GIB;
        proof {
            assert((root + 2) * MIN_PAGE_SIZE <= pages * MIN_PAGE_SIZE) by (nonlinear_arith)
                requires
                    root + 2 <= pages,
            ;
        }
        let third: usize = region_start + (root + 1) * MIN_PAGE_SIZE;
        let mut huge = Entry(0);
        huge.set_phys(gigabyte as u64).set_present(true).set_writable(true).set_huge(true);
        let mut link = Entry(0);
        link.set_phys(third as u64).set_present(true).set_writable(true);
        frames[root + 1].entries[indices.p3_index as usize] = huge;
        frames[root].entries[indices.p4_index as usize] = link;
        let ghost levels = Seq::new(
            pages as nat,
            |f: int|
                if f == root {
                    4nat
                } else if f == root + 1 {
                    3nat
                } else {
                    0nat
                },
        );
        let memory = PhysicalMemory {
            hhdm_offset,
            cr3: region_start + root * MIN_PAGE_SIZE,
            allocator,
            frames,
            levels: Ghost(levels),
            invalidated: Vec::new(),
        };
        proof {
            let view = memory.view();
            let expected = MemoryView::initial(
                hhdm_offset as int,
                region_start as int,
                pages as int,
            );
            assert(view.free =~= expected.free);
            assert(view.tables =~~= expected.tables);
            assert(view.levels =~= expected.levels);
            assert(view =~~= expected);
            lemma_initial_wf(hhdm_offset as int, region_start as int, pages as int);
        }
        memory
    }

    /// The index of the page at the physical address `phys`.
    pub fn frame_index(&self, phys: usize) -> (r: usize)
        requires
            self.structure_ok(),
            self.view().holds(phys as int),
        ensures
            r == self.view().frame_of(phys as int),
            r < self.frames@.len(),
    {
        (phys - (self.allocator.region_start - self.hhdm_offset)) / MIN_PAGE_SIZE
    }

    /// The physical address of page `frame`.
    pub fn frame_address(&self, frame: usize) -> (r: usize)
        requires
            self.structure_ok(),
            frame < self.frames@.len(),
        ensures
            r == self.view().address_of(frame as int),
            self.view().holds(r as int),
            self.view().frame_of(r as int) == frame,
    {
        assert(frame * MIN_PAGE_SIZE <= self.allocator.page_count * MIN_PAGE_SIZE)
            by (nonlinear_arith)
            requires
                frame <= self.allocator.page_count,
        ;
        (self.allocator.region_start - self.hhdm_offset) + frame * MIN_PAGE_SIZE
    }

    /// Takes the first free page, zeroes it and makes it a table of level
    /// `level`. Returns the page's index, or `None` where no page is free.
    fn allocate_table(&mut self, Ghost(level): Ghost<nat>) -> (r: Option<usize>)
        requires
            old(self).wf(),
            1 <= level <= 4,
        ensures
            final(self).structure_ok(),
            final(self).same_place(old(self)),
            final(self).invalidated@ == old(self).invalidated@,
            match r {
                Some(frame) => {
                    &&& frame == first_free(old(self).view().free)
                    &&& frame < old(self).frames@.len()
                    &&& final(self).view() == old(self).view().with_new_table(frame as int, level)
                },
                None => {
                    &&& first_free(old(self).view().free) == old(self).view().free.len()
                    &&& final(self).view() == old(self).view()
                },
            },
    {
        let ghost before = self.view();
        proof {
            lemma_one_page();
        }
        match self.allocator.allocate(Layout::page()) {
            None => {
                proof {
                    lemma_none_free(before.free);
                    assert(self.view() =~~= before);
                }
                None
            },
            Some(virt) => {
                let frame: usize = (virt - self.allocator.region_start) / MIN_PAGE_SIZE;
                proof {
                    lemma_first_free_found(before.free, frame as int);
                }
                self.frames[frame] = PageTable::empty();
                proof {
                    self.levels@ = self.levels@.update(frame as int, level);
                    assert(self.view().free =~= before.free.update(frame as int, false));
                    assert(self.view().tables =~= before.tables.update(
                        frame as int,
                        empty_entries(),
                    ));
                    assert(self.view() =~~= before.with_new_table(frame as int, level));
                }
                Some(frame)
            },
        }
    }

    /// Makes a new level 4 table and returns its physical address; `None`
    /// where no page is free. The table shares the entry through which the
    /// table that the processor walks maps the region's gigabyte; no other
    /// entry of it is present.
    pub fn new_root(&mut self) -> (r: Option<usize>)
        requires
            old(self).wf(),
        ensures
            final(self).wf(),
            final(self).same_place(old(self)),
            final(self).invalidated@ == old(self).invalidated@,
            match r {
                Some(phys) => {
                    let view = old(self).view();
                    let frame = first_free(view.free);
                    let index = p4_index((view.base + view.hhdm) as usize) as int;
                    &&& frame < view.free.len()
                    &&& phys == view.address_of(frame)
                    &&& final(self).view() == view.with_new_table(frame, 4).with_entry(
                        frame,
                        index,
                        view.tables[view.active][index],
                    )
                    &&& final(self).view().level_at(phys as int) == 4
                    &&& final(self).view().direct_maps(frame)
                },
                None => {
                    &&& first_free(old(self).view().free) == old(self).view().free.len()
                    &&& final(self).view() == old(self).view()
                },
            },
    {
        let ghost view = self.view();
        match self.allocate_table(Ghost(4)) {
            None => None,
            Some(frame) => {
                let ghost created = self.view();
                proof {
                    lemma_first_free(view.free);
                    lemma_new_table_wf(view, frame as int, 4);
                    lemma_share_direct_map(created, frame as int);
                    assert(created.tables[created.active].len() == 512);
                }
                let active: usize = self.frame_index(self.cr3);
                let indices = PageTableIndices::of(self.allocator.region_start);
                let shared: Entry = self.frames[active].entries[indices.p4_index as usize];
                self.frames[frame].entries[indices.p4_index as usize] = shared;
                proof {
                    assert(self.view().tables =~= created.tables.update(
                        frame as int,
                        created.tables[frame as int].update(indices.p4_index as int, shared),
                    ));
                    assert(self.view() =~~= created.with_entry(
                        frame as int,
                        indices.p4_index as int,
                        shared,
                    ));
                }
                Some(self.frame_address(frame))
            },
        }
    }

    /// The table in the page at the physical address `phys`.
    pub fn table_at(&self, phys: usize) -> (r: &PageTable)
        requires
            self.wf(),
            self.view().holds(phys as int),
        ensures
            r.entries@ == self.view().tables[self.view().frame_of(phys as int)],
            r.wf(),
    {
        let frame: usize = self.frame_index(phys);
        assert(self.view().tables[frame as int].len() == 512);
        &self.frames[frame]
    }

    /// One step of the walk that builds what is missing: the page of the
    /// table that slot `index` of the table in page `table` names. Where the
    /// slot is not present, a page is taken from the allocator and zeroed,
    /// its address is translated by the table that the processor walks, and
    /// the slot is made to name it, present and writable.
    fn descend(&mut self, table: usize, index: u16, Ghost(level): Ghost<nat>) -> (next: usize)
        requires
            old(self).wf(),
            table < old(self).frames@.len(),
            index < 512,
            2 <= level <= 4,
            old(self).view().levels[table as int] == level,
            old(self).view().can_descend(table as int, index as int),
        ensures
            final(self).wf(),
            final(self).same_place(old(self)),
            final(self).invalidated@ == old(self).invalidated@,
            (final(self).view(), next as int) == old(self).view().descend(
                table as int,
                index as int,
                level,
            ),
            next < final(self).frames@.len(),
    {
        let ghost before = self.view();
        proof {
            assert(before.slot_ok(table as int, index as int));
            assert(before.tables[table as int].len() == 512);
            lemma_descend(before, table as int, index as int, level);
        }
        let entry: Entry = self.frames[table].entries[index as usize];
        if entry.is_present() {
            self.frame_index(entry.get_phys() as usize)
        } else {
            let fresh: usize = match self.allocate_table(Ghost((level - 1) as nat)) {
                Some(frame) => frame,
                None => {
                    proof {
                        assert(false);
                    }
                    0
                },
            };
            let ghost created = self.view();
            proof {
                lemma_first_free(before.free);
                lemma_new_table_wf(before, fresh as int, (level - 1) as nat);
                lemma_direct_map(created, created.active, fresh as int);
            }
            let virt: usize = self.allocator.get_page(fresh);
            let address: usize = match get_active_table(self).translate(self, virt) {
                Some(phys) => phys,
                None => {
                    proof {
                        assert(false);
                    }
                    0
                },
            };
            let mut link: Entry = entry;
            link.set_phys(address as u64).set_present(true).set_writable(true);
            assert(self.frames@[table as int].entries@ == created.tables[table as int]);
            self.frames[table].entries[index as usize] = link;
            proof {
                assert(self.view().tables =~= created.tables.update(
                    table as int,
                    created.tables[table as int].update(index as int, link),
                ));
                assert(self.view() =~~= created.with_entry(table as int, index as int, link));
            }
            fresh
        }
    }
}

impl Entry {
    /// The table that this entry names.
    pub fn get_page_table<'a>(&self, memory: &'a PhysicalMemory) -> (r: &'a PageTable)
        requires
            memory.wf(),
            memory.view().holds(self.frame() as int),
        ensures
            r.entries@ == memory.view().table_of(*self),
            r.wf(),
    {
        memory.table_at(self.get_phys() as usize)
    }
}

impl PageTable {
    /// The physical address that `virt` is mapped to under this level 4
    /// table, or `None` where the walk meets an entry that is not present. A
    /// huge entry of level 3 or 2 ends the walk with the address in its
    /// frame.
    pub fn translate(&self, memory: &PhysicalMemory, virt: usize) -> (r: Option<usize>)
        requires
            memory.wf(),
            memory.view().is_root(self.entries@),
        ensures
            r == memory.view().walk(self.entries@, virt),
    {
        let ghost view = memory.view();
        let offset: u16 = offset_in_page(virt);
        let indices = PageTableIndices::of(virt);
        let e4: &Entry = self.index(indices.p4_index);
        proof {
            assert(view.entry_ok(4, self.entries@[indices.p4_index as int]));
        }
        if !e4.is_present() {
            return None;
        }
        let third_table: &PageTable = e4.get_page_table(memory);
        let e3: &Entry = third_table.index(indices.p3_index);
        proof {
            assert(view.slot_ok(view.frame_of(e4.frame() as int), indices.p3_index as int));
        }
        if !e3.is_present() {
            return None;
        }
        if e3.is_huge() {
            return Some(
                e3.get_phys() as usize | ((indices.p2_index as usize) << 12 << 9) | ((
                indices.p1_index as usize) << 12) | offset as usize,
            );
        }
        let second_table: &PageTable = e3.get_page_table(memory);
        let e2: &Entry = second_table.index(indices.p2_index);
        proof {
            assert(view.slot_ok(view.frame_of(e3.frame() as int), indices.p2_index as int));
        }
        if !e2.is_present() {
            return None;
        }
        if e2.is_huge() {
            return Some(
                e2.get_phys() as usize | ((indices.p1_index as usize) << 12) | offset as usize,
            );
        }
        let first_table: &PageTable = e2.get_page_table(memory);
        let e1: &Entry = first_table.index(indices.p1_index);
        if e1.is_present() {
            Some(e1.get_phys() as usize | offset as usize)
        } else {
            None
        }
    }

    /// Maps the page at `virt` to the frame at `phys` under the level 4
    /// table at the physical address `root`. Every table that is missing on
    /// the way is made from the first free page, zeroed, and named by its
    /// slot as present and writable. The leaf entry then holds `phys` and is
    /// present; it is returned for its attributes to be set. Where the leaf
    /// was present before, `virt` is noted for a TLB invalidation.
    pub fn map<'a>(
        memory: &'a mut PhysicalMemory,
        root: usize,
        virt: usize,
        phys: usize,
    ) -> (ret: &'a mut Entry)
        requires
            old(memory).wf(),
            old(memory).view().level_at(root as int) == 4,
            virt % MIN_PAGE_SIZE == 0,
            phys % MIN_PAGE_SIZE == 0,
            phys < FRAME_LIMIT,
            old(memory).view().can_map(old(memory).view().frame_of(root as int), virt),
        ensures
            final(memory).structure_ok(),
            final(memory).same_place(old(memory)),
            ({
                let view = old(memory).view();
                let top = view.frame_of(root as int);
                let leaf = view.descend_to_leaf(top, virt);
                let index = p1_index(virt) as int;
                let after = view.map(top, virt, phys);
                &&& *ret == after.tables[leaf.1][index]
                &&& final(memory).view().base == after.base
                &&& final(memory).view().free =~= after.free
                &&& final(memory).view().levels =~= after.levels
                &&& final(memory).view().tables =~~= after.with_entry(
                    leaf.1,
                    index,
                    *final(ret),
                ).tables
                &&& final(memory).invalidated@ == (if leaf.0.tables[leaf.1][index].flag(PRESENT) {
                    old(memory).invalidated@.push(virt)
                } else {
                    old(memory).invalidated@
                })
                &&& after.wf()
                &&& after.level_at(root as int) == 4
                &&& after.walk(after.tables[top], virt) == Some(phys)
            }),
    {
        let ghost view = memory.view();
        let top: usize = memory.frame_index(root);
        let indices = PageTableIndices::of(virt);
        proof {
            lemma_descend(view, top as int, indices.p4_index as int, 4);
        }
        let third: usize = memory.descend(top, indices.p4_index, Ghost(4));
        proof {
            lemma_descend(memory.view(), third as int, indices.p3_index as int, 3);
        }
        let second: usize = memory.descend(third, indices.p3_index, Ghost(3));
        proof {
            lemma_descend(memory.view(), second as int, indices.p2_index as int, 2);
        }
        let first: usize = memory.descend(second, indices.p2_index, Ghost(2));
        let ghost reached = memory.view();
        proof {
            assert(reached.tables[first as int].len() == 512);
            let leaf = reached.tables[first as int][indices.p1_index as int];
            let mapped = MemoryView::mapped_leaf(leaf, phys);
            lemma_frame_after_store(leaf, phys as u64, PRESENT);
            lemma_flag_after_set(leaf.with_frame(phys as u64), PRESENT, true, PRESENT);
            lemma_frame_after_flag(leaf.with_frame(phys as u64), PRESENT, true);
            lemma_map_translates(view, top as int, virt, phys, mapped);
        }
        let was_present: bool = memory.frames[first].entries[indices.p1_index as usize].is_present();
        if was_present {
            memory.invalidated.push(virt);
        }
        let entry: &mut Entry = memory.frames[first].index_mut(indices.p1_index);
        entry.set_phys(phys as u64);
        entry.set_present(true);
        entry
    }

    /// The number of tables that are missing on the way to the leaf of
    /// `virt`, or `None` where the walk meets a huge entry.
    pub fn missing_tables(memory: &PhysicalMemory, root: usize, virt: usize) -> (r: Option<usize>)
        requires
            memory.wf(),
            memory.view().level_at(root as int) == 4,
        ensures
            match (r, memory.view().missing_tables(memory.view().frame_of(root as int), virt)) {
                (Some(missing), Some(expected)) => missing == expected,
                (None, None) => true,
                _ => false,
            },
    {
        let ghost view = memory.view();
        let top: usize = memory.frame_index(root);
        let indices = PageTableIndices::of(virt);
        proof {
            assert(view.slot_ok(top as int, indices.p4_index as int));
            assert(view.tables[top as int].len() == 512);
        }
        let e4: Entry = memory.frames[top].entries[indices.p4_index as usize];
        if !e4.is_present() {
            return Some(3);
        }
        if e4.is_huge() {
            return None;
        }
        let third: usize = memory.frame_index(e4.get_phys() as usize);
        proof {
            assert(view.slot_ok(third as int, indices.p3_index as int));
            assert(view.tables[third as int].len() == 512);
        }
        let e3: Entry = memory.frames[third].entries[indices.p3_index as usize];
        if !e3.is_present() {
            return Some(2);
        }
        if e3.is_huge() {
            return None;
        }
        let second: usize = memory.frame_index(e3.get_phys() as usize);
        proof {
            assert(view.slot_ok(second as int, indices.p2_index as int));
            assert(view.tables[second as int].len() == 512);
        }
        let e2: Entry = memory.frames[second].entries[indices.p2_index as usize];
        if !e2.is_present() {
            return Some(1);
        }
        if e2.is_huge() {
            return None;
        }
        Some(0)
    }

    /// Maps the page at `virt` to the frame at `phys` as `map` does, after
    /// making sure that it can be done; where it cannot, nothing changes and
    /// the reason is returned.
    pub fn try_map<'a>(
        memory: &'a mut PhysicalMemory,
        root: usize,
        virt: usize,
        phys: usize,
    ) -> (r: Result<&'a mut Entry, MapError>)
        requires
            old(memory).wf(),
            old(memory).view().level_at(root as int) == 4,
        ensures
            final(memory).structure_ok(),
            final(memory).same_place(old(memory)),
            ({
                let view = old(memory).view();
                let top = view.frame_of(root as int);
                let leaf = view.descend_to_leaf(top, virt);
                let index = p1_index(virt) as int;
                let after = view.map(top, virt, phys);
                match r {
                    Ok(ret) => {
                        &&& view.map_error(top, virt, phys).is_none()
                        &&& *ret == after.tables[leaf.1][index]
                        &&& final(memory).view().base == after.base
                        &&& final(memory).view().hhdm == after.hhdm
                        &&& final(memory).view().active == after.active
                        &&& final(memory).view().free =~= after.free
                        &&& final(memory).view().levels =~= after.levels
                        &&& final(memory).view().tables =~~= after.with_entry(
                            leaf.1,
                            index,
                            *final(ret),
                        ).tables
                        &&& final(memory).invalidated@ == (if leaf.0.tables[leaf.1][index].flag(
                            PRESENT,
                        ) {
                            old(memory).invalidated@.push(virt)
                        } else {
                            old(memory).invalidated@
                        })
                        &&& after.wf()
                        &&& after.level_at(root as int) == 4
                        &&& after.walk(after.tables[top], virt) == Some(phys)
                    },
                    Err(error) => {
                        &&& view.map_error(top, virt, phys) == Some(error)
                        &&& final(memory).view() == view
                        &&& final(memory).invalidated@ == old(memory).invalidated@
                    },
                }
            }),
    {
        if virt % MIN_PAGE_SIZE != 0 || phys % MIN_PAGE_SIZE != 0 {
            return Err(MapError::Misaligned);
        }
        if phys as u64 >= FRAME_LIMIT {
            return Err(MapError::OutOfRange);
        }
        let missing: usize = match Self::missing_tables(memory, root, virt) {
            None => {
                return Err(MapError::HugePage);
            },
            Some(missing) => missing,
        };
        let free_pages: usize = memory.allocator.calculate_free_space() / MIN_PAGE_SIZE;
        if free_pages < missing {
            return Err(MapError::OutOfMemory);
        }
        proof {
            let view = memory.view();
            lemma_can_map(view, view.frame_of(root as int), virt);
        }
        Ok(Self::map(memory, root, virt, phys))
    }

    /// Maps the page of a device's registers at `virt` to the frame at `phys`
    /// with the attributes of device memory: writable, written through, not
    /// cached. Where the page cannot be mapped, nothing changes and the
    /// reason is returned.
    pub fn map_device(memory: &mut PhysicalMemory, root: usize, virt: usize, phys: usize) -> (r:
        Result<(), MapError>)
        requires
            old(memory).wf(),
            old(memory).view().level_at(root as int) == 4,
        ensures
            final(memory).wf(),
            final(memory).same_place(old(memory)),
            final(memory).view().level_at(root as int) == 4,
            ({
                let view = old(memory).view();
                let outcome = view.after_map_device(view.frame_of(root as int), virt, phys);
                &&& final(memory).view() == outcome.0
                &&& final(memory).invalidated@ == (if outcome.1 {
                    old(memory).invalidated@.push(virt)
                } else {
                    old(memory).invalidated@
                })
                &&& match r {
                    Ok(()) => outcome.2.is_none(),
                    Err(error) => outcome.2 == Some(error),
                }
            }),
            ({
                let view = old(memory).view();
                let top = view.frame_of(root as int);
                let leaf = view.descend_to_leaf(top, virt);
                let index = p1_index(virt) as int;
                match r {
                    Ok(()) => {
                        &&& view.map_error(top, virt, phys).is_none()
                        &&& final(memory).view() == view.map_device(top, virt, phys)
                        &&& final(memory).view().walk(final(memory).view().tables[top], virt)
                            == Some(phys)
                        &&& final(memory).invalidated@ == (if view.remaps(top, virt) {
                            old(memory).invalidated@.push(virt)
                        } else {
                            old(memory).invalidated@
                        })
                    },
                    Err(error) => {
                        &&& view.map_error(top, virt, phys) == Some(error)
                        &&& final(memory).view() == view
                        &&& final(memory).invalidated@ == old(memory).invalidated@
                    },
                }
            }),
    {
        let ghost view = memory.view();
        let ghost top = view.frame_of(root as int);
        proof {
            reveal(MemoryView::after_map_device);
        }
        match Self::try_map(memory, root, virt, phys) {
            Err(error) => Err(error),
            Ok(entry) => {
                let ghost mapped = *entry;
                entry.set_writable(true).set_write_through(true).set_cachability(false);
                proof {
                    let leaf = view.descend_to_leaf(top, virt);
                    let index = p1_index(virt) as int;
                    let first = mapped.with_flag(WRITABLE, true);
                    let second = first.with_flag(WRITE_THROUGH, true);
                    let last = second.with_cachability(false);
                    let old_leaf = leaf.0.tables[leaf.1][index];
                    let stored = old_leaf.with_frame(phys as u64);
                    lemma_can_map(view, top, virt);
                    lemma_frame_after_store(old_leaf, phys as u64, PRESENT);
                    lemma_flag_after_set(stored, PRESENT, true, PRESENT);
                    lemma_frame_after_flag(stored, PRESENT, true);
                    lemma_map_translates(
                        view,
                        top,
                        virt,
                        phys,
                        MemoryView::mapped_leaf(old_leaf, phys),
                    );
                    assert(leaf.0.tables[leaf.1].len() == 512);
                    assert(mapped == MemoryView::mapped_leaf(old_leaf, phys));
                    lemma_flag_after_set(mapped, WRITABLE, true, PRESENT);
                    lemma_flag_after_set(first, WRITE_THROUGH, true, PRESENT);
                    lemma_flag_after_set(second, UNCACHED, true, PRESENT);
                    lemma_frame_after_flag(mapped, WRITABLE, true);
                    lemma_frame_after_flag(first, WRITE_THROUGH, true);
                    lemma_frame_after_flag(second, UNCACHED, true);
                    lemma_map_translates(view, top, virt, phys, last);
                    let after = view.map(top, virt, phys);
                    assert(after.with_entry(leaf.1, index, last).tables =~~= leaf.0.with_entry(
                        leaf.1,
                        index,
                        last,
                    ).tables);
                    assert(memory.view() =~~= leaf.0.with_entry(leaf.1, index, last));
                }
                Ok(())
            },
        }
    }

    /// Unmaps the page at `virt` under the level 4 table at the physical
    /// address `root`: where the walk reaches the leaf entry, the entry is no
    /// longer present, and if it was, `virt` is noted for a TLB invalidation.
    /// Where an entry on the way is not present, nothing changes.
    pub fn unmap(memory: &mut PhysicalMemory, root: usize, virt: usize)
        requires
            old(memory).wf(),
            old(memory).view().level_at(root as int) == 4,
            virt % MIN_PAGE_SIZE == 0,
            !old(memory).view().meets_huge(old(memory).view().frame_of(root as int), virt),
        ensures
            final(memory).wf(),
            final(memory).same_place(old(memory)),
            ({
                let view = old(memory).view();
                let top = view.frame_of(root as int);
                let index = p1_index(virt) as int;
                &&& final(memory).view() == view.unmap(top, virt)
                &&& final(memory).invalidated@ == (match view.leaf_table(top, virt) {
                    Some(table) => if view.tables[table][index].flag(PRESENT) {
                        old(memory).invalidated@.push(virt)
                    } else {
                        old(memory).invalidated@
                    },
                    None => old(memory).invalidated@,
                })
                &&& final(memory).view().level_at(root as int) == 4
                &&& final(memory).view().walk(final(memory).view().tables[top], virt)
                    == None::<usize>
            }),
    {
        let ghost view = memory.view();
        let top: usize = memory.frame_index(root);
        let indices = PageTableIndices::of(virt);
        proof {
            lemma_unmap_translates(view, top as int, virt);
            assert(view.slot_ok(top as int, indices.p4_index as int));
            assert(view.tables[top as int].len() == 512);
        }
        let e4: Entry = memory.frames[top].entries[indices.p4_index as usize];
        if !e4.is_present() {
            return ;
        }
        let third: usize = memory.frame_index(e4.get_phys() as usize);
        proof {
            assert(view.slot_ok(third as int, indices.p3_index as int));
            assert(view.tables[third as int].len() == 512);
        }
        let e3: Entry = memory.frames[third].entries[indices.p3_index as usize];
        if !e3.is_present() {
            return ;
        }
        let second: usize = memory.frame_index(e3.get_phys() as usize);
        proof {
            assert(view.slot_ok(second as int, indices.p2_index as int));
            assert(view.tables[second as int].len() == 512);
        }
        let e2: Entry = memory.frames[second].entries[indices.p2_index as usize];
        if !e2.is_present() {
            return ;
        }
        let first: usize = memory.frame_index(e2.get_phys() as usize);
        proof {
            assert(view.tables[first as int].len() == 512);
        }
        let mut leaf: Entry = memory.frames[first].entries[indices.p1_index as usize];
        let was_present: bool = leaf.is_present();
        leaf.set_present(false);
        memory.frames[first].entries[indices.p1_index as usize] = leaf;
        if was_present {
            memory.invalidated.push(virt);
        }
        proof {
            assert(memory.view().tables =~= view.tables.update(
                first as int,
                view.tables[first as int].update(indices.p1_index as int, leaf),
            ));
            assert(memory.view() =~~= view.unmap(top as int, virt));
        }
    }
}

/// The level 4 table that the processor walks: the one at the physical
/// address in the processor's table register.
pub fn get_active_table(memory: &PhysicalMemory) -> (r: &PageTable)
    requires
        memory.wf(),
    ensures
        r.entries@ == memory.view().tables[memory.view().active],
        r.wf(),
        memory.view().is_root(r.entries@),
{
    proof {
        let view = memory.view();
        assert(view.tables[view.active].len() == 512);
        assert forall|i: int| 0 <= i < 512 implies view.entry_ok(
            4,
            #[trigger] view.tables[view.active][i],
        ) by {
            assert(view.slot_ok(view.active, i));
        }
        assert(view.active * 4096 + 4096 <= view.tables.len() * 4096) by (nonlinear_arith)
            requires
                view.active < view.tables.len(),
        ;
    }
    memory.table_at(memory.cr3)
}

/// Makes the processor walk the level 4 table that the kernel reaches at the
/// virtual address `table`: the table register takes the physical address
/// that the table walked until now gives to `table`.
pub fn set_active_table(memory: &mut PhysicalMemory, table: usize)
    requires
        old(memory).wf(),
        ({
            let view = old(memory).view();
            view.walk(view.tables[view.active], table) matches Some(phys) && view.level_at(
                phys as int,
            ) == 4 && view.direct_maps(view.frame_of(phys as int))
        }),
    ensures
        final(memory).wf(),
        Some(final(memory).cr3) == old(memory).view().walk(
            old(memory).view().tables[old(memory).view().active],
            table,
        ),
        final(memory).hhdm_offset == old(memory).hhdm_offset,
        final(memory).invalidated@ == old(memory).invalidated@,
        final(memory).view().tables == old(memory).view().tables,
        final(memory).view().free == old(memory).view().free,
        final(memory).view().levels == old(memory).view().levels,
{
    let ghost view = memory.view();
    let phys: usize = match get_active_table(memory).translate(memory, table) {
        Some(phys) => phys,
        None => {
            proof {
                assert(false);
            }
            0
        },
    };
    memory.cr3 = phys;
    proof {
        let now = memory.view();
        assert(now.tables =~~= view.tables);
        assert(now.active == view.frame_of(phys as int));
        assert forall|f: int, i: int|
            0 <= f < now.tables.len() && 0 <= i < 512 implies #[trigger] now.slot_ok(f, i) by {
            assert(view.slot_ok(f, i));
        }
    }
}

/// One page takes one page.
proof fn lemma_one_page()
    ensures
        PageAllocator::pages_for(MIN_PAGE_SIZE) == 1,
{
}

/// Where no single page is free, `first_free` finds none.
proof fn lemma_none_free(free: Seq<bool>)
    requires
        forall|k: int| 0 <= k < free.len() ==> !#[trigger] run_is_free(free, k, 1),
    ensures
        first_free(free) == free.len(),
    decreases free.len(),
{
    if free.len() > 0 {
        let shorter = free.drop_last();
        assert forall|k: int| 0 <= k < shorter.len() implies !#[trigger] run_is_free(
            shorter,
            k,
            1,
        ) by {
            if run_is_free(shorter, k, 1) {
                assert(shorter[k]);
                assert(run_is_free(free, k, 1));
            }
        }
        lemma_none_free(shorter);
        if free.last() {
            assert(run_is_free(free, free.len() - 1, 1));
        }
    }
}

/// The first page from which one page is free is the first free page.
proof fn lemma_first_free_found(free: Seq<bool>, index: int)
    requires
        is_first_fit(free, index, 1),
    ensures
        first_free(free) == index,
        free[index],
    decreases free.len(),
{
    assert(free[index]);
    let shorter = free.drop_last();
    if index == free.len() - 1 {
        assert forall|k: int| 0 <= k < shorter.len() implies !#[trigger] run_is_free(
            shorter,
            k,
            1,
        ) by {
            if run_is_free(shorter, k, 1) {
                assert(shorter[k]);
                assert(run_is_free(free, k, 1));
            }
        }
        lemma_none_free(shorter);
    } else {
        assert(is_first_fit(shorter, index, 1)) by {
            assert(shorter[index]);
            assert forall|k: int| 0 <= k < index implies !#[trigger] run_is_free(
                shorter,
                k,
                1,
            ) by {
                if run_is_free(shorter, k, 1) {
                    assert(shorter[k]);
                    assert(run_is_free(free, k, 1));
                }
            }
        }
        lemma_first_free_found(shorter, index);
    }
}

/// The first free page, where there is one, is free.
pub proof fn lemma_first_free(free: Seq<bool>)
    ensures
        0 <= first_free(free) <= free.len(),
        first_free(free) < free.len() ==> free[first_free(free)],
    decreases free.len(),
{
    if free.len() > 0 {
        lemma_first_free(free.drop_last());
    }
}

/// A root keeps mapping the region's gigabyte as long as the two entries
/// that do so stay as they are.
proof fn lemma_direct_map_kept(before: MemoryView, after: MemoryView, root: int)
    requires
        before.tables_ok(),
        0 <= root < before.tables.len(),
        before.levels[root] == 4,
        before.direct_maps(root),
        after.base == before.base,
        after.hhdm == before.hhdm,
        after.tables.len() == before.tables.len(),
        ({
            let virt = (before.base + before.hhdm) as usize;
            let e4 = before.tables[root][p4_index(virt) as int];
            let third = before.frame_of(e4.frame() as int);
            &&& after.tables[root][p4_index(virt) as int] == e4
            &&& after.tables[third][p3_index(virt) as int] == before.tables[third][p3_index(
                virt,
            ) as int]
        }),
    ensures
        after.direct_maps(root),
{
}

/// The level 3 table through which a root maps the region's gigabyte.
proof fn lemma_direct_map_table(view: MemoryView, root: int) -> (third: int)
    requires
        view.tables_ok(),
        0 <= root < view.tables.len(),
        view.levels[root] == 4,
        view.direct_maps(root),
    ensures
        0 <= third < view.tables.len(),
        view.levels[third] == 3,
        third == view.frame_of(
            view.tables[root][p4_index((view.base + view.hhdm) as usize) as int].frame() as int,
        ),
        view.tables[root][p4_index((view.base + view.hhdm) as usize) as int].flag(PRESENT),
        view.tables[third][p3_index((view.base + view.hhdm) as usize) as int].flag(PRESENT),
{
    let virt = (view.base + view.hhdm) as usize;
    assert(view.slot_ok(root, p4_index(virt) as int));
    view.frame_of(view.tables[root][p4_index(virt) as int].frame() as int)
}

/// A new root that takes over the entry through which the table that the
/// processor walks maps the region's gigabyte maps it too, and the memory
/// stays in order.
proof fn lemma_share_direct_map(view: MemoryView, frame: int)
    requires
        view.wf(),
        0 <= frame < view.tables.len(),
        view.levels[frame] == 4,
        view.tables[frame] == empty_entries(),
    ensures
        ({
            let index = p4_index((view.base + view.hhdm) as usize) as int;
            let after = view.with_entry(frame, index, view.tables[view.active][index]);
            &&& after.wf()
            &&& after.direct_maps(frame)
            &&& after.levels[frame] == 4
        }),
{
    let index = p4_index((view.base + view.hhdm) as usize) as int;
    let shared = view.tables[view.active][index];
    let after = view.with_entry(frame, index, shared);
    let third = lemma_direct_map_table(view, view.active);
    assert(view.slot_ok(view.active, index));
    lemma_zero_entry();
    if frame != view.active {
        lemma_direct_map_kept(view, after, view.active);
    }
    assert forall|f: int, i: int|
        0 <= f < after.tables.len() && 0 <= i < 512 implies #[trigger] after.slot_ok(f, i) by {
        assert(view.slot_ok(f, i));
    }
}

/// Making a free page a table keeps the memory in order.
proof fn lemma_new_table_wf(view: MemoryView, frame: int, level: nat)
    requires
        view.wf(),
        0 <= frame < view.tables.len(),
        view.free[frame],
        1 <= level <= 4,
    ensures
        view.with_new_table(frame, level).wf(),
        view.with_new_table(frame, level).level_at(view.address_of(frame)) == level,
{
    let now = view.with_new_table(frame, level);
    assert(view.levels[frame] == 0);
    let third = lemma_direct_map_table(view, view.active);
    lemma_direct_map_kept(view, now, view.active);
    assert forall|f: int, i: int|
        0 <= f < now.tables.len() && 0 <= i < 512 implies #[trigger] now.slot_ok(f, i) by {
        if f == frame {
            lemma_zero_entry();
        } else {
            assert(view.slot_ok(f, i));
            let entry = view.tables[f][i];
            if view.levels[f] >= 2 && entry.flag(PRESENT) && !entry.flag(HUGE) {
                assert(view.holds(entry.frame() as int));
                assert(view.frame_of(entry.frame() as int) != frame);
            }
        }
    }
    assert(now.holds(view.address_of(frame)));
}

/// The zero entry is not present and not huge.
proof fn lemma_zero_entry()
    ensures
        !Entry(0).flag(PRESENT),
        !Entry(0).flag(HUGE),
{
    assert(0u64 & (1u64 << 0u64) == 0 && 0u64 & (1u64 << 7u64) == 0) by (bit_vector);
}

/// What a step down leaves behind: the memory is in order, the slot names
/// the next table, which is one level down, and nothing else has changed but
/// a page that held no table.
pub proof fn lemma_descend(view: MemoryView, table: int, index: int, level: nat)
    requires
        view.wf(),
        0 <= table < view.tables.len(),
        0 <= index < 512,
        2 <= level <= 4,
        view.levels[table] == level,
        view.can_descend(table, index),
    ensures
        ({
            let after = view.descend(table, index, level).0;
            let next = view.descend(table, index, level).1;
            let entry = after.tables[table][index];
            &&& after.wf()
            &&& after.base == view.base
            &&& after.tables.len() == view.tables.len()
            &&& 0 <= next < after.tables.len()
            &&& after.levels[next] == level - 1
            &&& entry.flag(PRESENT)
            &&& !entry.flag(HUGE)
            &&& after.holds(entry.frame() as int)
            &&& after.frame_of(entry.frame() as int) == next
            &&& forall|f: int|
                0 <= f < view.tables.len() && view.levels[f] >= 1 ==> #[trigger] after.levels[f]
                    == view.levels[f]
            &&& forall|f: int|
                0 <= f < view.tables.len() && view.levels[f] >= 1 && f != table
                    ==> #[trigger] after.tables[f] == view.tables[f]
            &&& forall|i: int|
                0 <= i < 512 && i != index ==> #[trigger] after.tables[table][i]
                    == view.tables[table][i]
            &&& !view.tables[table][index].flag(PRESENT) ==> first_free(view.free)
                < view.free.len() && view.free[next]
            &&& forall|root: int|
                0 <= root < view.tables.len() && view.levels[root] == 4 && view.direct_maps(root)
                    ==> #[trigger] after.direct_maps(root)
        }),
{
    let old_entry = view.tables[table][index];
    assert(view.slot_ok(table, index));
    assert(view.tables[table].len() == 512);
    if old_entry.flag(PRESENT) {
        assert(view.holds(old_entry.frame() as int));
    } else {
        let fresh = first_free(view.free);
        lemma_first_free(view.free);
        let created = view.with_new_table(fresh, (level - 1) as nat);
        lemma_new_table_wf(view, fresh, (level - 1) as nat);
        let address = view.address_of(fresh) as u64;
        assert(view.address_of(fresh) < FRAME_LIMIT) by {
            assert(fresh * 4096 + 4096 <= view.tables.len() * 4096) by (nonlinear_arith)
                requires
                    fresh < view.tables.len(),
            ;
        }
        let link = view.link_to(old_entry, fresh);
        lemma_link(view, old_entry, fresh);
        let after = created.with_entry(table, index, link);
        assert(fresh != table);
        assert(after.holds(address as int));
        assert(after.frame_of(address as int) == fresh);
        assert forall|f: int, i: int|
            0 <= f < after.tables.len() && 0 <= i < 512 implies #[trigger] after.slot_ok(
            f,
            i,
        ) by {
            assert(created.slot_ok(f, i));
        }
        assert forall|root: int|
            0 <= root < view.tables.len() && view.levels[root] == 4 && view.direct_maps(
                root,
            ) implies #[trigger] after.direct_maps(root) by {
            let third = lemma_direct_map_table(view, root);
            lemma_direct_map_kept(view, after, root);
        }
    }
}

/// The entry that names the table in page `frame` is present, not huge, and
/// holds the page's address.
proof fn lemma_link(view: MemoryView, entry: Entry, frame: int)
    requires
        view.base >= 0,
        view.base % 4096 == 0,
        0 <= frame,
        view.address_of(frame) < FRAME_LIMIT,
        !entry.flag(HUGE),
    ensures
        view.link_to(entry, frame).flag(PRESENT),
        !view.link_to(entry, frame).flag(HUGE),
        view.link_to(entry, frame).frame() == view.address_of(frame),
{
    let address = view.address_of(frame) as u64;
    let stored = entry.with_frame(address);
    let present = stored.with_flag(PRESENT, true);
    lemma_frame_after_store(entry, address, HUGE);
    lemma_flag_after_set(stored, PRESENT, true, HUGE);
    lemma_flag_after_set(stored, PRESENT, true, PRESENT);
    lemma_flag_after_set(present, WRITABLE, true, HUGE);
    lemma_flag_after_set(present, WRITABLE, true, PRESENT);
    lemma_frame_after_flag(stored, PRESENT, true);
    lemma_frame_after_flag(present, WRITABLE, true);
}

/// The huge entry for a gigabyte is present, huge, and holds the gigabyte's
/// address.
proof fn lemma_huge_entry(phys: int)
    requires
        0 <= phys < FRAME_LIMIT,
        phys % 4096 == 0,
    ensures
        MemoryView::huge_entry(phys).flag(PRESENT),
        MemoryView::huge_entry(phys).flag(HUGE),
        MemoryView::huge_entry(phys).frame() == phys,
{
    let stored = Entry(0).with_frame(phys as u64);
    let present = stored.with_flag(PRESENT, true);
    let writable = present.with_flag(WRITABLE, true);
    lemma_frame_after_store(Entry(0), phys as u64, HUGE);
    lemma_flag_after_set(stored, PRESENT, true, PRESENT);
    lemma_flag_after_set(present, WRITABLE, true, PRESENT);
    lemma_flag_after_set(writable, HUGE, true, PRESENT);
    lemma_flag_after_set(writable, HUGE, true, HUGE);
    lemma_frame_after_flag(stored, PRESENT, true);
    lemma_frame_after_flag(present, WRITABLE, true);
    lemma_frame_after_flag(writable, HUGE, true);
}

/// The memory as it starts out is in order.
proof fn lemma_initial_wf(hhdm: int, base: int, pages: int)
    requires
        base >= 0,
        hhdm >= 0,
        base % 4096 == 0,
        hhdm % (GIB as int) == 0,
        base + hhdm + pages * 4096 <= usize::MAX,
        base + pages * 4096 <= FRAME_LIMIT,
        pages >= bitmap_pages(pages as nat) + 2,
        base / (GIB as int) == (base + pages * 4096 - 1) / (GIB as int),
    ensures
        MemoryView::initial(hhdm, base, pages).wf(),
{
    let view = MemoryView::initial(hhdm, base, pages);
    let root = bitmap_pages(pages as nat) as int;
    let virt = (base + hhdm) as usize;
    let gigabyte = (base / (GIB as int)) * GIB;
    let huge = MemoryView::huge_entry(gigabyte);
    let link = view.link_to(Entry(0), root + 1);
    assert(view.address_of(root + 1) < FRAME_LIMIT) by {
        assert((root + 2) * 4096 <= pages * 4096) by (nonlinear_arith)
            requires
                root + 2 <= pages,
        ;
    }
    lemma_zero_entry();
    lemma_link(view, Entry(0), root + 1);
    lemma_huge_entry(gigabyte);
    assert(view.tables[root + 1][p3_index(virt) as int] == huge);
    assert(view.tables[root][p4_index(virt) as int] == link);
    assert(view.holds(view.address_of(root + 1)));
    assert(view.frame_of(view.address_of(root + 1)) == root + 1);
    assert forall|f: int, i: int|
        0 <= f < view.tables.len() && 0 <= i < 512 implies #[trigger] view.slot_ok(f, i) by {
        if f == root {
            if i != p4_index(virt) {
                assert(view.tables[f][i] == Entry(0));
            }
        } else if f == root + 1 {
            if i != p3_index(virt) {
                assert(view.tables[f][i] == Entry(0));
            }
        }
    }
}

/// Addresses in one gigabyte have the same place in the tables of levels 4
/// and 3.
proof fn lemma_same_gigabyte(first: usize, second: usize)
    by (bit_vector)
    requires
        first / 0x4000_0000 == second / 0x4000_0000,
    ensures
        ((first >> 12 >> 9 >> 9) % 512) == ((second >> 12 >> 9 >> 9) % 512),
        ((first >> 12 >> 9 >> 9 >> 9) % 512) == ((second >> 12 >> 9 >> 9 >> 9) % 512),
{
}

/// A huge entry of level 3 gives an address its place in the entry's
/// gigabyte.
proof fn lemma_place_in_gigabyte(
    virt: usize,
    gigabyte: usize,
    phys: usize,
    second: usize,
    first: usize,
    offset: usize,
)
    by (bit_vector)
    requires
        gigabyte % 0x4000_0000 == 0,
        phys == gigabyte + virt % 0x4000_0000,
        second == (virt >> 12 >> 9) % 512,
        first == (virt >> 12) % 512,
        offset == virt % 4096,
    ensures
        gigabyte | (second << 12 << 9) | (first << 12) | offset == phys,
{
}

/// A root that maps the region's gigabyte at the kernel's offset gives
/// every page of the region, reached at that offset, its physical address.
pub proof fn lemma_direct_map(view: MemoryView, root: int, frame: int)
    requires
        view.tables_ok(),
        view.hhdm >= 0,
        view.hhdm % (GIB as int) == 0,
        view.base + view.hhdm + view.tables.len() * 4096 <= usize::MAX,
        view.base / (GIB as int) == (view.base + view.tables.len() * 4096 - 1) / (GIB as int),
        0 <= root < view.tables.len(),
        view.levels[root] == 4,
        view.direct_maps(root),
        0 <= frame < view.tables.len(),
    ensures
        view.walk(view.tables[root], (view.address_of(frame) + view.hhdm) as usize) == Some(
            view.address_of(frame) as usize,
        ),
{
    let phys = view.address_of(frame);
    let virt = (phys + view.hhdm) as usize;
    let first = (view.base + view.hhdm) as usize;
    let gigabyte = (view.base / (GIB as int)) * GIB;
    assert(frame * 4096 + 4096 <= view.tables.len() * 4096) by (nonlinear_arith)
        requires
            frame < view.tables.len(),
    ;
    assert(phys / (GIB as int) == view.base / (GIB as int));
    let offsets = view.hhdm / (GIB as int);
    assert(view.hhdm == offsets * GIB);
    assert(virt as int / (GIB as int) == first as int / (GIB as int));
    assert(virt as int % (GIB as int) == phys % (GIB as int));
    lemma_same_gigabyte(virt, first);
    assert(p4_index(virt) == p4_index(first));
    assert(p3_index(virt) == p3_index(first));
    assert(view.slot_ok(root, p4_index(first) as int));
    let e4 = view.tables[root][p4_index(first) as int];
    let e3 = view.table_of(e4)[p3_index(first) as int];
    lemma_place_in_gigabyte(
        virt,
        gigabyte as usize,
        phys as usize,
        p2_index(virt) as usize,
        p1_index(virt) as usize,
        page_offset(virt) as usize,
    );
    assert(e3.frame() as usize == gigabyte as usize);
}

/// Where a page is free, the first free page is one, and taking it leaves one
/// free page less.
proof fn lemma_take_first_free(free: Seq<bool>)
    requires
        count_free(free) >= 1,
    ensures
        0 <= first_free(free) < free.len(),
        free[first_free(free)],
        count_free(free.update(first_free(free), false)) == count_free(free) - 1,
    decreases free.len(),
{
    lemma_first_free(free);
    if free.len() > 0 {
        let shorter = free.drop_last();
        if count_free(shorter) >= 1 {
            lemma_take_first_free(shorter);
            assert(free.update(first_free(free), false).drop_last() =~= shorter.update(
                first_free(shorter),
                false,
            ));
        } else {
            lemma_none_counted(shorter);
            assert(free.update(first_free(free), false).drop_last() =~= shorter);
        }
    }
}

/// Where no page counts as free, `first_free` finds none.
proof fn lemma_none_counted(free: Seq<bool>)
    requires
        count_free(free) == 0,
    ensures
        first_free(free) == free.len(),
    decreases free.len(),
{
    if free.len() > 0 {
        lemma_none_counted(free.drop_last());
    }
}

/// A page can be mapped wherever the walk meets no huge entry and as many
/// pages are free as tables are missing on the way.
pub proof fn lemma_can_map(view: MemoryView, root: int, virt: usize)
    requires
        view.wf(),
        0 <= root < view.tables.len(),
        view.levels[root] == 4,
        view.missing_tables(root, virt) matches Some(missing) && count_free(view.free) >= missing,
    ensures
        view.can_map(root, virt),
{
    let i4 = p4_index(virt) as int;
    let i3 = p3_index(virt) as int;
    let i2 = p2_index(virt) as int;
    lemma_zero_entry();
    assert(view.slot_ok(root, i4));
    if count_free(view.free) >= 1 {
        lemma_take_first_free(view.free);
    }
    lemma_descend(view, root, i4, 4);
    let third = view.descend(root, i4, 4);
    if !view.tables[root][i4].flag(PRESENT) {
        assert(third.0.free =~= view.free.update(first_free(view.free), false));
        assert(third.0.tables[third.1] == empty_entries());
    } else {
        assert(third.0.slot_ok(third.1, i3));
    }
    if count_free(third.0.free) >= 1 {
        lemma_take_first_free(third.0.free);
    }
    lemma_descend(third.0, third.1, i3, 3);
    let second = third.0.descend(third.1, i3, 3);
    if !third.0.tables[third.1][i3].flag(PRESENT) {
        assert(second.0.free =~= third.0.free.update(first_free(third.0.free), false));
        assert(second.0.tables[second.1] == empty_entries());
    } else {
        assert(second.0.slot_ok(second.1, i2));
    }
    if count_free(second.0.free) >= 1 {
        lemma_take_first_free(second.0.free);
    }
}

/// Writing a leaf entry keeps the memory in order.
pub proof fn lemma_leaf_write_wf(view: MemoryView, table: int, index: int, entry: Entry)
    requires
        view.wf(),
        0 <= table < view.tables.len(),
        0 <= index < 512,
        view.levels[table] == 1,
    ensures
        view.with_entry(table, index, entry).wf(),
{
    let after = view.with_entry(table, index, entry);
    assert(view.tables[table].len() == 512);
    assert forall|f: int, i: int|
        0 <= f < after.tables.len() && 0 <= i < 512 implies #[trigger] after.slot_ok(f, i) by {
        assert(view.slot_ok(f, i));
    }
    let third = lemma_direct_map_table(view, view.active);
    lemma_direct_map_kept(view, after, view.active);
}

/// A page-aligned address with no offset in its page is the frame itself.
proof fn lemma_no_offset(frame: usize)
    by (bit_vector)
    ensures
        frame | 0usize == frame,
{
}

/// After the page at `virt` has been mapped to the frame at `phys`, `virt`
/// translates to `phys`, whatever attributes the leaf entry is then given, as
/// long as it stays present and keeps its frame.
pub proof fn lemma_map_translates(
    view: MemoryView,
    root: int,
    virt: usize,
    phys: usize,
    leaf_entry: Entry,
)
    requires
        view.wf(),
        0 <= root < view.tables.len(),
        view.levels[root] == 4,
        view.can_map(root, virt),
        virt % 4096 == 0,
        leaf_entry.flag(PRESENT),
        leaf_entry.frame() == phys,
    ensures
        ({
            let leaf = view.descend_to_leaf(root, virt);
            let after = leaf.0.with_entry(leaf.1, p1_index(virt) as int, leaf_entry);
            &&& leaf.0.wf()
            &&& 0 <= leaf.1 < leaf.0.tables.len()
            &&& leaf.0.levels[leaf.1] == 1
            &&& after.wf()
            &&& after.base == view.base
            &&& after.tables.len() == view.tables.len()
            &&& after.levels[root] == 4
            &&& after.is_root(after.tables[root])
            &&& after.walk(after.tables[root], virt) == Some(phys)
        }),
{
    let i4 = p4_index(virt) as int;
    let i3 = p3_index(virt) as int;
    let i2 = p2_index(virt) as int;
    let i1 = p1_index(virt) as int;
    lemma_descend(view, root, i4, 4);
    let third = view.descend(root, i4, 4);
    lemma_descend(third.0, third.1, i3, 3);
    let second = third.0.descend(third.1, i3, 3);
    lemma_descend(second.0, second.1, i2, 2);
    let leaf = second.0.descend(second.1, i2, 2);
    lemma_leaf_write_wf(leaf.0, leaf.1, i1, leaf_entry);
    let after = leaf.0.with_entry(leaf.1, i1, leaf_entry);
    assert(third.0.levels[root] == 4);
    assert(second.0.levels[root] == 4);
    assert(leaf.0.levels[root] == 4);
    assert(second.0.levels[third.1] == 3);
    assert(leaf.0.levels[third.1] == 3);
    assert(leaf.0.levels[second.1] == 2);
    assert(second.0.tables[root] == third.0.tables[root]);
    assert(leaf.0.tables[root] == second.0.tables[root]);
    assert(leaf.0.tables[third.1] == second.0.tables[third.1]);
    assert(after.tables[root] == leaf.0.tables[root]);
    assert(after.tables[third.1] == leaf.0.tables[third.1]);
    assert(after.tables[second.1] == leaf.0.tables[second.1]);
    assert(leaf.0.tables[leaf.1].len() == 512);
    assert(after.tables[leaf.1][i1] == leaf_entry);
    assert(after.is_root(after.tables[root])) by {
        assert(after.tables[root].len() == 512);
        assert forall|i: int| 0 <= i < 512 implies after.entry_ok(
            4,
            #[trigger] after.tables[root][i],
        ) by {
            assert(after.slot_ok(root, i));
        }
    }
    lemma_no_offset(phys);
    assert(page_offset(virt) == 0);
    assert(page_address(leaf_entry, virt) == phys);
}

/// After the page at `virt` has been unmapped, `virt` translates to nothing.
pub proof fn lemma_unmap_translates(view: MemoryView, root: int, virt: usize)
    requires
        view.wf(),
        0 <= root < view.tables.len(),
        view.levels[root] == 4,
        !view.meets_huge(root, virt),
    ensures
        ({
            let after = view.unmap(root, virt);
            &&& after.wf()
            &&& after.levels[root] == 4
            &&& after.walk(after.tables[root], virt) == None::<usize>
            &&& view.leaf_table(root, virt) matches Some(table) ==> 0 <= table
                < view.tables.len() && view.levels[table] == 1
        }),
{
    let i4 = p4_index(virt) as int;
    let i3 = p3_index(virt) as int;
    let i2 = p2_index(virt) as int;
    let i1 = p1_index(virt) as int;
    assert(view.slot_ok(root, i4));
    let e4 = view.tables[root][i4];
    if e4.flag(PRESENT) {
        let t3 = view.frame_of(e4.frame() as int);
        assert(view.slot_ok(t3, i3));
        let e3 = view.tables[t3][i3];
        if e3.flag(PRESENT) {
            let t2 = view.frame_of(e3.frame() as int);
            assert(view.slot_ok(t2, i2));
            let e2 = view.tables[t2][i2];
            if e2.flag(PRESENT) {
                let t1 = view.frame_of(e2.frame() as int);
                let cleared = view.tables[t1][i1].with_flag(PRESENT, false);
                lemma_leaf_write_wf(view, t1, i1, cleared);
                lemma_flag_after_set(view.tables[t1][i1], PRESENT, false, PRESENT);
                let after = view.with_entry(t1, i1, cleared);
                assert(view.tables[t1].len() == 512);
                assert(after.tables[root] == view.tables[root]);
                assert(after.tables[t3] == view.tables[t3]);
                assert(after.tables[t2] == view.tables[t2]);
                assert(after.tables[t1][i1] == cleared);
            }
        }
    }
}

} // verus!
