//! The page allocators of all usable memory regions, tried one after the
//! other.
//!
//! The regions come from the boot loader's memory map. Those that are usable
//! and large enough each get a page allocator; the allocators stand in
//! descending order of their page counts, so that a large request meets the
//! largest region first. No two regions overlap, so an address belongs to at
//! most one allocator.

use crate::allocators::page_allocator::{
    bitmap_pages, count_free, is_first_fit, mark_run, run_is_free, PageAllocator,
};
use crate::layout::{Layout, MIN_PAGE_SIZE};
use vstd::prelude::*;

verus! {

/// The most regions that get an allocator.
pub const MAX_REGION_COUNT: usize = 128;

/// What a region of the memory map may be used for.
#[derive(Debug, Clone, Copy, PartialEq, Eq, Structural)]
pub enum RegionKind {
    Usable,
    Reserved,
    AcpiReclaimable,
    AcpiNvs,
    BadMemory,
    BootloaderReclaimable,
    KernelAndModules,
    Framebuffer,
}

/// One entry of the memory map: `length` bytes from the physical address
/// `base` on.
#[derive(Debug, Clone, Copy, PartialEq, Eq, Structural)]
pub struct MemoryRegion {
    pub base: usize,
    pub length: usize,
    pub kind: RegionKind,
}

/// `value` rounded down to a multiple of `align`.
pub fn align_down(value: usize, align: usize) -> (r: usize)
    requires
        align > 0,
    ensures
        r == value - value % align,
        r % align == 0,
        r <= value < r + align,
{
    let rest: usize = value % align;
    assert(rest <= value) by (nonlinear_arith)
        requires
            rest == value % align,
            align > 0,
    ;
    assert((value - rest) % (align as int) == 0) by (nonlinear_arith)
        requires
            rest == value % align,
            align > 0,
    ;
    value - rest
}

/// Whether the bytes of two regions do not meet.
pub open spec fn apart(first: MemoryRegion, second: MemoryRegion) -> bool {
    first.base + first.length <= second.base || second.base + second.length <= first.base
}

/// Whether no two of `regions` meet.
pub open spec fn all_apart(regions: Seq<MemoryRegion>) -> bool {
    forall|i: int, j: int|
        0 <= i < regions.len() && 0 <= j < regions.len() && i != j ==> apart(
            #[trigger] regions[i],
            #[trigger] regions[j],
        )
}

/// The number of whole pages of `region`.
pub open spec fn pages_of(region: MemoryRegion) -> int {
    region.length as int / MIN_PAGE_SIZE as int
}

/// Whether `region` gets an allocator: it is usable and keeps a free page
/// beside its bitmap.
pub open spec fn eligible(region: MemoryRegion) -> bool {
    region.kind == RegionKind::Usable && pages_of(region) > bitmap_pages(pages_of(region) as nat)
}

/// The first `MAX_REGION_COUNT` eligible regions of the memory map, in its
/// order.
pub open spec fn eligible_regions(regions: Seq<MemoryRegion>) -> Seq<MemoryRegion>
    decreases regions.len(),
{
    if regions.len() == 0 {
        Seq::empty()
    } else {
        let before = eligible_regions(regions.drop_last());
        if eligible(regions.last()) && before.len() < MAX_REGION_COUNT {
            before.push(regions.last())
        } else {
            before
        }
    }
}

/// `sorted` with `region` put behind the last region that has at least as
/// many pages.
pub open spec fn insert_by_pages(sorted: Seq<MemoryRegion>, region: MemoryRegion) -> Seq<
    MemoryRegion,
>
    decreases sorted.len(),
{
    if sorted.len() == 0 {
        seq![region]
    } else if pages_of(sorted.last()) >= pages_of(region) {
        sorted.push(region)
    } else {
        insert_by_pages(sorted.drop_last(), region).push(sorted.last())
    }
}

/// `regions` in descending order of their page counts; regions with the same
/// count keep their order.
pub open spec fn sort_by_pages(regions: Seq<MemoryRegion>) -> Seq<MemoryRegion>
    decreases regions.len(),
{
    if regions.len() == 0 {
        Seq::empty()
    } else {
        insert_by_pages(sort_by_pages(regions.drop_last()), regions.last())
    }
}

/// Whether `regions` stand in descending order of their page counts.
pub open spec fn descending(regions: Seq<MemoryRegion>) -> bool {
    forall|i: int, j: int|
        0 <= i < j < regions.len() ==> pages_of(#[trigger] regions[i]) >= pages_of(
            #[trigger] regions[j],
        )
}

/// Whether some run of `need` pages of `free` is free.
pub open spec fn has_room(free: Seq<bool>, need: int) -> bool {
    exists|start: int| 0 <= start < free.len() && #[trigger] run_is_free(free, start, need)
}

/// The index of the first allocator with a free run of `need` pages, or the
/// number of allocators where none has one.
pub open spec fn first_with_room(allocators: Seq<PageAllocator>, need: int) -> int
    decreases allocators.len(),
{
    if allocators.len() == 0 {
        0
    } else {
        let before = first_with_room(allocators.drop_last(), need);
        if before < allocators.len() - 1 {
            before
        } else if has_room(allocators.last().free_map(), need) {
            allocators.len() - 1
        } else {
            allocators.len() as int
        }
    }
}

/// The index of the first allocator whose region holds `address`, or the
/// number of allocators where none does.
pub open spec fn owner_of(allocators: Seq<PageAllocator>, address: usize) -> int
    decreases allocators.len(),
{
    if allocators.len() == 0 {
        0
    } else {
        let before = owner_of(allocators.drop_last(), address);
        if before < allocators.len() - 1 {
            before
        } else if allocators.last().spec_contains(address) {
            allocators.len() - 1
        } else {
            allocators.len() as int
        }
    }
}

/// The free bytes of all allocators together.
pub open spec fn total_free(allocators: Seq<PageAllocator>) -> nat
    decreases allocators.len(),
{
    if allocators.len() == 0 {
        0
    } else {
        total_free(allocators.drop_last()) + count_free(allocators.last().free_map()) * (
        MIN_PAGE_SIZE as nat)
    }
}

/// Whether the regions of two allocators do not meet.
pub open spec fn regions_apart(first: PageAllocator, second: PageAllocator) -> bool {
    first.region_start + first.page_count * MIN_PAGE_SIZE <= second.region_start
        || second.region_start + second.page_count * MIN_PAGE_SIZE <= first.region_start
}

/// At most `MAX_REGION_COUNT` allocators, each in order and with a page to
/// give, in descending order of page counts, over regions of which no two
/// meet.
pub open spec fn chain_ok(allocators: Seq<PageAllocator>) -> bool {
    &&& allocators.len() <= MAX_REGION_COUNT
    &&& forall|i: int|
        0 <= i < allocators.len() ==> (#[trigger] allocators[i]).wf() && allocators[i].page_count
            >= 1
    &&& forall|i: int, j: int|
        0 <= i < j < allocators.len() ==> (#[trigger] allocators[i]).page_count >= (
        #[trigger] allocators[j]).page_count
    &&& forall|i: int, j: int|
        0 <= i < allocators.len() && 0 <= j < allocators.len() && i != j ==> regions_apart(
            #[trigger] allocators[i],
            #[trigger] allocators[j],
        )
}

/// Whether every allocator of `now` but `index` is in the state it has in
/// `before`, and that one still has its region.
pub open spec fn same_but(now: Seq<PageAllocator>, before: Seq<PageAllocator>, index: int) -> bool {
    &&& now.len() == before.len()
    &&& forall|i: int|
        0 <= i < now.len() ==> (#[trigger] now[i]).region_start == before[i].region_start
            && now[i].page_count == before[i].page_count && (i != index ==> now[i].free_map()
            == before[i].free_map())
}

/// The index of the page of `allocator` that starts at `address`.
pub open spec fn page_index(allocator: PageAllocator, address: usize) -> int {
    (address - allocator.region_start) / (MIN_PAGE_SIZE as int)
}

/// What a reallocation came to.
#[derive(Debug, Clone, Copy, PartialEq, Eq, Structural)]
pub enum Reallocation {
    /// The block was resized where it lies.
    InPlace { address: usize },
    /// A new block was taken and the old one given back: `length` bytes are
    /// to be copied from `from` to `to`.
    Moved { from: usize, to: usize, length: usize },
    /// No allocator holds the block, or no new block could be had; nothing
    /// has changed.
    Failed,
}

/// Whether the block of `old_need` pages at page `index` can hold `new_need`
/// pages where it lies.
pub open spec fn can_resize(free: Seq<bool>, index: int, old_need: int, new_need: int) -> bool {
    new_need <= old_need || run_is_free(free, index + old_need, new_need - old_need)
}

/// The free pages after a block has been resized where it lies.
pub open spec fn resized(free: Seq<bool>, index: int, old_need: int, new_need: int) -> Seq<bool> {
    if new_need <= old_need {
        mark_run(free, index + new_need, index + old_need, true)
    } else {
        mark_run(free, index + old_need, index + new_need, false)
    }
}

/// The allocators of the regions, largest region first.
pub struct ChainedPageAllocators {
    pub allocators: Vec<PageAllocator>,
}

impl ChainedPageAllocators {
    /// The chain is in order: see `chain_ok`.
    pub open spec fn wf(&self) -> bool {
        chain_ok(self.allocators@)
    }

    /// The allocators of the eligible regions of the memory map `regions`,
    /// each reached at `base + hhdm_offset`, in descending order of their
    /// page counts, each with all pages free but those of its bitmap.
    pub fn new(regions: &Vec<MemoryRegion>, hhdm_offset: usize) -> (r: ChainedPageAllocators)
        requires
            all_apart(eligible_regions(regions@)),
            forall|i: int|
                0 <= i < regions@.len() && eligible(#[trigger] regions@[i]) ==> regions@[i].base
                    + regions@[i].length + hhdm_offset <= usize::MAX,
        ensures
            r.wf(),
            r.allocators@.len() == eligible_regions(regions@).len(),
            forall|i: int|
                0 <= i < r.allocators@.len() ==> {
                    let region = sort_by_pages(eligible_regions(regions@))[i];
                    let allocator = #[trigger] r.allocators@[i];
                    &&& allocator.region_start == region.base + hhdm_offset
                    &&& allocator.page_count == pages_of(region)
                    &&& allocator.free_map() == Seq::new(
                        allocator.page_count as nat,
                        |p: int| p >= bitmap_pages(allocator.page_count as nat),
                    )
                },
    {
        let sorted: Vec<MemoryRegion> = Self::choose_regions(regions);
        let ghost chosen = eligible_regions(regions@);
        proof {
            lemma_eligible_regions(regions@);
            assert forall|j: int| 0 <= j < chosen.len() implies eligible(#[trigger] chosen[j]) by {
                assert(comes_from(chosen, regions@, j));
            }
            lemma_sort_by_pages(chosen);
        }
        let mut allocators: Vec<PageAllocator> = Vec::new();
        let mut k: usize = 0;
        while k < sorted.len()
            invariant
                k <= sorted@.len(),
                sorted@ == sort_by_pages(chosen),
                allocators@.len() == k,
                forall|j: int| 0 <= j < sorted@.len() ==> #[trigger] comes_from(sorted@, chosen, j),
                forall|j: int| 0 <= j < chosen.len() ==> #[trigger] comes_from(chosen, regions@, j),
                forall|j: int|
                    0 <= j < regions@.len() && eligible(#[trigger] regions@[j])
                        ==> regions@[j].base + regions@[j].length + hhdm_offset <= usize::MAX,
                forall|j: int|
                    0 <= j < k ==> {
                        let region = sorted@[j];
                        let allocator = #[trigger] allocators@[j];
                        &&& allocator.wf()
                        &&& allocator.page_count >= 1
                        &&& allocator.region_start == region.base + hhdm_offset
                        &&& allocator.page_count == pages_of(region)
                        &&& allocator.free_map() == Seq::new(
                            allocator.page_count as nat,
                            |p: int| p >= bitmap_pages(allocator.page_count as nat),
                        )
                    },
            decreases sorted@.len() - k,
        {
            let region: MemoryRegion = sorted[k];
            proof {
                assert(comes_from(sorted@, chosen, k as int));
                let c = choose|c: int|
                    0 <= c < chosen.len() && eligible(#[trigger] chosen[c]) && chosen[c]
                        == sorted@[k as int];
                assert(comes_from(chosen, regions@, c));
            }
            allocators.push(PageAllocator::new(region.base + hhdm_offset, region.length));
            k += 1;
        }
        proof {
            assert forall|a: int, b: int|
                0 <= a < allocators@.len() && 0 <= b < allocators@.len() && a
                    != b implies regions_apart(
                #[trigger] allocators@[a],
                #[trigger] allocators@[b],
            ) by {
                assert(apart(sorted@[a], sorted@[b]));
            }
            assert forall|a: int, b: int| 0 <= a < b < allocators@.len() implies (
            #[trigger] allocators@[a]).page_count >= (#[trigger] allocators@[b]).page_count by {
                assert(pages_of(sorted@[a]) >= pages_of(sorted@[b]));
            }
        }
        ChainedPageAllocators { allocators }
    }

    /// The first `MAX_REGION_COUNT` eligible regions, in descending order of
    /// their page counts.
    fn choose_regions(regions: &Vec<MemoryRegion>) -> (sorted: Vec<MemoryRegion>)
        ensures
            sorted@ == sort_by_pages(eligible_regions(regions@)),
    {
        let mut sorted: Vec<MemoryRegion> = Vec::new();
        let mut i: usize = 0;
        while i < regions.len()
            invariant
                i <= regions@.len(),
                sorted@ == sort_by_pages(eligible_regions(regions@.take(i as int))),
                sorted@.len() == eligible_regions(regions@.take(i as int)).len(),
            decreases regions@.len() - i,
        {
            let region: MemoryRegion = regions[i];
            proof {
                assert(regions@.take(i + 1).drop_last() =~= regions@.take(i as int));
            }
            if Self::is_usable(&region) && PageAllocator::can_be_used(region.length) && sorted.len()
                < MAX_REGION_COUNT {
                Self::insert_sorted(&mut sorted, region);
                proof {
                    let now = eligible_regions(regions@.take(i + 1));
                    assert(now.drop_last() =~= eligible_regions(regions@.take(i as int)));
                    lemma_sort_by_pages(now);
                }
            }
            i += 1;
        }
        proof {
            assert(regions@.take(i as int) =~= regions@);
        }
        sorted
    }

    /// Whether the region may be handed to an allocator.
    fn is_usable(region: &MemoryRegion) -> (r: bool)
        ensures
            r == (region.kind == RegionKind::Usable),
    {
        match region.kind {
            RegionKind::Usable => true,
            _ => false,
        }
    }

    /// Puts `region` into `sorted` behind the last region with at least as
    /// many pages.
    fn insert_sorted(sorted: &mut Vec<MemoryRegion>, region: MemoryRegion)
        ensures
            final(sorted)@ == insert_by_pages(old(sorted)@, region),
    {
        let mut position: usize = sorted.len();
        while position > 0 && sorted[position - 1].length / MIN_PAGE_SIZE < region.length
            / MIN_PAGE_SIZE
            invariant
                position <= sorted@.len(),
                *sorted == *old(sorted),
                forall|j: int|
                    position <= j < sorted@.len() ==> pages_of(#[trigger] sorted@[j]) < pages_of(
                        region,
                    ),
            decreases position,
        {
            position -= 1;
        }
        proof {
            lemma_insert_position(sorted@, region, position as int);
        }
        sorted.insert(position, region);
    }

    /// The free bytes of all regions together.
    pub fn calculate_free_space(&self) -> (r: usize)
        requires
            self.wf(),
        ensures
            r == total_free(self.allocators@),
    {
        let mut amount: usize = 0;
        let mut i: usize = 0;
        proof {
            lemma_total_free_fits(self.allocators@);
        }
        while i < self.allocators.len()
            invariant
                self.wf(),
                i <= self.allocators@.len(),
                amount == total_free(self.allocators@.take(i as int)),
                total_free(self.allocators@) <= usize::MAX,
            decreases self.allocators@.len() - i,
        {
            proof {
                assert(self.allocators@.take(i + 1).drop_last() =~= self.allocators@.take(
                    i as int,
                ));
                lemma_total_free_prefix(self.allocators@, i + 1);
            }
            amount += self.allocators[i].calculate_free_space();
            i += 1;
        }
        proof {
            assert(self.allocators@.take(i as int) =~= self.allocators@);
        }
        amount
    }

    /// Takes a block for `layout` from the first allocator that has room for
    /// it, at that allocator's first fit; `None` where none has room.
    pub fn allocate(&mut self, layout: Layout) -> (r: Option<usize>)
        requires
            old(self).wf(),
        ensures
            final(self).wf(),
            ({
                let need = PageAllocator::pages_for(layout.size) as int;
                let chosen = first_with_room(old(self).allocators@, need);
                &&& same_but(final(self).allocators@, old(self).allocators@, chosen)
                &&& if chosen < old(self).allocators@.len() {
                    let before = old(self).allocators@[chosen];
                    &&& r.is_some()
                    &&& before.is_page_start(r.unwrap())
                    &&& is_first_fit(before.free_map(), page_index(before, r.unwrap()), need)
                    &&& final(self).allocators@[chosen].free_map() == mark_run(
                        before.free_map(),
                        page_index(before, r.unwrap()),
                        page_index(before, r.unwrap()) + need,
                        false,
                    )
                } else {
                    r.is_none()
                }
            }),
    {
        let ghost need = PageAllocator::pages_for(layout.size) as int;
        let mut i: usize = 0;
        while i < self.allocators.len()
            invariant
                self.wf(),
                same_but(self.allocators@, old(self).allocators@, -1),
                i <= self.allocators@.len(),
                need == PageAllocator::pages_for(layout.size),
                first_with_room(old(self).allocators@.take(i as int), need) == i,
            decreases self.allocators@.len() - i,
        {
            let ghost before = self.allocators@;
            proof {
                assert(old(self).allocators@.take(i + 1).drop_last() =~= old(
                    self,
                ).allocators@.take(i as int));
                assert(before[i as int].free_map() == old(self).allocators@[i as int].free_map());
            }
            let result: Option<usize> = self.allocators[i].allocate(layout);
            proof {
                let now = self.allocators@;
                assert(now =~= before.update(i as int, now[i as int]));
                lemma_one_changed(before, now, i as int);
            }
            match result {
                Some(address) => {
                    proof {
                        let index = page_index(before[i as int], address);
                        assert(run_is_free(old(self).allocators@[i as int].free_map(), index, need));
                        lemma_first_with_room_found(old(self).allocators@, i as int, need);
                        assert((index * MIN_PAGE_SIZE) % (MIN_PAGE_SIZE as int) == 0)
                            by (nonlinear_arith);
                    }
                    return Some(address);
                },
                None => {},
            }
            i += 1;
        }
        proof {
            assert(old(self).allocators@.take(i as int) =~= old(self).allocators@);
        }
        None
    }

    /// The index of the first allocator whose region holds `address`.
    fn find_owner(&self, address: usize) -> (r: usize)
        requires
            self.wf(),
        ensures
            r == owner_of(self.allocators@, address),
            r <= self.allocators@.len(),
    {
        let mut i: usize = 0;
        while i < self.allocators.len()
            invariant
                self.wf(),
                i <= self.allocators@.len(),
                owner_of(self.allocators@.take(i as int), address) == i,
            decreases self.allocators@.len() - i,
        {
            proof {
                assert(self.allocators@.take(i + 1).drop_last() =~= self.allocators@.take(
                    i as int,
                ));
            }
            if self.allocators[i].contains(address) {
                proof {
                    lemma_owner_found(self.allocators@, i as int, address);
                }
                return i;
            }
            i += 1;
        }
        proof {
            assert(self.allocators@.take(i as int) =~= self.allocators@);
        }
        i
    }

    /// Gives the block of `layout` at `address` back to the allocator whose
    /// region holds it. Where no region holds it, nothing changes.
    pub fn dealloc(&mut self, address: usize, layout: Layout)
        requires
            old(self).wf(),
            ({
                let owner = owner_of(old(self).allocators@, address);
                owner < old(self).allocators@.len() ==> old(self).allocators@[owner].owns_run(
                    address,
                    PageAllocator::pages_for(layout.size),
                )
            }),
        ensures
            final(self).wf(),
            ({
                let owner = owner_of(old(self).allocators@, address);
                &&& same_but(final(self).allocators@, old(self).allocators@, owner)
                &&& owner < old(self).allocators@.len() ==> {
                    let before = old(self).allocators@[owner];
                    let index = page_index(before, address);
                    final(self).allocators@[owner].free_map() == mark_run(
                        before.free_map(),
                        index,
                        index + PageAllocator::pages_for(layout.size),
                        true,
                    )
                }
            }),
    {
        let owner: usize = self.find_owner(address);
        if owner < self.allocators.len() {
            let ghost before = self.allocators@;
            self.allocators[owner].dealloc(address, layout);
            proof {
                assert(self.allocators@ =~= before.update(
                    owner as int,
                    self.allocators@[owner as int],
                ));
                lemma_one_changed(before, self.allocators@, owner as int);
            }
        }
    }

    /// Makes the block of `layout` at `address` hold `new_size` bytes. Its
    /// allocator resizes it where it lies if it can. Else a new block is
    /// taken as `allocate` takes one, and the old block is given back; the
    /// result then says which bytes are to be copied. Where no region holds
    /// `address`, or no new block can be had, nothing changes.
    pub fn realloc(&mut self, address: usize, layout: Layout, new_size: usize) -> (r:
        Reallocation)
        requires
            old(self).wf(),
            ({
                let owner = owner_of(old(self).allocators@, address);
                owner < old(self).allocators@.len() ==> old(self).allocators@[owner].owns_run(
                    address,
                    PageAllocator::pages_for(layout.size),
                )
            }),
        ensures
            final(self).wf(),
            ({
                let before = old(self).allocators@;
                let now = final(self).allocators@;
                let owner = owner_of(before, address);
                let old_need = PageAllocator::pages_for(layout.size) as int;
                let new_need = PageAllocator::pages_for(new_size) as int;
                let chosen = first_with_room(before, new_need);
                if owner == before.len() {
                    r == Reallocation::Failed && same_but(now, before, -1)
                } else if can_resize(
                    before[owner].free_map(),
                    page_index(before[owner], address),
                    old_need,
                    new_need,
                ) {
                    &&& r == (Reallocation::InPlace { address })
                    &&& same_but(now, before, owner)
                    &&& now[owner].free_map() == resized(
                        before[owner].free_map(),
                        page_index(before[owner], address),
                        old_need,
                        new_need,
                    )
                } else if chosen == before.len() {
                    r == Reallocation::Failed && same_but(now, before, -1)
                } else {
                    &&& r matches Reallocation::Moved { from, to, length }
                    &&& r->from == address
                    &&& r->length == (if layout.size < new_size {
                        layout.size
                    } else {
                        new_size
                    })
                    &&& before[chosen].is_page_start(r->to)
                    &&& is_first_fit(
                        before[chosen].free_map(),
                        page_index(before[chosen], r->to),
                        new_need,
                    )
                    &&& now.len() == before.len()
                    &&& forall|i: int|
                        0 <= i < now.len() ==> (#[trigger] now[i]).region_start
                            == before[i].region_start && now[i].page_count == before[i].page_count
                            && now[i].free_map() == {
                            let taken = if i == chosen {
                                mark_run(
                                    before[i].free_map(),
                                    page_index(before[chosen], r->to),
                                    page_index(before[chosen], r->to) + new_need,
                                    false,
                                )
                            } else {
                                before[i].free_map()
                            };
                            if i == owner {
                                mark_run(
                                    taken,
                                    page_index(before[owner], address),
                                    page_index(before[owner], address) + old_need,
                                    true,
                                )
                            } else {
                                taken
                            }
                        }
                }
            }),
    {
        let owner: usize = self.find_owner(address);
        proof {
            lemma_first_with_room_bounds(
                self.allocators@,
                PageAllocator::pages_for(new_size) as int,
            );
        }
        if owner >= self.allocators.len() {
            return Reallocation::Failed;
        }
        let ghost before = self.allocators@;
        let resized_in_place: bool = self.allocators[owner].resize(address, layout, new_size);
        proof {
            assert(self.allocators@ =~= before.update(
                owner as int,
                self.allocators@[owner as int],
            ));
            lemma_one_changed(before, self.allocators@, owner as int);
        }
        if resized_in_place {
            return Reallocation::InPlace { address };
        }
        let new_layout = Layout { size: new_size, align: layout.align };
        let ghost unresized = self.allocators@;
        proof {
            lemma_same_room(unresized, before, PageAllocator::pages_for(new_size) as int);
        }
        match self.allocate(new_layout) {
            None => Reallocation::Failed,
            Some(to) => {
                let ghost taken = self.allocators@;
                self.allocators[owner].dealloc(address, layout);
                proof {
                    assert(self.allocators@ =~= taken.update(
                        owner as int,
                        self.allocators@[owner as int],
                    ));
                    lemma_one_changed(taken, self.allocators@, owner as int);
                }
                Reallocation::Moved {
                    from: address,
                    to,
                    length: if layout.size < new_size {
                        layout.size
                    } else {
                        new_size
                    },
                }
            },
        }
    }
}

/// Whether element `index` of `derived` is an eligible element of `source`.
pub open spec fn comes_from(derived: Seq<MemoryRegion>, source: Seq<MemoryRegion>, index: int)
    -> bool {
    exists|c: int|
        0 <= c < source.len() && eligible(#[trigger] source[c]) && source[c] == derived[index]
}

/// An address belongs to at most one allocator of the chain.
pub proof fn lemma_partition(chain: ChainedPageAllocators, address: usize, i: int, j: int)
    requires
        chain.wf(),
        0 <= i < chain.allocators@.len(),
        0 <= j < chain.allocators@.len(),
        chain.allocators@[i].spec_contains(address),
        chain.allocators@[j].spec_contains(address),
    ensures
        i == j,
{
    if i != j {
        assert(regions_apart(chain.allocators@[i], chain.allocators@[j]));
    }
}

/// Changing one allocator's free pages keeps the chain in order.
proof fn lemma_one_changed(before: Seq<PageAllocator>, now: Seq<PageAllocator>, index: int)
    requires
        chain_ok(before),
        0 <= index < before.len(),
        now == before.update(index, now[index]),
        now[index].wf(),
        now[index].region_start == before[index].region_start,
        now[index].page_count == before[index].page_count,
    ensures
        chain_ok(now),
        same_but(now, before, index),
        now[index].free_map() == before[index].free_map() ==> same_but(now, before, -1),
{
    assert forall|a: int, b: int|
        0 <= a < now.len() && 0 <= b < now.len() && a != b implies regions_apart(
        #[trigger] now[a],
        #[trigger] now[b],
    ) by {
        assert(regions_apart(before[a], before[b]));
    }
    assert forall|a: int, b: int| 0 <= a < b < now.len() implies (#[trigger] now[a]).page_count
        >= (#[trigger] now[b]).page_count by {
        assert(before[a].page_count >= before[b].page_count);
    }
    assert forall|a: int| 0 <= a < now.len() implies (#[trigger] now[a]).wf() && now[a].page_count
        >= 1 by {
        assert(before[a].wf());
    }
}

/// `first_with_room` names an allocator or the number of allocators.
proof fn lemma_first_with_room_bounds(allocators: Seq<PageAllocator>, need: int)
    ensures
        0 <= first_with_room(allocators, need) <= allocators.len(),
    decreases allocators.len(),
{
    if allocators.len() > 0 {
        lemma_first_with_room_bounds(allocators.drop_last(), need);
    }
}

/// Allocators in the same states have room in the same place.
proof fn lemma_same_room(now: Seq<PageAllocator>, before: Seq<PageAllocator>, need: int)
    requires
        same_but(now, before, -1),
    ensures
        first_with_room(now, need) == first_with_room(before, need),
    decreases now.len(),
{
    if now.len() > 0 {
        assert(now.last().free_map() == before.last().free_map());
        assert forall|i: int| 0 <= i < now.drop_last().len() implies (
        #[trigger] now.drop_last()[i]).region_start == before.drop_last()[i].region_start
            && now.drop_last()[i].page_count == before.drop_last()[i].page_count
            && now.drop_last()[i].free_map() == before.drop_last()[i].free_map() by {
            assert(now[i].free_map() == before[i].free_map());
        }
        lemma_same_room(now.drop_last(), before.drop_last(), need);
    }
}

/// The first allocator with room is the one that `first_with_room` names.
proof fn lemma_first_with_room_found(allocators: Seq<PageAllocator>, index: int, need: int)
    requires
        0 <= index < allocators.len(),
        first_with_room(allocators.take(index), need) == index,
        has_room(allocators[index].free_map(), need),
    ensures
        first_with_room(allocators, need) == index,
    decreases allocators.len(),
{
    if index == allocators.len() - 1 {
        assert(allocators.drop_last() =~= allocators.take(index));
    } else {
        assert(allocators.drop_last().take(index) =~= allocators.take(index));
        lemma_first_with_room_found(allocators.drop_last(), index, need);
    }
}

/// The first allocator that holds an address is the one that `owner_of`
/// names.
proof fn lemma_owner_found(allocators: Seq<PageAllocator>, index: int, address: usize)
    requires
        0 <= index < allocators.len(),
        owner_of(allocators.take(index), address) == index,
        allocators[index].spec_contains(address),
    ensures
        owner_of(allocators, address) == index,
    decreases allocators.len(),
{
    if index == allocators.len() - 1 {
        assert(allocators.drop_last() =~= allocators.take(index));
    } else {
        assert(allocators.drop_last().take(index) =~= allocators.take(index));
        lemma_owner_found(allocators.drop_last(), index, address);
    }
}

/// Every chosen region is an eligible region of the memory map, and there
/// are at most `MAX_REGION_COUNT` of them.
proof fn lemma_eligible_regions(regions: Seq<MemoryRegion>)
    ensures
        eligible_regions(regions).len() <= MAX_REGION_COUNT,
        forall|j: int|
            0 <= j < eligible_regions(regions).len() ==> #[trigger] comes_from(
                eligible_regions(regions),
                regions,
                j,
            ),
    decreases regions.len(),
{
    if regions.len() > 0 {
        let shorter = regions.drop_last();
        lemma_eligible_regions(shorter);
        let before = eligible_regions(shorter);
        let now = eligible_regions(regions);
        assert forall|j: int| 0 <= j < now.len() implies #[trigger] comes_from(
            now,
            regions,
            j,
        ) by {
            if j < before.len() {
                assert(comes_from(before, shorter, j));
                let c = choose|c: int|
                    0 <= c < shorter.len() && eligible(#[trigger] shorter[c]) && shorter[c]
                        == before[j];
                assert(regions[c] == shorter[c]);
            } else {
                assert(regions[regions.len() - 1] == now[j]);
            }
        }
    }
}

/// Where `position` is behind every region with at least as many pages and
/// before every region with fewer, `insert_by_pages` puts the region there.
proof fn lemma_insert_position(sorted: Seq<MemoryRegion>, region: MemoryRegion, position: int)
    requires
        0 <= position <= sorted.len(),
        forall|j: int|
            position <= j < sorted.len() ==> pages_of(#[trigger] sorted[j]) < pages_of(region),
        position > 0 ==> pages_of(sorted[position - 1]) >= pages_of(region),
    ensures
        insert_by_pages(sorted, region) == sorted.insert(position, region),
    decreases sorted.len(),
{
    if sorted.len() == 0 {
        assert(sorted.insert(position, region) =~= seq![region]);
    } else if position == sorted.len() {
        assert(sorted.insert(position, region) =~= sorted.push(region));
    } else {
        assert(pages_of(sorted[sorted.len() - 1]) < pages_of(region));
        lemma_insert_position(sorted.drop_last(), region, position);
        assert(sorted.drop_last().insert(position, region).push(sorted.last())
            =~= sorted.insert(position, region));
    }
}

/// What `insert_by_pages` keeps: the order, where the regions came from, and
/// that no two meet.
proof fn lemma_insert_by_pages(sorted: Seq<MemoryRegion>, region: MemoryRegion)
    ensures
        insert_by_pages(sorted, region).len() == sorted.len() + 1,
        descending(sorted) ==> descending(insert_by_pages(sorted, region)),
        forall|j: int|
            0 <= j < sorted.len() + 1 ==> (#[trigger] insert_by_pages(sorted, region)[j]) == region
                || exists|c: int|
                0 <= c < sorted.len() && #[trigger] sorted[c] == insert_by_pages(sorted, region)[j],
    decreases sorted.len(),
{
    let now = insert_by_pages(sorted, region);
    if sorted.len() == 0 {
    } else if pages_of(sorted.last()) >= pages_of(region) {
        assert forall|j: int| 0 <= j < sorted.len() + 1 implies (#[trigger] now[j]) == region
            || exists|c: int| 0 <= c < sorted.len() && #[trigger] sorted[c] == now[j] by {
            if j < sorted.len() {
                assert(sorted[j] == now[j]);
            }
        }
        if descending(sorted) {
            assert forall|i: int, j: int| 0 <= i < j < now.len() implies pages_of(
                #[trigger] now[i],
            ) >= pages_of(#[trigger] now[j]) by {
                if j < sorted.len() {
                    assert(pages_of(sorted[i]) >= pages_of(sorted[j]));
                } else if i < sorted.len() - 1 {
                    assert(pages_of(sorted[i]) >= pages_of(sorted[sorted.len() - 1]));
                }
            }
        }
    } else {
        let shorter = sorted.drop_last();
        lemma_insert_by_pages(shorter, region);
        let inner = insert_by_pages(shorter, region);
        assert forall|j: int| 0 <= j < sorted.len() + 1 implies (#[trigger] now[j]) == region
            || exists|c: int| 0 <= c < sorted.len() && #[trigger] sorted[c] == now[j] by {
            if j < inner.len() {
                assert(now[j] == inner[j]);
                if inner[j] != region {
                    let c = choose|c: int|
                        0 <= c < shorter.len() && #[trigger] shorter[c] == inner[j];
                    assert(sorted[c] == now[j]);
                }
            } else {
                assert(sorted[sorted.len() - 1] == now[j]);
            }
        }
        if descending(sorted) {
            assert(descending(shorter)) by {
                assert forall|i: int, j: int| 0 <= i < j < shorter.len() implies pages_of(
                    #[trigger] shorter[i],
                ) >= pages_of(#[trigger] shorter[j]) by {
                    assert(pages_of(sorted[i]) >= pages_of(sorted[j]));
                }
            }
            assert forall|i: int, j: int| 0 <= i < j < now.len() implies pages_of(
                #[trigger] now[i],
            ) >= pages_of(#[trigger] now[j]) by {
                if j < inner.len() {
                    assert(pages_of(inner[i]) >= pages_of(inner[j]));
                } else {
                    assert(now[i] == inner[i]);
                    if inner[i] != region {
                        let c = choose|c: int|
                            0 <= c < shorter.len() && #[trigger] shorter[c] == inner[i];
                        if c < sorted.len() - 1 {
                            assert(pages_of(sorted[c]) >= pages_of(sorted[sorted.len() - 1]));
                        }
                    }
                }
            }
        }
    }
}

/// What sorting keeps: the number of regions, that each is an eligible
/// region of the input, and that no two meet; and the result is in
/// descending order.
proof fn lemma_sort_by_pages(regions: Seq<MemoryRegion>)
    ensures
        sort_by_pages(regions).len() == regions.len(),
        descending(sort_by_pages(regions)),
        forall|j: int|
            0 <= j < regions.len() ==> exists|c: int|
                0 <= c < regions.len() && #[trigger] regions[c] == (#[trigger] sort_by_pages(
                    regions,
                )[j]),
        (forall|j: int| 0 <= j < regions.len() ==> eligible(#[trigger] regions[j])) ==> forall|
            j: int,
        |
            0 <= j < regions.len() ==> #[trigger] comes_from(sort_by_pages(regions), regions, j),
        all_apart(regions) ==> all_apart(sort_by_pages(regions)),
    decreases regions.len(),
{
    let now = sort_by_pages(regions);
    if regions.len() > 0 {
        let shorter = regions.drop_last();
        let inner = sort_by_pages(shorter);
        lemma_sort_by_pages(shorter);
        lemma_insert_by_pages(inner, regions.last());
        assert forall|j: int| 0 <= j < regions.len() implies exists|c: int|
            0 <= c < regions.len() && #[trigger] regions[c] == (#[trigger] now[j]) by {
            if now[j] == regions.last() {
                assert(regions[regions.len() - 1] == now[j]);
            } else {
                let k = choose|k: int| 0 <= k < inner.len() && #[trigger] inner[k] == now[j];
                let c = choose|c: int| 0 <= c < shorter.len() && #[trigger] shorter[c] == inner[k];
                assert(regions[c] == now[j]);
            }
        }
        if forall|j: int| 0 <= j < regions.len() ==> eligible(#[trigger] regions[j]) {
            assert forall|j: int| 0 <= j < regions.len() implies #[trigger] comes_from(
                now,
                regions,
                j,
            ) by {
                let c = choose|c: int| 0 <= c < regions.len() && #[trigger] regions[c] == now[j];
                assert(eligible(regions[c]));
            }
        }
        if all_apart(regions) {
            assert(all_apart(shorter)) by {
                assert forall|i: int, j: int|
                    0 <= i < shorter.len() && 0 <= j < shorter.len() && i != j implies apart(
                    #[trigger] shorter[i],
                    #[trigger] shorter[j],
                ) by {
                    assert(apart(regions[i], regions[j]));
                }
            }
            lemma_insert_apart(inner, shorter, regions);
        }
    }
}

/// Putting the last region of `regions` into the sorted others leaves no two
/// that meet.
proof fn lemma_insert_apart(
    inner: Seq<MemoryRegion>,
    shorter: Seq<MemoryRegion>,
    regions: Seq<MemoryRegion>,
)
    requires
        regions.len() > 0,
        shorter == regions.drop_last(),
        all_apart(regions),
        all_apart(inner),
        forall|j: int|
            0 <= j < inner.len() ==> exists|c: int|
                0 <= c < shorter.len() && #[trigger] shorter[c] == (#[trigger] inner[j]),
    ensures
        all_apart(insert_by_pages(inner, regions.last())),
    decreases inner.len(),
{
    let region = regions.last();
    let now = insert_by_pages(inner, region);
    assert forall|j: int| 0 <= j < inner.len() implies apart(#[trigger] inner[j], region)
        && apart(region, inner[j]) by {
        let c = choose|c: int| 0 <= c < shorter.len() && #[trigger] shorter[c] == inner[j];
        assert(apart(regions[c], regions[regions.len() - 1]));
    }
    if inner.len() == 0 {
    } else if pages_of(inner.last()) >= pages_of(region) {
        assert forall|i: int, j: int|
            0 <= i < now.len() && 0 <= j < now.len() && i != j implies apart(
            #[trigger] now[i],
            #[trigger] now[j],
        ) by {
            if i < inner.len() && j < inner.len() {
                assert(apart(inner[i], inner[j]));
            } else if i < inner.len() {
                assert(apart(inner[i], region));
            } else {
                assert(apart(inner[j], region));
            }
        }
    } else {
        let less = inner.drop_last();
        assert(all_apart(less)) by {
            assert forall|i: int, j: int|
                0 <= i < less.len() && 0 <= j < less.len() && i != j implies apart(
                #[trigger] less[i],
                #[trigger] less[j],
            ) by {
                assert(apart(inner[i], inner[j]));
            }
        }
        assert forall|j: int| 0 <= j < less.len() implies exists|c: int|
            0 <= c < shorter.len() && #[trigger] shorter[c] == (#[trigger] less[j]) by {
            assert(less[j] == inner[j]);
            let c = choose|c: int| 0 <= c < shorter.len() && #[trigger] shorter[c] == inner[j];
            assert(shorter[c] == less[j]);
        }
        lemma_insert_apart(less, shorter, regions);
        lemma_insert_by_pages(less, region);
        let placed = insert_by_pages(less, region);
        assert forall|i: int, j: int|
            0 <= i < now.len() && 0 <= j < now.len() && i != j implies apart(
            #[trigger] now[i],
            #[trigger] now[j],
        ) by {
            if i < placed.len() && j < placed.len() {
                assert(apart(placed[i], placed[j]));
            } else {
                let other = if i < placed.len() {
                    i
                } else {
                    j
                };
                assert(now[other] == placed[other]);
                if placed[other] == region {
                    assert(apart(inner[inner.len() - 1], region));
                } else {
                    let c = choose|c: int| 0 <= c < less.len() && #[trigger] less[c] == placed[other];
                    assert(apart(inner[c], inner[inner.len() - 1]));
                }
            }
        }
    }
}

/// The span of all allocators' regions together.
pub open spec fn total_span(allocators: Seq<PageAllocator>) -> nat
    decreases allocators.len(),
{
    if allocators.len() == 0 {
        0
    } else {
        total_span(allocators.drop_last()) + (allocators.last().page_count as nat) * (
        MIN_PAGE_SIZE as nat)
    }
}

/// No more pages are free than there are.
proof fn lemma_count_free_bound(free: Seq<bool>)
    ensures
        count_free(free) <= free.len(),
    decreases free.len(),
{
    if free.len() > 0 {
        lemma_count_free_bound(free.drop_last());
    }
}

/// The free bytes are within the span.
proof fn lemma_free_within_span(allocators: Seq<PageAllocator>)
    ensures
        total_free(allocators) <= total_span(allocators),
    decreases allocators.len(),
{
    if allocators.len() > 0 {
        lemma_free_within_span(allocators.drop_last());
        lemma_count_free_bound(allocators.last().free_map());
        assert(count_free(allocators.last().free_map()) * MIN_PAGE_SIZE
            <= allocators.last().page_count * MIN_PAGE_SIZE) by (nonlinear_arith)
            requires
                count_free(allocators.last().free_map()) <= allocators.last().page_count,
        ;
    }
}

/// Taking an allocator out takes its span out of the sum.
proof fn lemma_total_span_remove(allocators: Seq<PageAllocator>, index: int)
    requires
        0 <= index < allocators.len(),
    ensures
        total_span(allocators.remove(index)) == total_span(allocators)
            - allocators[index].page_count * MIN_PAGE_SIZE,
    decreases allocators.len(),
{
    if index == allocators.len() - 1 {
        assert(allocators.remove(index) =~= allocators.drop_last());
    } else {
        assert(allocators.remove(index).drop_last() =~= allocators.drop_last().remove(index));
        assert(allocators.remove(index).last() == allocators.last());
        lemma_total_span_remove(allocators.drop_last(), index);
    }
}

/// The end of the region of `allocator`.
pub open spec fn region_end(allocator: PageAllocator) -> int {
    allocator.region_start + allocator.page_count * MIN_PAGE_SIZE
}

/// The index of an allocator whose region ends last.
proof fn last_ending(allocators: Seq<PageAllocator>) -> (m: int)
    requires
        allocators.len() >= 1,
    ensures
        0 <= m < allocators.len(),
        forall|j: int|
            0 <= j < allocators.len() ==> region_end(#[trigger] allocators[j]) <= region_end(
                allocators[m],
            ),
    decreases allocators.len(),
{
    if allocators.len() == 1 {
        0
    } else {
        let shorter = allocators.drop_last();
        let before = last_ending(shorter);
        assert forall|j: int| 0 <= j < shorter.len() implies region_end(
            #[trigger] allocators[j],
        ) <= region_end(allocators[before]) by {
            assert(shorter[j] == allocators[j]);
        }
        if region_end(allocators.last()) > region_end(allocators[before]) {
            allocators.len() - 1
        } else {
            before
        }
    }
}

/// Regions of which no two meet, all ending at or before `bound`, span no
/// more than `bound` bytes together.
proof fn lemma_span_fits(allocators: Seq<PageAllocator>, bound: int)
    requires
        forall|i: int|
            0 <= i < allocators.len() ==> (#[trigger] allocators[i]).page_count >= 1 && region_end(
                allocators[i],
            ) <= bound,
        forall|i: int, j: int|
            0 <= i < allocators.len() && 0 <= j < allocators.len() && i != j ==> regions_apart(
                #[trigger] allocators[i],
                #[trigger] allocators[j],
            ),
        bound >= 0,
    ensures
        total_span(allocators) <= bound,
    decreases allocators.len(),
{
    if allocators.len() > 0 {
        let m = last_ending(allocators);
        let rest = allocators.remove(m);
        let limit = allocators[m].region_start as int;
        assert forall|i: int| 0 <= i < rest.len() implies (#[trigger] rest[i]).page_count >= 1
            && region_end(rest[i]) <= limit by {
            let k = if i < m {
                i
            } else {
                i + 1
            };
            assert(rest[i] == allocators[k]);
            assert(regions_apart(allocators[k], allocators[m]));
            assert(region_end(allocators[k]) <= region_end(allocators[m]));
            assert(allocators[k].page_count >= 1);
        }
        assert forall|i: int, j: int|
            0 <= i < rest.len() && 0 <= j < rest.len() && i != j implies regions_apart(
            #[trigger] rest[i],
            #[trigger] rest[j],
        ) by {
            let a = if i < m {
                i
            } else {
                i + 1
            };
            let b = if j < m {
                j
            } else {
                j + 1
            };
            assert(regions_apart(allocators[a], allocators[b]));
        }
        lemma_span_fits(rest, limit);
        lemma_total_span_remove(allocators, m);
        assert(allocators[m].page_count >= 1);
    }
}

/// The free bytes of a chain fit a machine word.
proof fn lemma_total_free_fits(allocators: Seq<PageAllocator>)
    requires
        chain_ok(allocators),
    ensures
        total_free(allocators) <= usize::MAX,
{
    lemma_free_within_span(allocators);
    assert forall|i: int| 0 <= i < allocators.len() implies (
    #[trigger] allocators[i]).page_count >= 1 && region_end(allocators[i]) <= usize::MAX by {
        assert(allocators[i].wf());
    }
    lemma_span_fits(allocators, usize::MAX as int);
}

/// The free bytes of the first `count` allocators are no more than those of
/// all.
proof fn lemma_total_free_prefix(allocators: Seq<PageAllocator>, count: int)
    requires
        0 <= count <= allocators.len(),
    ensures
        total_free(allocators.take(count)) <= total_free(allocators),
    decreases allocators.len(),
{
    if count == allocators.len() {
        assert(allocators.take(count) =~= allocators);
    } else {
        assert(allocators.drop_last().take(count) =~= allocators.take(count));
        lemma_total_free_prefix(allocators.drop_last(), count);
    }
}

} // verus!
