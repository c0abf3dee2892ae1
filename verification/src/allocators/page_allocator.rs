//! A bitmap allocator over the pages of one memory region.
//!
//! Every page of the region has one bit, set while the page is free. The
//! first pages of the region are set aside for the bitmap itself and are never
//! handed out.

use crate::bits::{bit_of_u8, get_bit_u8, lemma_with_bit_u8, set_bit_u8};
use crate::layout::{ceil_div, div_ceil, Layout, MIN_PAGE_SIZE};
use vstd::prelude::*;

verus! {

/// How many pages at the start of a region of `page_count` pages hold its
/// bitmap: one bit per page, rounded up to bytes, rounded up to pages.
pub open spec fn bitmap_pages(page_count: nat) -> nat {
    div_ceil(div_ceil(page_count, 8), MIN_PAGE_SIZE as nat)
}

/// How many pages of `free` are free.
pub open spec fn count_free(free: Seq<bool>) -> nat
    decreases free.len(),
{
    if free.len() == 0 {
        0
    } else {
        count_free(free.drop_last()) + if free.last() {
            1nat
        } else {
            0nat
        }
    }
}

/// Whether the `need` pages from `start` on all lie in the region and are free.
pub open spec fn run_is_free(free: Seq<bool>, start: int, need: int) -> bool {
    &&& 0 <= start
    &&& start + need <= free.len()
    &&& forall|j: int| start <= j < start + need ==> #[trigger] free[j]
}

/// Whether `start` is the first page from which `need` pages are free.
pub open spec fn is_first_fit(free: Seq<bool>, start: int, need: int) -> bool {
    &&& 0 <= start < free.len()
    &&& run_is_free(free, start, need)
    &&& forall|k: int| 0 <= k < start ==> !#[trigger] run_is_free(free, k, need)
}

/// `free` with the pages `start..end` marked `value`; pages outside the
/// region are left out.
pub open spec fn mark_run(free: Seq<bool>, start: int, end: int, value: bool) -> Seq<bool> {
    Seq::new(
        free.len(),
        |j: int|
            if start <= j < end {
                value
            } else {
                free[j]
            },
    )
}

/// The pages of the region that starts at `region_start`, and the bitmap of
/// those that are free.
pub struct PageAllocator {
    pub region_start: usize,
    pub page_count: usize,
    pub bitmap: Vec<u8>,
}

impl PageAllocator {
    /// The bitmap has one bit per page and the region ends within the address
    /// space.
    pub open spec fn wf(&self) -> bool {
        &&& self.bitmap@.len() == div_ceil(self.page_count as nat, 8)
        &&& self.region_start + self.page_count * MIN_PAGE_SIZE <= usize::MAX
    }

    /// Whether page `index` is free; pages outside the region are not.
    pub open spec fn spec_is_free(&self, index: int) -> bool {
        0 <= index < self.page_count && bit_of_u8(
            self.bitmap@[index / 8],
            (index % 8) as usize,
        )
    }

    /// The free bit of every page of the region, in order.
    pub open spec fn free_map(&self) -> Seq<bool> {
        Seq::new(self.page_count as nat, |i: int| self.spec_is_free(i))
    }

    /// How many pages a block of `size` bytes takes.
    pub open spec fn pages_for(size: usize) -> nat {
        div_ceil(size as nat, MIN_PAGE_SIZE as nat)
    }

    /// The address of page `index`.
    pub open spec fn page_address(&self, index: int) -> int {
        self.region_start + index * MIN_PAGE_SIZE
    }

    /// Whether `address` is the start of a page of this region.
    pub open spec fn is_page_start(&self, address: usize) -> bool {
        &&& self.region_start <= address
        &&& (address - self.region_start) % (MIN_PAGE_SIZE as int) == 0
    }

    /// Whether `address` starts a page from which `need` pages lie in the
    /// region.
    pub open spec fn owns_run(&self, address: usize, need: nat) -> bool {
        &&& self.is_page_start(address)
        &&& (address - self.region_start) / (MIN_PAGE_SIZE as int) + need <= self.page_count
    }

    /// An allocator over the `region_len / 4096` whole pages from
    /// `region_start` on, with the bitmap's own pages taken and all others
    /// free.
    pub fn new(region_start: usize, region_len: usize) -> (r: PageAllocator)
        requires
            region_start + region_len <= usize::MAX,
        ensures
            r.wf(),
            r.region_start == region_start,
            r.page_count == region_len / MIN_PAGE_SIZE,
            r.free_map() == Seq::new(
                r.page_count as nat,
                |i: int| i >= bitmap_pages(r.page_count as nat),
            ),
            count_free(r.free_map()) == r.page_count - bitmap_pages(r.page_count as nat),
    {
        let page_count: usize = region_len / MIN_PAGE_SIZE;
        let byte_count: usize = ceil_div(page_count, 8);
        let mut bitmap: Vec<u8> = Vec::new();
        let mut i: usize = 0;
        while i < byte_count
            invariant
                i <= byte_count,
                bitmap@.len() == i,
            decreases byte_count - i,
        {
            bitmap.push(0u8);
            i += 1;
        }
        let mut page_allocator = PageAllocator { region_start, page_count, bitmap };
        page_allocator.reserve_bitmap_pages();
        page_allocator
    }

    /// Whether a region of `region_len` bytes leaves at least one page free
    /// once its bitmap is in place.
    pub fn can_be_used(region_len: usize) -> (r: bool)
        ensures
            r == (region_len / MIN_PAGE_SIZE > bitmap_pages((region_len / MIN_PAGE_SIZE) as nat)),
    {
        let page_count: usize = region_len / MIN_PAGE_SIZE;
        page_count > ceil_div(ceil_div(page_count, 8), MIN_PAGE_SIZE)
    }

    /// Marks the bitmap's own pages taken and every other page free.
    pub fn reserve_bitmap_pages(&mut self)
        requires
            old(self).wf(),
        ensures
            final(self).wf(),
            final(self).region_start == old(self).region_start,
            final(self).page_count == old(self).page_count,
            final(self).free_map() == Seq::new(
                old(self).page_count as nat,
                |i: int| i >= bitmap_pages(old(self).page_count as nat),
            ),
            count_free(final(self).free_map()) == old(self).page_count - bitmap_pages(
                old(self).page_count as nat,
            ),
    {
        let needed_page_count: usize = ceil_div(ceil_div(self.page_count, 8), MIN_PAGE_SIZE);
        proof {
            lemma_bitmap_pages_bound(self.page_count as nat);
        }
        self.set_run(0, needed_page_count, false);
        self.set_run(needed_page_count, self.page_count, true);
        proof {
            let reserved = needed_page_count as int;
            let target = Seq::new(self.page_count as nat, |i: int| i >= reserved);
            assert(self.free_map() =~= target);
            lemma_count_free_suffix(self.page_count as nat, reserved as nat);
        }
    }

    /// The number of bytes in free pages.
    pub fn calculate_free_space(&self) -> (r: usize)
        requires
            self.wf(),
        ensures
            r == count_free(self.free_map()) * MIN_PAGE_SIZE,
    {
        let mut amount: usize = 0;
        let mut i: usize = 0;
        while i < self.page_count
            invariant
                self.wf(),
                i <= self.page_count,
                amount == count_free(self.free_map().take(i as int)) * MIN_PAGE_SIZE,
                count_free(self.free_map().take(i as int)) <= i,
            decreases self.page_count - i,
        {
            proof {
                let next = self.free_map().take(i + 1);
                assert(next.drop_last() =~= self.free_map().take(i as int));
                assert(next.last() == self.spec_is_free(i as int));
            }
            if self.is_free(i) {
                amount += MIN_PAGE_SIZE;
            }
            i += 1;
        }
        proof {
            assert(self.free_map().take(self.page_count as int) =~= self.free_map());
        }
        amount
    }

    /// Whether page `index` is free.
    pub fn is_free(&self, index: usize) -> (r: bool)
        requires
            self.wf(),
        ensures
            r == self.spec_is_free(index as int),
    {
        if index >= self.page_count {
            return false;
        }
        get_bit_u8(self.bitmap[index / 8], index % 8)
    }

    /// Sets the free bit of page `index`; a page outside the region has none.
    pub fn set_free_bit(&mut self, index: usize, value: bool)
        requires
            old(self).wf(),
        ensures
            final(self).wf(),
            final(self).region_start == old(self).region_start,
            final(self).page_count == old(self).page_count,
            final(self).free_map() == mark_run(old(self).free_map(), index as int, index + 1, value),
    {
        if index >= self.page_count {
            assert(self.free_map() =~= mark_run(self.free_map(), index as int, index + 1, value));
            return ;
        }
        let byte: u8 = self.bitmap[index / 8];
        let updated: u8 = set_bit_u8(byte, index % 8, value);
        self.bitmap[index / 8] = updated;
        proof {
            assert forall|j: int| 0 <= j < self.page_count implies self.spec_is_free(j) == (if j
                == index {
                value
            } else {
                old(self).spec_is_free(j)
            }) by {
                if j / 8 == index / 8 {
                    lemma_with_bit_u8(byte, (index % 8) as usize, value, (j % 8) as usize);
                }
            }
            assert(self.free_map() =~= mark_run(
                old(self).free_map(),
                index as int,
                index + 1,
                value,
            ));
        }
    }

    /// Sets the free bit of each of the pages `start..end`.
    fn set_run(&mut self, start: usize, end: usize, value: bool)
        requires
            old(self).wf(),
        ensures
            final(self).wf(),
            final(self).region_start == old(self).region_start,
            final(self).page_count == old(self).page_count,
            final(self).free_map() == mark_run(old(self).free_map(), start as int, end as int, value),
    {
        let mut i: usize = start;
        proof {
            assert(self.free_map() =~= mark_run(self.free_map(), start as int, start as int, value));
        }
        while i < end
            invariant
                self.wf(),
                self.region_start == old(self).region_start,
                self.page_count == old(self).page_count,
                start <= end ==> start <= i <= end,
                end < start ==> i == start,
                self.free_map() == mark_run(old(self).free_map(), start as int, i as int, value),
            decreases end - i,
        {
            self.set_free_bit(i, value);
            proof {
                assert(self.free_map() =~= mark_run(
                    old(self).free_map(),
                    start as int,
                    i + 1,
                    value,
                ));
            }
            i += 1;
        }
        proof {
            if end < start {
                assert(mark_run(old(self).free_map(), start as int, start as int, value)
                    =~= mark_run(old(self).free_map(), start as int, end as int, value));
            }
        }
    }

    /// The address of page `index`.
    pub fn get_page(&self, index: usize) -> (r: usize)
        requires
            self.wf(),
            index <= self.page_count,
        ensures
            r == self.page_address(index as int),
    {
        assert(index * MIN_PAGE_SIZE <= self.page_count * MIN_PAGE_SIZE) by (nonlinear_arith)
            requires
                index <= self.page_count,
        ;
        self.region_start + index * MIN_PAGE_SIZE
    }

    /// The index of the page that starts at `address`.
    pub fn get_page_index_of(&self, address: usize) -> (r: usize)
        requires
            self.is_page_start(address),
        ensures
            r == (address - self.region_start) / (MIN_PAGE_SIZE as int),
            address == self.region_start + r * MIN_PAGE_SIZE,
    {
        ceil_div(address - self.region_start, MIN_PAGE_SIZE)
    }

    /// Whether `address` lies in the region: from its start up to, and not
    /// including, the end of its last page.
    pub fn contains(&self, address: usize) -> (r: bool)
        requires
            self.wf(),
        ensures
            r == self.spec_contains(address),
    {
        assert(self.page_count * MIN_PAGE_SIZE <= usize::MAX);
        address >= self.region_start && address < self.region_start + self.page_count
            * MIN_PAGE_SIZE
    }

    /// Whether `address` lies in the region.
    pub open spec fn spec_contains(&self, address: usize) -> bool {
        self.region_start <= address < self.region_start + self.page_count * MIN_PAGE_SIZE
    }

    /// Whether the `need` pages from `start` on are all free.
    fn run_free(&self, start: usize, need: usize) -> (r: bool)
        requires
            self.wf(),
        ensures
            r == run_is_free(self.free_map(), start as int, need as int),
    {
        if need > self.page_count || start > self.page_count - need {
            return false;
        }
        let mut j: usize = start;
        while j < start + need
            invariant
                self.wf(),
                start <= j <= start + need,
                start + need <= self.page_count,
                forall|k: int| start <= k < j ==> #[trigger] self.free_map()[k],
            decreases start + need - j,
        {
            if !self.is_free(j) {
                assert(!self.free_map()[j as int]);
                return false;
            }
            j += 1;
        }
        true
    }

    /// Takes the first run of free pages that holds `layout.size` bytes and
    /// returns the address of its first page, or `None` where no run is long
    /// enough. Alignment beyond a page is not looked at.
    pub fn allocate(&mut self, layout: Layout) -> (r: Option<usize>)
        requires
            old(self).wf(),
        ensures
            final(self).wf(),
            final(self).region_start == old(self).region_start,
            final(self).page_count == old(self).page_count,
            match r {
                Some(address) => {
                    let need = Self::pages_for(layout.size) as int;
                    let index = (address - old(self).region_start) / (MIN_PAGE_SIZE as int);
                    &&& is_first_fit(old(self).free_map(), index, need)
                    &&& address == old(self).page_address(index)
                    &&& final(self).free_map() == mark_run(
                        old(self).free_map(),
                        index,
                        index + need,
                        false,
                    )
                },
                None => {
                    &&& forall|k: int|
                        0 <= k < old(self).page_count ==> !#[trigger] run_is_free(
                            old(self).free_map(),
                            k,
                            Self::pages_for(layout.size) as int,
                        )
                    &&& final(self).free_map() == old(self).free_map()
                },
            },
    {
        let needed_page_count: usize = ceil_div(layout.size, MIN_PAGE_SIZE);
        let mut page_index: usize = 0;
        while page_index < self.page_count
            invariant
                self.wf(),
                *self == *old(self),
                page_index <= self.page_count,
                needed_page_count == Self::pages_for(layout.size),
                forall|k: int|
                    0 <= k < page_index ==> !#[trigger] run_is_free(
                        self.free_map(),
                        k,
                        needed_page_count as int,
                    ),
            decreases self.page_count - page_index,
        {
            if self.run_free(page_index, needed_page_count) {
                self.set_run(page_index, page_index + needed_page_count, false);
                let address: usize = self.get_page(page_index);
                assert((address - self.region_start) / (MIN_PAGE_SIZE as int) == page_index);
                return Some(address);
            }
            page_index += 1;
        }
        None
    }

    /// Gives the pages of the block of `layout.size` bytes at `address` back.
    pub fn dealloc(&mut self, address: usize, layout: Layout)
        requires
            old(self).wf(),
            old(self).owns_run(address, Self::pages_for(layout.size)),
        ensures
            final(self).wf(),
            final(self).region_start == old(self).region_start,
            final(self).page_count == old(self).page_count,
            final(self).free_map() == ({
                let index = (address - old(self).region_start) / (MIN_PAGE_SIZE as int);
                mark_run(
                    old(self).free_map(),
                    index,
                    index + Self::pages_for(layout.size),
                    true,
                )
            }),
    {
        let needed_page_count: usize = ceil_div(layout.size, MIN_PAGE_SIZE);
        let page_index: usize = self.get_page_index_of(address);
        self.set_run(page_index, page_index + needed_page_count, true);
    }

    /// Tries to make the block of `layout.size` bytes at `address` hold
    /// `new_size` bytes where it lies. With the same number of pages nothing
    /// changes; a smaller block gives its last pages back; a larger one takes
    /// the pages behind it if all of them are free. Returns whether the block
    /// now holds `new_size` bytes; on `false` nothing has changed.
    pub fn resize(&mut self, address: usize, layout: Layout, new_size: usize) -> (r: bool)
        requires
            old(self).wf(),
            old(self).owns_run(address, Self::pages_for(layout.size)),
        ensures
            final(self).wf(),
            final(self).region_start == old(self).region_start,
            final(self).page_count == old(self).page_count,
            ({
                let index = (address - old(self).region_start) / (MIN_PAGE_SIZE as int);
                let old_need = Self::pages_for(layout.size) as int;
                let new_need = Self::pages_for(new_size) as int;
                if new_need == old_need {
                    r && final(self).free_map() == old(self).free_map()
                } else if new_need < old_need {
                    r && final(self).free_map() == mark_run(
                        old(self).free_map(),
                        index + new_need,
                        index + old_need,
                        true,
                    )
                } else if run_is_free(old(self).free_map(), index + old_need, new_need - old_need) {
                    r && final(self).free_map() == mark_run(
                        old(self).free_map(),
                        index + old_need,
                        index + new_need,
                        false,
                    )
                } else {
                    !r && final(self).free_map() == old(self).free_map()
                }
            }),
    {
        let old_needed_page_count: usize = ceil_div(layout.size, MIN_PAGE_SIZE);
        let new_needed_page_count: usize = ceil_div(new_size, MIN_PAGE_SIZE);
        if new_needed_page_count == old_needed_page_count {
            true
        } else if new_needed_page_count < old_needed_page_count {
            let page_index: usize = self.get_page_index_of(address);
            self.set_run(
                page_index + new_needed_page_count,
                page_index + old_needed_page_count,
                true,
            );
            true
        } else {
            let page_index: usize = self.get_page_index_of(address);
            let first: usize = page_index + old_needed_page_count;
            let extra: usize = new_needed_page_count - old_needed_page_count;
            if self.run_free(first, extra) {
                self.set_run(first, first + extra, false);
                true
            } else {
                false
            }
        }
    }
}

/// The bitmap of a region never takes more pages than the region has.
pub proof fn lemma_bitmap_pages_bound(page_count: nat)
    ensures
        bitmap_pages(page_count) <= page_count,
        page_count >= 2 ==> bitmap_pages(page_count) < page_count,
{
}

/// A region whose first `reserved` pages are taken and whose other pages are
/// free has `page_count - reserved` free pages.
pub proof fn lemma_count_free_suffix(page_count: nat, reserved: nat)
    requires
        reserved <= page_count,
    ensures
        count_free(Seq::new(page_count, |i: int| i >= reserved)) == page_count - reserved,
    decreases page_count,
{
    let s = Seq::new(page_count, |i: int| i >= reserved);
    if page_count == 0 {
    } else if page_count == reserved {
        let shorter = Seq::new((page_count - 1) as nat, |i: int| i >= (reserved - 1) as nat);
        lemma_count_free_taken(s);
    } else {
        let shorter = Seq::new((page_count - 1) as nat, |i: int| i >= reserved);
        assert(s.drop_last() =~= shorter);
        lemma_count_free_suffix((page_count - 1) as nat, reserved);
    }
}

/// A region with no free page counts none.
pub proof fn lemma_count_free_taken(free: Seq<bool>)
    requires
        forall|i: int| 0 <= i < free.len() ==> !free[i],
    ensures
        count_free(free) == 0,
    decreases free.len(),
{
    if free.len() > 0 {
        lemma_count_free_taken(free.drop_last());
    }
}

} // verus!
