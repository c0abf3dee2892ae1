//! A buddy allocator over one heap.
//!
//! The heap is cut into blocks whose sizes are powers of two. Every block
//! starts with a header of `HEADER_SIZE` bytes; the blocks are kept in address
//! order, as a walk from header to header meets them. A block of size `s` at
//! address `a` has its buddy at `a ^ s`: two free buddies are always joined
//! again, so a heap without live blocks is one free block.

use crate::bits::{aligned_to, floor_power_of_two, largest_power_of_two, power_of_two};
use crate::layout::Layout;
use vstd::prelude::*;

verus! {

/// The number of bytes that a block's header takes.
pub const HEADER_SIZE: usize = 16;

/// One block of the heap: its header and where the header lies.
#[derive(Debug, Clone, Copy, PartialEq, Eq, Structural)]
pub struct Block {
    pub addr: usize,
    pub size: usize,
    pub free: bool,
}

/// The sum of the sizes of `blocks`.
pub open spec fn total_size(blocks: Seq<Block>) -> nat
    decreases blocks.len(),
{
    if blocks.len() == 0 {
        0
    } else {
        total_size(blocks.drop_last()) + blocks.last().size as nat
    }
}

/// The bytes that the free blocks of `blocks` offer: each one's size less
/// its header.
pub open spec fn free_bytes(blocks: Seq<Block>) -> nat
    decreases blocks.len(),
{
    if blocks.len() == 0 {
        0
    } else {
        free_bytes(blocks.drop_last()) + if blocks.last().free {
            (blocks.last().size - HEADER_SIZE) as nat
        } else {
            0nat
        }
    }
}

/// The bytes that the live blocks of `blocks` take, headers included.
pub open spec fn live_bytes(blocks: Seq<Block>) -> nat
    decreases blocks.len(),
{
    if blocks.len() == 0 {
        0
    } else {
        live_bytes(blocks.drop_last()) + if blocks.last().free {
            0nat
        } else {
            blocks.last().size as nat
        }
    }
}

/// The index of the first free block of at least `need` bytes, or the number
/// of blocks where there is none.
pub open spec fn fit_index(blocks: Seq<Block>, need: nat) -> int
    decreases blocks.len(),
{
    if blocks.len() == 0 {
        0
    } else {
        let before = fit_index(blocks.drop_last(), need);
        if before < blocks.len() - 1 {
            before
        } else if blocks.last().free && blocks.last().size >= need {
            blocks.len() - 1
        } else {
            blocks.len() as int
        }
    }
}

/// The blocks that `block` falls into when it is halved for as long as a half
/// is larger than `need`: the lowest part first, then the upper halves that
/// were split off, all of them free.
pub open spec fn split_block(block: Block, need: nat) -> Seq<Block>
    decreases block.size,
{
    if block.size / 2 > need {
        split_block(Block { addr: block.addr, size: block.size / 2, free: block.free }, need).push(
            Block {
                addr: (block.addr + block.size / 2) as usize,
                size: block.size / 2,
                free: true,
            },
        )
    } else {
        seq![block]
    }
}

/// `blocks` after block `index` has been split for `need` bytes and its
/// lowest part taken.
pub open spec fn blocks_after_allocate(blocks: Seq<Block>, index: int, need: nat) -> Seq<Block> {
    let parts = split_block(blocks[index], need);
    (blocks.take(index) + parts + blocks.skip(index + 1)).update(
        index,
        Block { addr: parts[0].addr, size: parts[0].size, free: false },
    )
}

/// The index of the live block whose payload starts at `address`, or the
/// number of blocks where there is none.
pub open spec fn live_index(blocks: Seq<Block>, address: usize) -> int
    decreases blocks.len(),
{
    if blocks.len() == 0 {
        0
    } else {
        let before = live_index(blocks.drop_last(), address);
        if before < blocks.len() - 1 {
            before
        } else if !blocks.last().free && blocks.last().addr + HEADER_SIZE == address {
            blocks.len() - 1
        } else {
            blocks.len() as int
        }
    }
}

/// `blocks` after the free block `index` has been joined with its buddy for
/// as long as the buddy is a free block of the same size.
pub open spec fn coalesce(blocks: Seq<Block>, index: int) -> Seq<Block>
    decreases blocks.len(),
{
    if 0 <= index < blocks.len() {
        let block = blocks[index];
        let buddy = block.addr ^ block.size;
        if buddy > block.addr && index + 1 < blocks.len() && blocks[index + 1] == (Block {
            addr: buddy,
            size: block.size,
            free: true,
        }) {
            coalesce(
                blocks.remove(index + 1).update(
                    index,
                    Block { addr: block.addr, size: (2 * block.size) as usize, free: true },
                ),
                index,
            )
        } else if buddy < block.addr && index >= 1 && blocks[index - 1] == (Block {
            addr: buddy,
            size: block.size,
            free: true,
        }) {
            coalesce(
                blocks.remove(index).update(
                    index - 1,
                    Block { addr: buddy, size: (2 * block.size) as usize, free: true },
                ),
                index - 1,
            )
        } else {
            blocks
        }
    } else {
        blocks
    }
}

/// `blocks` after the live block whose payload starts at `address` has been
/// freed and joined with its free buddies; unchanged where `address` is no
/// live block's.
pub open spec fn blocks_after_dealloc(blocks: Seq<Block>, address: usize) -> Seq<Block> {
    let index = live_index(blocks, address);
    if index < blocks.len() {
        coalesce(
            blocks.update(
                index,
                Block { addr: blocks[index].addr, size: blocks[index].size, free: true },
            ),
            index,
        )
    } else {
        blocks
    }
}

/// A block's size is a power of two that holds a header, and its address is
/// a multiple of its size.
pub open spec fn block_ok(block: Block) -> bool {
    &&& power_of_two(block.size)
    &&& block.size >= HEADER_SIZE
    &&& aligned_to(block.addr, block.size)
}

/// Whether two neighbours are free buddies that ought to be one block.
pub open spec fn mergeable(lower: Block, upper: Block) -> bool {
    &&& lower.free
    &&& upper.free
    &&& lower.size == upper.size
    &&& lower.addr & lower.size == 0
}

/// Block `j + 1` starts where block `j` ends.
pub open spec fn follows(blocks: Seq<Block>, j: int) -> bool {
    blocks[j].addr + blocks[j].size == blocks[j + 1].addr
}

/// Blocks `j` and `j + 1` are no free buddies.
pub open spec fn apart(blocks: Seq<Block>, j: int) -> bool {
    !mergeable(blocks[j], blocks[j + 1])
}

/// The block lies between `start` and `limit`.
pub open spec fn within(block: Block, start: int, limit: int) -> bool {
    start <= block.addr && block.addr + block.size <= limit
}

/// The blocks lie one behind the other from `start` to `limit`.
pub open spec fn contiguous(blocks: Seq<Block>, start: int, limit: int) -> bool {
    &&& blocks.len() >= 1
    &&& blocks[0].addr == start
    &&& blocks.last().addr + blocks.last().size == limit
    &&& forall|j: int| 0 <= j < blocks.len() - 1 ==> #[trigger] follows(blocks, j)
    &&& forall|j: int| 0 <= j < blocks.len() ==> within(#[trigger] blocks[j], start, limit)
}

/// No two neighbours are free buddies, but for pairs that hold block `hole`.
pub open spec fn coalesced_but(blocks: Seq<Block>, hole: int) -> bool {
    forall|j: int|
        0 <= j < blocks.len() - 1 && j != hole && j + 1 != hole ==> #[trigger] apart(blocks, j)
}

/// The invariant of a heap from `start` with `span` bytes in blocks, but for
/// free buddies next to block `hole`.
pub open spec fn heap_ok_but(blocks: Seq<Block>, start: usize, span: usize, hole: int) -> bool {
    &&& power_of_two(span)
    &&& aligned_to(start, span)
    &&& start + span <= usize::MAX
    &&& contiguous(blocks, start as int, start + span)
    &&& forall|j: int| 0 <= j < blocks.len() ==> block_ok(#[trigger] blocks[j])
    &&& coalesced_but(blocks, hole)
}

/// The invariant of a heap from `start` with `span` bytes in blocks.
pub open spec fn heap_ok(blocks: Seq<Block>, start: usize, span: usize) -> bool {
    heap_ok_but(blocks, start, span, -1)
}

/// The heap from `start` to `end` and its blocks, in address order.
pub struct BuddyAllocator {
    pub start: usize,
    pub end: usize,
    pub blocks: Vec<Block>,
}

impl BuddyAllocator {
    /// The bytes of the heap that are in blocks: the largest power of two
    /// that the heap holds.
    pub open spec fn span(&self) -> nat {
        floor_power_of_two((self.end - self.start) as nat)
    }

    /// The blocks fill the heap's span, each is a power of two at a
    /// multiple of its size, and no two free buddies stand side by side.
    pub open spec fn wf(&self) -> bool {
        &&& self.start < self.end
        &&& heap_ok(self.blocks@, self.start, self.span() as usize)
        &&& self.span() <= self.end - self.start
    }

    /// A heap of `heap_size` bytes at `heap_start` that is one free block:
    /// the largest power of two that fits.
    pub fn new(heap_start: usize, heap_size: usize) -> (r: BuddyAllocator)
        requires
            heap_size >= HEADER_SIZE,
            heap_start + heap_size <= usize::MAX,
            aligned_to(heap_start, floor_power_of_two(heap_size as nat) as usize),
        ensures
            r.wf(),
            r.start == heap_start,
            r.end == heap_start + heap_size,
            r.blocks@ == seq![
                Block {
                    addr: heap_start,
                    size: floor_power_of_two(heap_size as nat) as usize,
                    free: true,
                },
            ],
    {
        let size: usize = largest_power_of_two(heap_size);
        proof {
            lemma_power_at_least(size, heap_size);
        }
        let mut blocks: Vec<Block> = Vec::new();
        blocks.push(Block { addr: heap_start, size, free: true });
        BuddyAllocator { start: heap_start, end: heap_start + heap_size, blocks }
    }

    /// The bytes that free blocks offer.
    pub fn calculate_free_bytes(&self) -> (r: usize)
        requires
            self.wf(),
        ensures
            r == free_bytes(self.blocks@),
    {
        let mut amount: usize = 0;
        let mut i: usize = 0;
        proof {
            lemma_total_size(self.blocks@, self.start as int, self.start + self.span());
        }
        while i < self.blocks.len()
            invariant
                self.wf(),
                i <= self.blocks@.len(),
                amount == free_bytes(self.blocks@.take(i as int)),
                amount <= total_size(self.blocks@.take(i as int)),
                total_size(self.blocks@) <= usize::MAX,
            decreases self.blocks@.len() - i,
        {
            proof {
                let next = self.blocks@.take(i + 1);
                assert(next.drop_last() =~= self.blocks@.take(i as int));
                lemma_total_size_prefix(self.blocks@, i + 1);
            }
            if self.blocks[i].free {
                amount += self.blocks[i].size - HEADER_SIZE;
            }
            i += 1;
        }
        proof {
            assert(self.blocks@.take(i as int) =~= self.blocks@);
        }
        amount
    }

    /// Takes the first free block that holds `layout` behind a header, halves
    /// it for as long as a half would still be larger than needed, and
    /// returns the address behind the header of what is left; `None` where no
    /// free block is large enough.
    pub fn allocate(&mut self, layout: Layout) -> (r: Option<usize>)
        requires
            old(self).wf(),
            layout.wf(),
        ensures
            final(self).wf(),
            final(self).start == old(self).start,
            final(self).end == old(self).end,
            ({
                let need = HEADER_SIZE as nat + layout.padded_size();
                let index = fit_index(old(self).blocks@, need);
                if index < old(self).blocks@.len() {
                    &&& r == Some((old(self).blocks@[index].addr + HEADER_SIZE) as usize)
                    &&& final(self).blocks@ == blocks_after_allocate(old(self).blocks@, index, need)
                } else {
                    &&& r.is_none()
                    &&& final(self).blocks@ == old(self).blocks@
                }
            }),
    {
        let data_size: usize = layout.pad_to_align().size;
        let allocation_size: usize = HEADER_SIZE + data_size;
        let mut i: usize = 0;
        while i < self.blocks.len()
            invariant
                *self == *old(self),
                self.wf(),
                i <= self.blocks@.len(),
                allocation_size == HEADER_SIZE + layout.padded_size(),
                fit_index(self.blocks@.take(i as int), allocation_size as nat) == i,
            decreases self.blocks@.len() - i,
        {
            proof {
                assert(self.blocks@.take(i + 1).drop_last() =~= self.blocks@.take(i as int));
            }
            if self.blocks[i].free && self.blocks[i].size >= allocation_size {
                proof {
                    lemma_fit_index_found(self.blocks@, i as int, allocation_size as nat);
                }
                self.split(i, allocation_size);
                let ghost split = self.blocks@;
                let block: Block = self.blocks[i];
                self.blocks[i] = Block { addr: block.addr, size: block.size, free: false };
                proof {
                    let parts = split_block(old(self).blocks@[i as int], allocation_size as nat);
                    lemma_split_block_head(old(self).blocks@[i as int], allocation_size as nat);
                    assert(self.blocks@ =~= blocks_after_allocate(
                        old(self).blocks@,
                        i as int,
                        allocation_size as nat,
                    ));
                    lemma_taken(split, self.blocks@, self.start, self.span() as usize, i as int);
                }
                return Some(block.addr + HEADER_SIZE);
            }
            i += 1;
        }
        proof {
            assert(self.blocks@.take(i as int) =~= self.blocks@);
        }
        None
    }

    /// Halves the free block `index` for as long as a half is larger than
    /// `need`, each time leaving the upper half as a free block behind it.
    fn split(&mut self, index: usize, need: usize)
        requires
            old(self).wf(),
            index < old(self).blocks@.len(),
            old(self).blocks@[index as int].free,
            need >= HEADER_SIZE,
        ensures
            final(self).start == old(self).start,
            final(self).end == old(self).end,
            final(self).start < final(self).end,
            final(self).span() <= final(self).end - final(self).start,
            heap_ok_but(
                final(self).blocks@,
                final(self).start,
                final(self).span() as usize,
                index as int,
            ),
            final(self).blocks@ == old(self).blocks@.take(index as int) + split_block(
                old(self).blocks@[index as int],
                need as nat,
            ) + old(self).blocks@.skip(index + 1),
            final(self).blocks@[index as int].free,
            index < final(self).blocks@.len(),
    {
        let ghost first = old(self).blocks@[index as int];
        let ghost front = old(self).blocks@.take(index as int);
        let ghost back = old(self).blocks@.skip(index + 1);
        let ghost mut tail: Seq<Block> = Seq::empty();
        proof {
            assert(self.blocks@ =~= front + seq![first] + tail + back);
        }
        while self.blocks[index].size / 2 > need
            invariant
                self.start == old(self).start,
                self.end == old(self).end,
                self.start < self.end,
                self.span() <= self.end - self.start,
                index < self.blocks.len(),
                need >= HEADER_SIZE,
                heap_ok_but(self.blocks@, self.start, self.span() as usize, index as int),
                self.blocks@[index as int].free,
                front == old(self).blocks@.take(index as int),
                back == old(self).blocks@.skip(index + 1),
                index < old(self).blocks@.len(),
                first == old(self).blocks@[index as int],
                front.len() == index,
                self.blocks@ == front + seq![self.blocks@[index as int]] + tail + back,
                split_block(first, need as nat) == split_block(
                    self.blocks@[index as int],
                    need as nat,
                ) + tail,
            decreases self.blocks@[index as int].size,
        {
            let block: Block = self.blocks[index];
            let half: usize = block.size / 2;
            let ghost before = self.blocks@;
            proof {
                lemma_halves(block.addr, block.size, half, (block.addr + half) as usize);
            }
            let lower = Block { addr: block.addr, size: half, free: true };
            let upper = Block { addr: block.addr + half, size: half, free: true };
            self.blocks[index] = lower;
            self.blocks.insert(index + 1, upper);
            proof {
                let now = self.blocks@;
                assert(now =~= before.update(index as int, lower).insert(index + 1, upper));
                assert(before == front + seq![block] + tail + back);
                assert forall|j: int| 0 <= j < now.len() implies now[j] == (front + seq![lower]
                    + (seq![upper] + tail) + back)[j] by {
                    if j > index + 1 {
                        assert(now[j] == before[j - 1]);
                    }
                }
                assert(now =~= front + seq![lower] + (seq![upper] + tail) + back);
                assert(split_block(block, need as nat) == split_block(lower, need as nat).push(
                    upper,
                ));
                assert(split_block(lower, need as nat).push(upper) + tail =~= split_block(
                    lower,
                    need as nat,
                ) + (seq![upper] + tail));
                tail = seq![upper] + tail;
                lemma_after_split(before, now, self.start, self.span() as usize, index as int);
            }
        }
        proof {
            assert(split_block(self.blocks@[index as int], need as nat) =~= seq![
                self.blocks@[index as int],
            ]);
        }
    }

    /// Frees the live block whose payload starts at `address`, then joins it
    /// with its buddy for as long as the buddy lies in the heap and is a free
    /// block of the same size. An address that is no live block's changes
    /// nothing.
    pub fn dealloc(&mut self, address: usize)
        requires
            old(self).wf(),
        ensures
            final(self).wf(),
            final(self).start == old(self).start,
            final(self).end == old(self).end,
            final(self).blocks@ == blocks_after_dealloc(old(self).blocks@, address),
    {
        let mut i: usize = 0;
        while i < self.blocks.len()
            invariant
                *self == *old(self),
                self.wf(),
                i <= self.blocks@.len(),
                live_index(self.blocks@.take(i as int), address) == i,
            decreases self.blocks@.len() - i,
        {
            proof {
                assert(self.blocks@.take(i + 1).drop_last() =~= self.blocks@.take(i as int));
            }
            let block: Block = self.blocks[i];
            if !block.free && address >= HEADER_SIZE && block.addr == address - HEADER_SIZE {
                proof {
                    lemma_live_index_found(self.blocks@, i as int, address);
                }
                self.blocks[i] = Block { addr: block.addr, size: block.size, free: true };
                proof {
                    lemma_freed(old(self).blocks@, self.blocks@, self.start, self.span() as usize, i as int);
                }
                self.join(i);
                return ;
            }
            i += 1;
        }
        proof {
            assert(self.blocks@.take(i as int) =~= self.blocks@);
        }
    }

    /// Joins the free block `index` with its buddy again and again.
    fn join(&mut self, index: usize)
        requires
            old(self).start < old(self).end,
            old(self).span() <= old(self).end - old(self).start,
            index < old(self).blocks@.len(),
            old(self).blocks@[index as int].free,
            heap_ok_but(
                old(self).blocks@,
                old(self).start,
                old(self).span() as usize,
                index as int,
            ),
        ensures
            final(self).wf(),
            final(self).start == old(self).start,
            final(self).end == old(self).end,
            final(self).blocks@ == coalesce(old(self).blocks@, index as int),
    {
        let mut i: usize = index;
        loop
            invariant
                self.start == old(self).start,
                self.end == old(self).end,
                self.start < self.end,
                self.span() <= self.end - self.start,
                i < self.blocks.len(),
                self.blocks@[i as int].free,
                heap_ok_but(self.blocks@, self.start, self.span() as usize, i as int),
                coalesce(self.blocks@, i as int) == coalesce(old(self).blocks@, index as int),
            ensures
                self.wf(),
                self.start == old(self).start,
                self.end == old(self).end,
                self.blocks@ == coalesce(old(self).blocks@, index as int),
            decreases self.blocks@.len(),
        {
            let block: Block = self.blocks[i];
            let buddy: usize = block.addr ^ block.size;
            let ghost before = self.blocks@;
            proof {
                assert(block_ok(block));
                lemma_buddy(block.addr, block.size, buddy);
                assert(within(before[i as int], self.start as int, self.start + self.span()));
                if i + 1 < before.len() {
                    assert(follows(before, i as int));
                    assert(within(before[i + 1], self.start as int, self.start + self.span()));
                }
                if i >= 1 {
                    assert(follows(before, i - 1));
                }
            }
            if buddy >= self.end || buddy < self.start {
                proof {
                    assert(coalesce(before, i as int) == before);
                    lemma_settled(before, self.start, self.span() as usize, i as int);
                }
                break ;
            }
            if buddy > block.addr {
                if i + 1 < self.blocks.len() && self.blocks[i + 1].addr == buddy && self.blocks[i
                    + 1].size == block.size && self.blocks[i + 1].free {
                    let doubled = Block { addr: block.addr, size: block.size * 2, free: true };
                    self.blocks[i] = doubled;
                    self.blocks.remove(i + 1);
                    proof {
                        let now = self.blocks@;
                        assert(now =~= before.remove(i + 1).update(i as int, doubled));
                        lemma_joined(block.addr, block.size, doubled.size);
                        lemma_after_join(before, now, self.start, self.span() as usize, i as int);
                        assert(now.len() < before.len());
                    }
                } else {
                    proof {
                        assert(coalesce(before, i as int) == before);
                        lemma_settled(before, self.start, self.span() as usize, i as int);
                    }
                    break ;
                }
            } else {
                if i >= 1 && self.blocks[i - 1].addr == buddy && self.blocks[i - 1].size
                    == block.size && self.blocks[i - 1].free {
                    let doubled = Block { addr: buddy, size: block.size * 2, free: true };
                    self.blocks[i - 1] = doubled;
                    self.blocks.remove(i);
                    proof {
                        let now = self.blocks@;
                        assert(now =~= before.remove(i as int).update(i - 1, doubled));
                        lemma_joined(buddy, block.size, doubled.size);
                        lemma_after_join(before, now, self.start, self.span() as usize, i - 1);
                    }
                    i = i - 1;
                } else {
                    proof {
                        assert(coalesce(before, i as int) == before);
                        lemma_settled(before, self.start, self.span() as usize, i as int);
                    }
                    break ;
                }
            }
        }
    }
}

/// A power of two that is at least half of a number of at least 16 is at
/// least 16.
proof fn lemma_power_at_least(power: usize, n: usize)
    by (bit_vector)
    requires
        power != 0 && power & ((power - 1) as usize) == 0,
        n >= 16,
        power <= n,
        n < 2 * power,
    ensures
        power >= 16,
{
}

/// The two halves of an aligned block are aligned blocks, the lower one a
/// lower buddy and the upper one not.
proof fn lemma_halves(addr: usize, size: usize, half: usize, upper: usize)
    by (bit_vector)
    requires
        size != 0 && size & ((size - 1) as usize) == 0,
        addr & ((size - 1) as usize) == 0,
        half == size / 2,
        half > 16,
        upper == addr + half,
    ensures
        half != 0 && half & ((half - 1) as usize) == 0,
        half + half == size,
        addr & ((half - 1) as usize) == 0,
        upper & ((half - 1) as usize) == 0,
        addr & half == 0,
        upper & half != 0,
{
}

/// Where the buddy of an aligned block lies: right behind a lower buddy,
/// right before an upper one.
proof fn lemma_buddy(addr: usize, size: usize, buddy: usize)
    by (bit_vector)
    requires
        size != 0 && size & ((size - 1) as usize) == 0,
        addr & ((size - 1) as usize) == 0,
        buddy == addr ^ size,
    ensures
        addr & size == 0 ==> buddy == addr + size,
        addr & size != 0 ==> addr >= size && buddy == addr - size && buddy & size == 0,
        buddy != addr,
{
}

/// A block right before an aligned block, of the same size, is a lower buddy
/// exactly where the block behind it is an upper one.
proof fn lemma_lower_neighbour(addr: usize, size: usize, previous: usize)
    by (bit_vector)
    requires
        size != 0 && size & ((size - 1) as usize) == 0,
        addr & ((size - 1) as usize) == 0,
        previous + size == addr,
    ensures
        previous & size == 0 <==> addr & size != 0,
{
}

/// Two buddies make one aligned block of twice the size.
proof fn lemma_joined(addr: usize, size: usize, twice: usize)
    by (bit_vector)
    requires
        size != 0 && size & ((size - 1) as usize) == 0,
        addr & ((size - 1) as usize) == 0,
        addr & size == 0,
        twice == 2 * size,
    ensures
        twice != 0 && twice & ((twice - 1) as usize) == 0,
        addr & ((twice - 1) as usize) == 0,
{
}

/// Joining never adds a block.
proof fn lemma_coalesce_len(blocks: Seq<Block>, index: int)
    ensures
        coalesce(blocks, index).len() <= blocks.len(),
    decreases blocks.len(),
{
    if 0 <= index < blocks.len() {
        let block = blocks[index];
        let buddy = block.addr ^ block.size;
        let twice = (2 * block.size) as usize;
        if buddy > block.addr && index + 1 < blocks.len() && blocks[index + 1] == (Block {
            addr: buddy,
            size: block.size,
            free: true,
        }) {
            lemma_coalesce_len(
                blocks.remove(index + 1).update(
                    index,
                    Block { addr: block.addr, size: twice, free: true },
                ),
                index,
            );
        } else if buddy < block.addr && index >= 1 && blocks[index - 1] == (Block {
            addr: buddy,
            size: block.size,
            free: true,
        }) {
            lemma_coalesce_len(
                blocks.remove(index).update(
                    index - 1,
                    Block { addr: buddy, size: twice, free: true },
                ),
                index - 1,
            );
        }
    }
}

/// Once block `index` has no free buddy of its size next to it, the heap is
/// in order.
proof fn lemma_settled(blocks: Seq<Block>, start: usize, span: usize, index: int)
    requires
        heap_ok_but(blocks, start, span, index),
        0 <= index < blocks.len(),
        coalesce(blocks, index) == blocks,
        blocks[index].free,
    ensures
        heap_ok(blocks, start, span),
{
    let block = blocks[index];
    let buddy = block.addr ^ block.size;
    assert(block_ok(block));
    lemma_buddy(block.addr, block.size, buddy);
    assert forall|j: int| 0 <= j < blocks.len() - 1 implies #[trigger] apart(blocks, j) by {
        if j == index {
            assert(follows(blocks, j));
            if mergeable(blocks[j], blocks[j + 1]) {
                assert(blocks[j + 1] == (Block { addr: buddy, size: block.size, free: true }));
                lemma_coalesce_len(
                    blocks.remove(index + 1).update(
                        index,
                        Block { addr: block.addr, size: (2 * block.size) as usize, free: true },
                    ),
                    index,
                );
                assert(false);
            }
        } else if j + 1 == index {
            assert(follows(blocks, j));
            if mergeable(blocks[j], blocks[j + 1]) {
                lemma_lower_neighbour(block.addr, block.size, blocks[j].addr);
                assert(blocks[j] == (Block { addr: buddy, size: block.size, free: true }));
                lemma_coalesce_len(
                    blocks.remove(index).update(
                        index - 1,
                        Block { addr: buddy, size: (2 * block.size) as usize, free: true },
                    ),
                    index - 1,
                );
                assert(false);
            }
        } else {
            assert(apart(blocks, j));
        }
    }
}

/// Joining block `index` with the block behind it keeps the heap in order
/// but for the pairs that hold the joined block.
proof fn lemma_after_join(
    before: Seq<Block>,
    now: Seq<Block>,
    start: usize,
    span: usize,
    index: int,
)
    requires
        heap_ok_but(before, start, span, index) || heap_ok_but(before, start, span, index + 1),
        0 <= index < before.len() - 1,
        before[index].size == before[index + 1].size,
        2 * before[index].size <= usize::MAX,
        now == before.remove(index + 1).update(
            index,
            Block {
                addr: before[index].addr,
                size: (2 * before[index].size) as usize,
                free: true,
            },
        ),
        block_ok(now[index]),
    ensures
        heap_ok_but(now, start, span, index),
{
    let limit = start + span;
    assert forall|j: int| 0 <= j < now.len() implies block_ok(#[trigger] now[j]) by {
        if j < index {
            assert(now[j] == before[j]);
        } else if j > index {
            assert(now[j] == before[j + 1]);
        }
    }
    assert(follows(before, index));
    assert forall|j: int| 0 <= j < now.len() - 1 implies #[trigger] follows(now, j) by {
        if j < index {
            assert(follows(before, j));
        } else {
            assert(follows(before, j + 1));
        }
    }
    assert forall|j: int| 0 <= j < now.len() implies within(
        #[trigger] now[j],
        start as int,
        limit,
    ) by {
        if j < index {
            assert(within(before[j], start as int, limit));
        } else if j > index {
            assert(within(before[j + 1], start as int, limit));
        } else {
            assert(within(before[index], start as int, limit));
            assert(within(before[index + 1], start as int, limit));
        }
    }
    assert(now.last().addr + now.last().size == limit) by {
        if index == now.len() - 1 {
            assert(before.last() == before[index + 1]);
        } else {
            assert(now.last() == before.last());
        }
    }
    assert forall|j: int|
        0 <= j < now.len() - 1 && j != index && j + 1 != index implies #[trigger] apart(
        now,
        j,
    ) by {
        if j < index {
            assert(apart(before, j));
        } else {
            assert(apart(before, j + 1));
        }
    }
}

/// Halving block `index` and leaving its upper half behind it keeps the heap
/// in order but for the pairs that hold the lower half.
proof fn lemma_after_split(
    before: Seq<Block>,
    now: Seq<Block>,
    start: usize,
    span: usize,
    index: int,
)
    requires
        heap_ok_but(before, start, span, index),
        0 <= index < before.len(),
        before[index].free,
        before[index].size / 2 > HEADER_SIZE,
        now == before.update(
            index,
            Block { addr: before[index].addr, size: before[index].size / 2, free: true },
        ).insert(
            index + 1,
            Block {
                addr: (before[index].addr + before[index].size / 2) as usize,
                size: before[index].size / 2,
                free: true,
            },
        ),
    ensures
        heap_ok_but(now, start, span, index),
{
    let limit = start + span;
    let block = before[index];
    let half: usize = block.size / 2;
    assert(block_ok(block));
    assert(within(block, start as int, limit));
    lemma_halves(block.addr, block.size, half, (block.addr + half) as usize);
    assert forall|j: int| 0 <= j < now.len() implies block_ok(#[trigger] now[j]) by {
        if j < index {
            assert(now[j] == before[j]);
        } else if j > index + 1 {
            assert(now[j] == before[j - 1]);
        }
    }
    assert forall|j: int| 0 <= j < now.len() - 1 implies #[trigger] follows(now, j) by {
        if j < index {
            assert(follows(before, j));
        } else if j > index {
            assert(follows(before, j - 1));
        }
    }
    assert forall|j: int| 0 <= j < now.len() implies within(
        #[trigger] now[j],
        start as int,
        limit,
    ) by {
        if j < index {
            assert(within(before[j], start as int, limit));
        } else if j > index + 1 {
            assert(within(before[j - 1], start as int, limit));
        }
    }
    assert(now.last().addr + now.last().size == limit) by {
        if index + 1 == now.len() - 1 {
            assert(before.last() == block);
        } else {
            assert(now.last() == before.last());
        }
    }
    assert forall|j: int|
        0 <= j < now.len() - 1 && j != index && j + 1 != index implies #[trigger] apart(
        now,
        j,
    ) by {
        if j < index {
            assert(apart(before, j));
        } else if j > index + 1 {
            assert(apart(before, j - 1));
        }
    }
}

/// Marking block `index` live leaves no free buddies next to it.
proof fn lemma_taken(before: Seq<Block>, now: Seq<Block>, start: usize, span: usize, index: int)
    requires
        heap_ok_but(before, start, span, index),
        0 <= index < before.len(),
        now == before.update(
            index,
            Block { addr: before[index].addr, size: before[index].size, free: false },
        ),
    ensures
        heap_ok(now, start, span),
{
    let limit = start + span;
    assert forall|j: int| 0 <= j < now.len() implies block_ok(#[trigger] now[j]) by {
        assert(block_ok(before[j]));
    }
    assert forall|j: int| 0 <= j < now.len() - 1 implies #[trigger] follows(now, j) by {
        assert(follows(before, j));
    }
    assert forall|j: int| 0 <= j < now.len() implies within(
        #[trigger] now[j],
        start as int,
        limit,
    ) by {
        assert(within(before[j], start as int, limit));
    }
    assert forall|j: int| 0 <= j < now.len() - 1 implies #[trigger] apart(now, j) by {
        if j != index && j + 1 != index {
            assert(apart(before, j));
        }
    }
}

/// Marking block `index` free keeps the heap in order but for the pairs that
/// hold it.
proof fn lemma_freed(before: Seq<Block>, now: Seq<Block>, start: usize, span: usize, index: int)
    requires
        heap_ok(before, start, span),
        0 <= index < before.len(),
        now == before.update(
            index,
            Block { addr: before[index].addr, size: before[index].size, free: true },
        ),
    ensures
        heap_ok_but(now, start, span, index),
{
    let limit = start + span;
    assert forall|j: int| 0 <= j < now.len() implies block_ok(#[trigger] now[j]) by {
        assert(block_ok(before[j]));
    }
    assert forall|j: int| 0 <= j < now.len() - 1 implies #[trigger] follows(now, j) by {
        assert(follows(before, j));
    }
    assert forall|j: int| 0 <= j < now.len() implies within(
        #[trigger] now[j],
        start as int,
        limit,
    ) by {
        assert(within(before[j], start as int, limit));
    }
    assert forall|j: int|
        0 <= j < now.len() - 1 && j != index && j + 1 != index implies #[trigger] apart(
        now,
        j,
    ) by {
        assert(apart(before, j));
    }
}

/// The first block that fits is the one that `fit_index` names.
proof fn lemma_fit_index_found(blocks: Seq<Block>, index: int, need: nat)
    requires
        0 <= index < blocks.len(),
        fit_index(blocks.take(index), need) == index,
        blocks[index].free,
        blocks[index].size >= need,
    ensures
        fit_index(blocks, need) == index,
    decreases blocks.len(),
{
    if index == blocks.len() - 1 {
        assert(blocks.drop_last() =~= blocks.take(index));
    } else {
        assert(blocks.drop_last().take(index) =~= blocks.take(index));
        lemma_fit_index_found(blocks.drop_last(), index, need);
    }
}

/// The first live block at an address is the one that `live_index` names.
proof fn lemma_live_index_found(blocks: Seq<Block>, index: int, address: usize)
    requires
        0 <= index < blocks.len(),
        live_index(blocks.take(index), address) == index,
        !blocks[index].free,
        blocks[index].addr + HEADER_SIZE == address,
    ensures
        live_index(blocks, address) == index,
    decreases blocks.len(),
{
    if index == blocks.len() - 1 {
        assert(blocks.drop_last() =~= blocks.take(index));
    } else {
        assert(blocks.drop_last().take(index) =~= blocks.take(index));
        lemma_live_index_found(blocks.drop_last(), index, address);
    }
}

/// The lowest part of a split block starts where the block started and is
/// as free as the block was.
proof fn lemma_split_block_head(block: Block, need: nat)
    ensures
        split_block(block, need).len() >= 1,
        split_block(block, need)[0].addr == block.addr,
        split_block(block, need)[0].free == block.free,
    decreases block.size,
{
    if block.size / 2 > need {
        lemma_split_block_head(
            Block { addr: block.addr, size: block.size / 2, free: block.free },
            need,
        );
    }
}

/// The sizes of the first `count` blocks sum to no more than all sizes.
proof fn lemma_total_size_prefix(blocks: Seq<Block>, count: int)
    requires
        0 <= count <= blocks.len(),
    ensures
        total_size(blocks.take(count)) <= total_size(blocks),
    decreases blocks.len(),
{
    if count == blocks.len() {
        assert(blocks.take(count) =~= blocks);
    } else {
        assert(blocks.drop_last().take(count) =~= blocks.take(count));
        lemma_total_size_prefix(blocks.drop_last(), count);
    }
}

/// Blocks that lie one behind the other from `start` to `limit` have sizes
/// that sum to `limit - start`.
pub proof fn lemma_total_size(blocks: Seq<Block>, start: int, limit: int)
    requires
        contiguous(blocks, start, limit),
    ensures
        total_size(blocks) == limit - start,
    decreases blocks.len(),
{
    let shorter = blocks.drop_last();
    if blocks.len() > 1 {
        let middle = blocks.last().addr as int;
        assert(follows(blocks, blocks.len() - 2));
        assert forall|j: int| 0 <= j < shorter.len() - 1 implies #[trigger] follows(
            shorter,
            j,
        ) by {
            assert(follows(blocks, j));
        }
        assert forall|j: int| 0 <= j < shorter.len() implies within(
            #[trigger] shorter[j],
            start,
            middle,
        ) by {
            assert(within(blocks[j], start, limit));
            lemma_block_before(blocks, j, blocks.len() - 1);
        }
        lemma_total_size(shorter, start, middle);
    } else {
        assert(total_size(shorter) == 0);
    }
}

/// In blocks that lie one behind the other, an earlier block ends no later
/// than a later one starts.
proof fn lemma_block_before(blocks: Seq<Block>, first: int, second: int)
    requires
        forall|j: int| 0 <= j < blocks.len() - 1 ==> #[trigger] follows(blocks, j),
        0 <= first < second < blocks.len(),
    ensures
        blocks[first].addr + blocks[first].size <= blocks[second].addr,
    decreases second - first,
{
    assert(follows(blocks, first));
    if first + 1 < second {
        lemma_block_before(blocks, first + 1, second);
    }
}

/// What is live and what is free never adds up to more than the heap: the
/// live blocks, headers included, and the bytes on offer in free blocks fit
/// into the heap's length.
pub proof fn lemma_heap_accounting(heap: BuddyAllocator)
    requires
        heap.wf(),
    ensures
        live_bytes(heap.blocks@) + free_bytes(heap.blocks@) <= heap.end - heap.start,
        live_bytes(heap.blocks@) + free_bytes(heap.blocks@) <= total_size(heap.blocks@),
        total_size(heap.blocks@) == heap.span(),
{
    lemma_total_size(heap.blocks@, heap.start as int, heap.start + heap.span());
    lemma_bytes_within_total(heap.blocks@);
}

/// Live and free bytes together are no more than the blocks' sizes.
proof fn lemma_bytes_within_total(blocks: Seq<Block>)
    requires
        forall|j: int| 0 <= j < blocks.len() ==> block_ok(#[trigger] blocks[j]),
    ensures
        live_bytes(blocks) + free_bytes(blocks) <= total_size(blocks),
    decreases blocks.len(),
{
    if blocks.len() > 0 {
        assert(block_ok(blocks.last()));
        assert forall|j: int| 0 <= j < blocks.drop_last().len() implies block_ok(
            #[trigger] blocks.drop_last()[j],
        ) by {
            assert(block_ok(blocks[j]));
        }
        lemma_bytes_within_total(blocks.drop_last());
    }
}

/// A heap with no live block is the heap as it was made: one free block that
/// spans all of it. So once every live block has been freed, the free bytes
/// are what they were at the start.
pub proof fn lemma_no_live_block_is_initial(heap: BuddyAllocator)
    requires
        heap.wf(),
        forall|j: int| 0 <= j < heap.blocks@.len() ==> (#[trigger] heap.blocks@[j]).free,
    ensures
        heap.blocks@ == seq![
            Block { addr: heap.start, size: heap.span() as usize, free: true },
        ],
        free_bytes(heap.blocks@) == heap.span() - HEADER_SIZE,
{
    let blocks = heap.blocks@;
    let start = heap.start;
    let span = heap.span() as usize;
    let limit = start + span;
    if blocks.len() >= 2 {
        let m = smallest_block(blocks);
        let block = blocks[m];
        assert(block_ok(block));
        assert(within(block, start as int, limit));
        if block.addr & block.size == 0 {
            if m == blocks.len() - 1 {
                assert(follows(blocks, 0));
                lemma_block_before(blocks, 0, m);
                assert(block_ok(blocks[0]));
                lemma_last_is_no_lower_buddy(block.addr, block.size, start, span, limit as usize);
            } else {
                let next = blocks[m + 1];
                assert(follows(blocks, m));
                assert(block_ok(next));
                lemma_behind_lower_buddy(block.addr, block.size, next.addr, next.size);
                assert(apart(blocks, m));
            }
        } else {
            if m == 0 {
                assert(follows(blocks, 0));
                assert(block_ok(blocks[1]));
                assert(within(blocks[1], start as int, limit));
                lemma_first_is_lower_buddy(start, block.size, span);
            } else {
                let previous = blocks[m - 1];
                assert(follows(blocks, m - 1));
                assert(block_ok(previous));
                lemma_before_upper_buddy(block.addr, block.size, previous.addr, previous.size);
                assert(apart(blocks, m - 1));
            }
        }
        assert(false);
    }
    assert(blocks =~= seq![Block { addr: start, size: span, free: true }]);
    assert(blocks.drop_last() =~= Seq::<Block>::empty());
    assert(free_bytes(blocks.drop_last()) == 0);
}

/// The index of a block that is no larger than any other.
proof fn smallest_block(blocks: Seq<Block>) -> (m: int)
    requires
        blocks.len() >= 1,
    ensures
        0 <= m < blocks.len(),
        forall|j: int| 0 <= j < blocks.len() ==> blocks[m].size <= (#[trigger] blocks[j]).size,
    decreases blocks.len(),
{
    if blocks.len() == 1 {
        0
    } else {
        let shorter = blocks.drop_last();
        let before = smallest_block(shorter);
        assert forall|j: int| 0 <= j < shorter.len() implies blocks[before].size <= (
        #[trigger] blocks[j]).size by {
            assert(shorter[j] == blocks[j]);
        }
        if blocks.last().size < blocks[before].size {
            blocks.len() - 1
        } else {
            before
        }
    }
}

/// The block right behind a lower buddy, if it is no smaller, is as large.
proof fn lemma_behind_lower_buddy(addr: usize, size: usize, next: usize, next_size: usize)
    by (bit_vector)
    requires
        size != 0 && size & ((size - 1) as usize) == 0,
        next_size != 0 && next_size & ((next_size - 1) as usize) == 0,
        addr & ((size - 1) as usize) == 0,
        addr & size == 0,
        next == addr + size,
        next & ((next_size - 1) as usize) == 0,
        next_size >= size,
    ensures
        next_size == size,
{
}

/// The block right before an upper buddy, if it is no smaller, is as large,
/// and is the lower buddy.
proof fn lemma_before_upper_buddy(addr: usize, size: usize, previous: usize, previous_size: usize)
    by (bit_vector)
    requires
        size != 0 && size & ((size - 1) as usize) == 0,
        previous_size != 0 && previous_size & ((previous_size - 1) as usize) == 0,
        addr & ((size - 1) as usize) == 0,
        addr & size != 0,
        previous + previous_size == addr,
        previous & ((previous_size - 1) as usize) == 0,
        previous_size >= size,
    ensures
        previous_size == size,
        previous & size == 0,
{
}

/// A lower buddy that starts behind the heap's start does not end where the
/// heap's blocks end.
proof fn lemma_last_is_no_lower_buddy(
    addr: usize,
    size: usize,
    start: usize,
    span: usize,
    limit: usize,
)
    by (bit_vector)
    requires
        size != 0 && size & ((size - 1) as usize) == 0,
        span != 0 && span & ((span - 1) as usize) == 0,
        start & ((span - 1) as usize) == 0,
        addr & ((size - 1) as usize) == 0,
        addr & size == 0,
        addr > start,
        limit == start + span,
    ensures
        addr + size != limit,
{
}

/// The heap's first block, if it is smaller than the heap, is a lower buddy.
proof fn lemma_first_is_lower_buddy(start: usize, size: usize, span: usize)
    by (bit_vector)
    requires
        size != 0 && size & ((size - 1) as usize) == 0,
        span != 0 && span & ((span - 1) as usize) == 0,
        start & ((span - 1) as usize) == 0,
        size < span,
    ensures
        start & size == 0,
{
}

} // verus!
