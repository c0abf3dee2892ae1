//! A first-fit allocator over one heap.
//!
//! Free blocks form a list, searched from its head; each block starts with a
//! header of `HEADER_SIZE` bytes. A block that is larger than asked for gives
//! its tail back to the list; a freed block is first joined with every free
//! block that touches it, then put behind the head of the list.

use crate::allocators::buddy_allocator::HEADER_SIZE;
use crate::layout::Layout;
use vstd::prelude::*;

verus! {

/// One block of the heap: where its header lies and how many bytes it spans,
/// header included.
#[derive(Debug, Clone, Copy, PartialEq, Eq, Structural)]
pub struct Chunk {
    pub addr: usize,
    pub size: usize,
}

/// The sum of the sizes of `chunks`.
pub open spec fn chunks_size(chunks: Seq<Chunk>) -> nat
    decreases chunks.len(),
{
    if chunks.len() == 0 {
        0
    } else {
        chunks_size(chunks.drop_last()) + chunks.last().size as nat
    }
}

/// The bytes that the free blocks `chunks` offer: each one's size less its
/// header.
pub open spec fn chunks_payload(chunks: Seq<Chunk>) -> nat
    decreases chunks.len(),
{
    if chunks.len() == 0 {
        0
    } else {
        chunks_payload(chunks.drop_last()) + (chunks.last().size - HEADER_SIZE) as nat
    }
}

/// The index of the first block of at least `need` bytes, or the number of
/// blocks where there is none.
pub open spec fn first_fit(chunks: Seq<Chunk>, need: nat) -> int
    decreases chunks.len(),
{
    if chunks.len() == 0 {
        0
    } else {
        let before = first_fit(chunks.drop_last(), need);
        if before < chunks.len() - 1 {
            before
        } else if chunks.last().size >= need {
            chunks.len() - 1
        } else {
            chunks.len() as int
        }
    }
}

/// The index of the first block whose payload starts at `address`, or the
/// number of blocks where there is none.
pub open spec fn payload_index(chunks: Seq<Chunk>, address: usize) -> int
    decreases chunks.len(),
{
    if chunks.len() == 0 {
        0
    } else {
        let before = payload_index(chunks.drop_last(), address);
        if before < chunks.len() - 1 {
            before
        } else if chunks.last().addr + HEADER_SIZE == address {
            chunks.len() - 1
        } else {
            chunks.len() as int
        }
    }
}

/// Whether a block of `size` bytes is cut when `need` bytes are taken from
/// it: only where the rest is more than a header.
pub open spec fn leaves_rest(size: usize, need: nat) -> bool {
    size - need > HEADER_SIZE
}

/// The part of `chunk` that a request for `need` bytes takes.
pub open spec fn taken_part(chunk: Chunk, need: nat) -> Chunk {
    if leaves_rest(chunk.size, need) {
        Chunk { addr: chunk.addr, size: need as usize }
    } else {
        chunk
    }
}

/// The free list after `need` bytes have been taken from block `index`: the
/// rest of the block stands where the block stood, or the block is gone.
pub open spec fn free_after_allocate(free: Seq<Chunk>, index: int, need: nat) -> Seq<Chunk> {
    let chunk = free[index];
    if leaves_rest(chunk.size, need) {
        free.update(
            index,
            Chunk { addr: (chunk.addr + need) as usize, size: (chunk.size - need) as usize },
        )
    } else {
        free.remove(index)
    }
}

/// Whether `first` ends where `second` starts.
pub open spec fn touches(first: Chunk, second: Chunk) -> bool {
    first.addr + first.size == second.addr
}

/// One walk over the free list from block `from` on: every block that
/// touches `joined` on either side leaves the list and becomes part of it.
pub open spec fn merge_pass(free: Seq<Chunk>, joined: Chunk, from: int) -> (Seq<Chunk>, Chunk)
    decreases free.len() - from,
{
    if 0 <= from < free.len() {
        let chunk = free[from];
        if touches(chunk, joined) {
            merge_pass(
                free.remove(from),
                Chunk { addr: chunk.addr, size: (chunk.size + joined.size) as usize },
                from,
            )
        } else if touches(joined, chunk) {
            merge_pass(
                free.remove(from),
                Chunk { addr: joined.addr, size: (joined.size + chunk.size) as usize },
                from,
            )
        } else {
            merge_pass(free, joined, from + 1)
        }
    } else {
        (free, joined)
    }
}

/// Walks over the free list until a walk joins nothing.
pub open spec fn merge_all(free: Seq<Chunk>, joined: Chunk) -> (Seq<Chunk>, Chunk)
    decreases free.len(),
{
    let pass = merge_pass(free, joined, 0);
    if pass.0.len() < free.len() {
        merge_all(pass.0, pass.1)
    } else {
        (free, joined)
    }
}

/// The free list once `joined` has been put behind its head.
pub open spec fn put_behind_head(free: Seq<Chunk>, joined: Chunk) -> Seq<Chunk> {
    if free.len() >= 1 {
        free.insert(1, joined)
    } else {
        seq![joined]
    }
}

/// The block lies between `start` and `end` and holds a header.
pub open spec fn chunk_ok(chunk: Chunk, start: int, end: int) -> bool {
    &&& chunk.size >= HEADER_SIZE
    &&& start <= chunk.addr
    &&& chunk.addr + chunk.size <= end
}

/// Every block lies between `start` and `end` and holds a header.
pub open spec fn chunks_ok(chunks: Seq<Chunk>, start: int, end: int) -> bool {
    forall|j: int| 0 <= j < chunks.len() ==> chunk_ok(#[trigger] chunks[j], start, end)
}

/// The heap from `start` to `end`: the free list, head first, and the
/// blocks that are handed out.
pub struct FirstFitAllocator {
    pub start: usize,
    pub end: usize,
    pub free: Vec<Chunk>,
    pub live: Vec<Chunk>,
}

impl FirstFitAllocator {
    /// Every block lies in the heap and holds a header, and the blocks' sizes
    /// add up to the heap's length.
    pub open spec fn wf(&self) -> bool {
        &&& self.start <= self.end
        &&& chunks_ok(self.free@, self.start as int, self.end as int)
        &&& chunks_ok(self.live@, self.start as int, self.end as int)
        &&& chunks_size(self.free@) + chunks_size(self.live@) == self.end - self.start
    }

    /// A heap of `heap_size` bytes at `heap_start` that is one free block.
    pub fn new(heap_start: usize, heap_size: usize) -> (r: FirstFitAllocator)
        requires
            heap_size >= HEADER_SIZE,
            heap_start + heap_size <= usize::MAX,
        ensures
            r.wf(),
            r.start == heap_start,
            r.end == heap_start + heap_size,
            r.free@ == seq![Chunk { addr: heap_start, size: heap_size }],
            r.live@ == Seq::<Chunk>::empty(),
    {
        let mut free: Vec<Chunk> = Vec::new();
        free.push(Chunk { addr: heap_start, size: heap_size });
        proof {
            assert(free@.drop_last() =~= Seq::<Chunk>::empty());
            assert(chunks_size(free@.drop_last()) == 0);
        }
        FirstFitAllocator { start: heap_start, end: heap_start + heap_size, free, live: Vec::new() }
    }

    /// The bytes that the free list offers.
    pub fn calculate_free_bytes(&self) -> (r: usize)
        requires
            self.wf(),
        ensures
            r == chunks_payload(self.free@),
    {
        let mut amount: usize = 0;
        let mut i: usize = 0;
        while i < self.free.len()
            invariant
                self.wf(),
                i <= self.free@.len(),
                amount == chunks_payload(self.free@.take(i as int)),
                amount <= chunks_size(self.free@.take(i as int)),
            decreases self.free@.len() - i,
        {
            proof {
                assert(self.free@.take(i + 1).drop_last() =~= self.free@.take(i as int));
                lemma_chunks_size_prefix(self.free@, i + 1);
                assert(chunk_ok(self.free@[i as int], self.start as int, self.end as int));
            }
            amount += self.free[i].size - HEADER_SIZE;
            i += 1;
        }
        proof {
            assert(self.free@.take(i as int) =~= self.free@);
        }
        amount
    }

    /// Takes the first free block that holds `layout` behind a header. Where
    /// the block is larger by more than a header, its tail stays in the list
    /// in its place; else the whole block is taken. Returns the address behind
    /// the header, or `None` where no free block is large enough.
    pub fn allocate(&mut self, layout: Layout) -> (r: Option<usize>)
        requires
            old(self).wf(),
            layout.wf(),
        ensures
            final(self).wf(),
            final(self).start == old(self).start,
            final(self).end == old(self).end,
            ({
                let need = HEADER_SIZE as nat + layout.padded_size();
                let index = first_fit(old(self).free@, need);
                if index < old(self).free@.len() {
                    &&& r == Some((old(self).free@[index].addr + HEADER_SIZE) as usize)
                    &&& final(self).free@ == free_after_allocate(old(self).free@, index, need)
                    &&& final(self).live@ == old(self).live@.push(
                        taken_part(old(self).free@[index], need),
                    )
                } else {
                    &&& r.is_none()
                    &&& final(self).free@ == old(self).free@
                    &&& final(self).live@ == old(self).live@
                }
            }),
    {
        let data_size: usize = layout.pad_to_align().size;
        let allocation_size: usize = HEADER_SIZE + data_size;
        let mut i: usize = 0;
        while i < self.free.len()
            invariant
                *self == *old(self),
                self.wf(),
                i <= self.free@.len(),
                allocation_size == HEADER_SIZE + layout.padded_size(),
                first_fit(self.free@.take(i as int), allocation_size as nat) == i,
            decreases self.free@.len() - i,
        {
            proof {
                assert(self.free@.take(i + 1).drop_last() =~= self.free@.take(i as int));
            }
            let chunk: Chunk = self.free[i];
            if chunk.size >= allocation_size {
                proof {
                    lemma_first_fit_found(self.free@, i as int, allocation_size as nat);
                    assert(chunk_ok(chunk, self.start as int, self.end as int));
                }
                let taken: Chunk;
                if chunk.size - allocation_size > HEADER_SIZE {
                    let rest = Chunk {
                        addr: chunk.addr + allocation_size,
                        size: chunk.size - allocation_size,
                    };
                    taken = Chunk { addr: chunk.addr, size: allocation_size };
                    self.free[i] = rest;
                    proof {
                        lemma_chunks_size_update(old(self).free@, i as int, rest);
                    }
                } else {
                    taken = chunk;
                    self.free.remove(i);
                    proof {
                        lemma_chunks_size_remove(old(self).free@, i as int);
                    }
                }
                self.live.push(taken);
                proof {
                    assert(self.live@.drop_last() =~= old(self).live@);
                    assert(chunks_ok(self.free@, self.start as int, self.end as int)) by {
                        assert forall|j: int| 0 <= j < self.free@.len() implies chunk_ok(
                            #[trigger] self.free@[j],
                            self.start as int,
                            self.end as int,
                        ) by {
                            if chunk.size - allocation_size > HEADER_SIZE {
                                if j != i {
                                    assert(self.free@[j] == old(self).free@[j]);
                                }
                            } else if j < i {
                                assert(self.free@[j] == old(self).free@[j]);
                            } else {
                                assert(self.free@[j] == old(self).free@[j + 1]);
                            }
                        }
                    }
                    assert(chunks_ok(self.live@, self.start as int, self.end as int)) by {
                        assert forall|j: int| 0 <= j < self.live@.len() implies chunk_ok(
                            #[trigger] self.live@[j],
                            self.start as int,
                            self.end as int,
                        ) by {
                            if j < old(self).live@.len() {
                                assert(self.live@[j] == old(self).live@[j]);
                            }
                        }
                    }
                }
                return Some(chunk.addr + HEADER_SIZE);
            }
            i += 1;
        }
        proof {
            assert(self.free@.take(i as int) =~= self.free@);
        }
        None
    }

    /// Joins `joined` with every free block that touches it, walking over the
    /// list again until a walk joins nothing, and returns what it has become.
    /// The blocks that were joined have left the list.
    pub fn merge(&mut self, joined: Chunk) -> (r: Chunk)
        requires
            old(self).start <= old(self).end,
            chunks_ok(old(self).free@, old(self).start as int, old(self).end as int),
            chunk_ok(joined, old(self).start as int, old(self).end as int),
        ensures
            final(self).start == old(self).start,
            final(self).end == old(self).end,
            final(self).live@ == old(self).live@,
            (final(self).free@, r) == merge_all(old(self).free@, joined),
            chunks_ok(final(self).free@, final(self).start as int, final(self).end as int),
            chunk_ok(r, final(self).start as int, final(self).end as int),
            chunks_size(final(self).free@) + r.size == chunks_size(old(self).free@) + joined.size,
            forall|j: int|
                0 <= j < final(self).free@.len() ==> !touches(#[trigger] final(self).free@[j], r)
                    && !touches(r, final(self).free@[j]),
    {
        let mut result: Chunk = joined;
        loop
            invariant
                self.start == old(self).start,
                self.end == old(self).end,
                self.start <= self.end,
                self.live@ == old(self).live@,
                chunks_ok(self.free@, self.start as int, self.end as int),
                chunk_ok(result, self.start as int, self.end as int),
                merge_all(self.free@, result) == merge_all(old(self).free@, joined),
                chunks_size(self.free@) + result.size == chunks_size(old(self).free@)
                    + joined.size,
            ensures
                self.start == old(self).start,
                self.end == old(self).end,
                self.live@ == old(self).live@,
                (self.free@, result) == merge_all(old(self).free@, joined),
                chunks_ok(self.free@, self.start as int, self.end as int),
                chunk_ok(result, self.start as int, self.end as int),
                chunks_size(self.free@) + result.size == chunks_size(old(self).free@)
                    + joined.size,
                forall|j: int|
                    0 <= j < self.free@.len() ==> !touches(#[trigger] self.free@[j], result)
                        && !touches(result, self.free@[j]),
            decreases self.free@.len(),
        {
            let ghost pass_free = self.free@;
            let ghost pass_result = result;
            let mut merged_at_all: bool = false;
            let mut j: usize = 0;
            while j < self.free.len()
                invariant
                    self.start == old(self).start,
                    self.end == old(self).end,
                    self.start <= self.end,
                    self.live@ == old(self).live@,
                    j <= self.free@.len(),
                    chunks_ok(self.free@, self.start as int, self.end as int),
                    chunk_ok(result, self.start as int, self.end as int),
                    merge_pass(self.free@, result, j as int) == merge_pass(
                        pass_free,
                        pass_result,
                        0,
                    ),
                    chunks_size(self.free@) + result.size == chunks_size(old(self).free@)
                        + joined.size,
                    merged_at_all <==> self.free@.len() < pass_free.len(),
                    !merged_at_all ==> self.free@ == pass_free && result == pass_result,
                    !merged_at_all ==> forall|k: int|
                        0 <= k < j ==> !touches(#[trigger] self.free@[k], result) && !touches(
                            result,
                            self.free@[k],
                        ),
                    self.free@.len() <= pass_free.len(),
                decreases self.free@.len() - j,
            {
                let chunk: Chunk = self.free[j];
                let ghost before = self.free@;
                proof {
                    assert(chunk_ok(chunk, self.start as int, self.end as int));
                }
                if chunk.addr + chunk.size == result.addr {
                    result = Chunk { addr: chunk.addr, size: chunk.size + result.size };
                    self.free.remove(j);
                    merged_at_all = true;
                    proof {
                        lemma_chunks_size_remove(before, j as int);
                        lemma_chunks_ok_remove(before, j as int, self.start as int, self.end as int);
                    }
                } else if result.addr + result.size == chunk.addr {
                    result = Chunk { addr: result.addr, size: result.size + chunk.size };
                    self.free.remove(j);
                    merged_at_all = true;
                    proof {
                        lemma_chunks_size_remove(before, j as int);
                        lemma_chunks_ok_remove(before, j as int, self.start as int, self.end as int);
                    }
                } else {
                    j += 1;
                }
            }
            proof {
                assert(merge_pass(self.free@, result, j as int) == (self.free@, result));
            }
            if !merged_at_all {
                break ;
            }
        }
        result
    }

    /// Frees the live block whose payload starts at `address`: joins it with
    /// the free blocks that touch it and puts the result behind the head of
    /// the free list. An address that is no live block's changes nothing.
    pub fn dealloc(&mut self, address: usize)
        requires
            old(self).wf(),
        ensures
            final(self).wf(),
            final(self).start == old(self).start,
            final(self).end == old(self).end,
            ({
                let index = payload_index(old(self).live@, address);
                if index < old(self).live@.len() {
                    let merged = merge_all(old(self).free@, old(self).live@[index]);
                    &&& final(self).live@ == old(self).live@.remove(index)
                    &&& final(self).free@ == put_behind_head(merged.0, merged.1)
                } else {
                    &&& final(self).live@ == old(self).live@
                    &&& final(self).free@ == old(self).free@
                }
            }),
    {
        let mut i: usize = 0;
        while i < self.live.len()
            invariant
                *self == *old(self),
                self.wf(),
                i <= self.live@.len(),
                payload_index(self.live@.take(i as int), address) == i,
            decreases self.live@.len() - i,
        {
            proof {
                assert(self.live@.take(i + 1).drop_last() =~= self.live@.take(i as int));
            }
            let chunk: Chunk = self.live[i];
            if address >= HEADER_SIZE && chunk.addr == address - HEADER_SIZE {
                proof {
                    lemma_payload_index_found(self.live@, i as int, address);
                    assert(chunk_ok(chunk, self.start as int, self.end as int));
                    lemma_chunks_size_remove(self.live@, i as int);
                    lemma_chunks_ok_remove(self.live@, i as int, self.start as int, self.end as int);
                }
                self.live.remove(i);
                let header: Chunk = self.merge(chunk);
                let ghost merged = self.free@;
                if self.free.len() >= 1 {
                    self.free.insert(1, header);
                } else {
                    self.free.push(header);
                }
                proof {
                    assert(self.free@ =~= put_behind_head(merged, header));
                    lemma_chunks_size_insert(merged, if merged.len() >= 1 {
                        1
                    } else {
                        0
                    }, header);
                    assert(self.free@ =~= merged.insert(if merged.len() >= 1 {
                        1
                    } else {
                        0
                    }, header));
                    lemma_chunks_ok_insert(merged, if merged.len() >= 1 {
                        1
                    } else {
                        0
                    }, header, self.start as int, self.end as int);
                }
                return ;
            }
            i += 1;
        }
        proof {
            assert(self.live@.take(i as int) =~= self.live@);
        }
    }
}

/// What is live and what is free never adds up to more than the heap: the
/// live blocks, headers included, and the bytes on offer in the free list fit
/// into the heap's length.
pub proof fn lemma_heap_accounting(heap: FirstFitAllocator)
    requires
        heap.wf(),
    ensures
        chunks_size(heap.live@) + chunks_payload(heap.free@) <= heap.end - heap.start,
{
    lemma_payload_within_size(heap.free@, heap.start as int, heap.end as int);
}

/// Free blocks offer no more bytes than they span.
proof fn lemma_payload_within_size(chunks: Seq<Chunk>, start: int, end: int)
    requires
        chunks_ok(chunks, start, end),
    ensures
        chunks_payload(chunks) <= chunks_size(chunks),
    decreases chunks.len(),
{
    if chunks.len() > 0 {
        assert(chunk_ok(chunks.last(), start, end));
        assert forall|j: int| 0 <= j < chunks.drop_last().len() implies chunk_ok(
            #[trigger] chunks.drop_last()[j],
            start,
            end,
        ) by {
            assert(chunk_ok(chunks[j], start, end));
        }
        lemma_payload_within_size(chunks.drop_last(), start, end);
    }
}

/// The first block that fits is the one that `first_fit` names.
proof fn lemma_first_fit_found(chunks: Seq<Chunk>, index: int, need: nat)
    requires
        0 <= index < chunks.len(),
        first_fit(chunks.take(index), need) == index,
        chunks[index].size >= need,
    ensures
        first_fit(chunks, need) == index,
    decreases chunks.len(),
{
    if index == chunks.len() - 1 {
        assert(chunks.drop_last() =~= chunks.take(index));
    } else {
        assert(chunks.drop_last().take(index) =~= chunks.take(index));
        lemma_first_fit_found(chunks.drop_last(), index, need);
    }
}

/// The first block with its payload at an address is the one that
/// `payload_index` names.
proof fn lemma_payload_index_found(chunks: Seq<Chunk>, index: int, address: usize)
    requires
        0 <= index < chunks.len(),
        payload_index(chunks.take(index), address) == index,
        chunks[index].addr + HEADER_SIZE == address,
    ensures
        payload_index(chunks, address) == index,
    decreases chunks.len(),
{
    if index == chunks.len() - 1 {
        assert(chunks.drop_last() =~= chunks.take(index));
    } else {
        assert(chunks.drop_last().take(index) =~= chunks.take(index));
        lemma_payload_index_found(chunks.drop_last(), index, address);
    }
}

/// The sizes of the first `count` blocks sum to no more than all sizes.
proof fn lemma_chunks_size_prefix(chunks: Seq<Chunk>, count: int)
    requires
        0 <= count <= chunks.len(),
    ensures
        chunks_size(chunks.take(count)) <= chunks_size(chunks),
    decreases chunks.len(),
{
    if count == chunks.len() {
        assert(chunks.take(count) =~= chunks);
    } else {
        assert(chunks.drop_last().take(count) =~= chunks.take(count));
        lemma_chunks_size_prefix(chunks.drop_last(), count);
    }
}

/// Taking a block out takes its size out of the sum.
proof fn lemma_chunks_size_remove(chunks: Seq<Chunk>, index: int)
    requires
        0 <= index < chunks.len(),
    ensures
        chunks_size(chunks.remove(index)) == chunks_size(chunks) - chunks[index].size,
    decreases chunks.len(),
{
    if index == chunks.len() - 1 {
        assert(chunks.remove(index) =~= chunks.drop_last());
    } else {
        assert(chunks.remove(index).drop_last() =~= chunks.drop_last().remove(index));
        assert(chunks.remove(index).last() == chunks.last());
        lemma_chunks_size_remove(chunks.drop_last(), index);
    }
}

/// Putting a block in adds its size to the sum.
proof fn lemma_chunks_size_insert(chunks: Seq<Chunk>, index: int, chunk: Chunk)
    requires
        0 <= index <= chunks.len(),
    ensures
        chunks_size(chunks.insert(index, chunk)) == chunks_size(chunks) + chunk.size,
    decreases chunks.len(),
{
    if index == chunks.len() {
        assert(chunks.insert(index, chunk).drop_last() =~= chunks);
    } else {
        assert(chunks.insert(index, chunk).drop_last() =~= chunks.drop_last().insert(
            index,
            chunk,
        ));
        assert(chunks.insert(index, chunk).last() == chunks.last());
        lemma_chunks_size_insert(chunks.drop_last(), index, chunk);
    }
}

/// Replacing a block replaces its size in the sum.
proof fn lemma_chunks_size_update(chunks: Seq<Chunk>, index: int, chunk: Chunk)
    requires
        0 <= index < chunks.len(),
    ensures
        chunks_size(chunks.update(index, chunk)) == chunks_size(chunks) - chunks[index].size
            + chunk.size,
    decreases chunks.len(),
{
    if index == chunks.len() - 1 {
        assert(chunks.update(index, chunk).drop_last() =~= chunks.drop_last());
    } else {
        assert(chunks.update(index, chunk).drop_last() =~= chunks.drop_last().update(
            index,
            chunk,
        ));
        lemma_chunks_size_update(chunks.drop_last(), index, chunk);
    }
}

/// Taking a block out leaves the others in order.
proof fn lemma_chunks_ok_remove(chunks: Seq<Chunk>, index: int, start: int, end: int)
    requires
        0 <= index < chunks.len(),
        chunks_ok(chunks, start, end),
    ensures
        chunks_ok(chunks.remove(index), start, end),
{
    assert forall|j: int| 0 <= j < chunks.remove(index).len() implies chunk_ok(
        #[trigger] chunks.remove(index)[j],
        start,
        end,
    ) by {
        if j < index {
            assert(chunk_ok(chunks[j], start, end));
        } else {
            assert(chunk_ok(chunks[j + 1], start, end));
        }
    }
}

/// Putting a block that is in order in leaves all in order.
proof fn lemma_chunks_ok_insert(chunks: Seq<Chunk>, index: int, chunk: Chunk, start: int, end: int)
    requires
        0 <= index <= chunks.len(),
        chunks_ok(chunks, start, end),
        chunk_ok(chunk, start, end),
    ensures
        chunks_ok(chunks.insert(index, chunk), start, end),
{
    assert forall|j: int| 0 <= j < chunks.insert(index, chunk).len() implies chunk_ok(
        #[trigger] chunks.insert(index, chunk)[j],
        start,
        end,
    ) by {
        if j < index {
            assert(chunk_ok(chunks[j], start, end));
        } else if j > index {
            assert(chunk_ok(chunks[j - 1], start, end));
        }
    }
}

} // verus!
