use fajr_kernel::allocators::buddy_allocator::{Block, BuddyAllocator, HEADER_SIZE};
use fajr_kernel::allocators::first_fit_allocator::{Chunk, FirstFitAllocator};
use fajr_kernel::bits::largest_power_of_two;
use fajr_kernel::layout::Layout;

const HEAP: usize = 0x40_0000;
const KIB_64: usize = 64 * 1024;

fn layout(size: usize, align: usize) -> Layout {
    Layout::from_size_align(size, align).unwrap()
}

fn live_bytes(heap: &BuddyAllocator) -> usize {
    heap.blocks.iter().filter(|b| !b.free).map(|b| b.size).sum()
}

#[test]
fn buddy_starts_as_one_free_block() {
    let heap = BuddyAllocator::new(HEAP, KIB_64);
    assert_eq!(heap.blocks, vec![Block { addr: HEAP, size: KIB_64, free: true }]);
    assert_eq!(heap.calculate_free_bytes(), KIB_64 - HEADER_SIZE);
}

#[test]
fn buddy_takes_the_largest_power_of_two() {
    let heap = BuddyAllocator::new(HEAP, 100_000);
    assert_eq!(heap.blocks, vec![Block { addr: HEAP, size: 65_536, free: true }]);
    assert_eq!(heap.end, HEAP + 100_000);
    assert_eq!(largest_power_of_two(1), 1);
    assert_eq!(largest_power_of_two(4095), 2048);
    assert_eq!(largest_power_of_two(4096), 4096);
}

#[test]
fn buddy_split_and_merge() {
    let mut heap = BuddyAllocator::new(HEAP, KIB_64);
    let initial = heap.calculate_free_bytes();
    let pointer = heap.allocate(layout(24, 8)).unwrap();
    assert_eq!(pointer, HEAP + HEADER_SIZE);
    assert_eq!(heap.blocks[0], Block { addr: HEAP, size: 64, free: false });
    let sizes: Vec<usize> = heap.blocks.iter().map(|b| b.size).collect();
    assert_eq!(sizes, vec![64, 64, 128, 256, 512, 1024, 2048, 4096, 8192, 16384, 32768]);
    assert!(heap.blocks[1..].iter().all(|b| b.free));
    assert_eq!(heap.calculate_free_bytes(), KIB_64 - 64 - 10 * HEADER_SIZE);
    heap.dealloc(pointer);
    assert_eq!(heap.calculate_free_bytes(), initial);
    assert_eq!(heap.blocks.len(), 1);
}

#[test]
fn buddy_halves_only_while_a_half_is_larger_than_needed() {
    let mut heap = BuddyAllocator::new(HEAP, 256);
    heap.allocate(layout(16, 1)).unwrap();
    assert_eq!(heap.blocks[0], Block { addr: HEAP, size: 64, free: false });
    let mut heap = BuddyAllocator::new(HEAP, 256);
    heap.allocate(layout(15, 1)).unwrap();
    assert_eq!(heap.blocks[0], Block { addr: HEAP, size: 32, free: false });
    let mut heap = BuddyAllocator::new(HEAP, 256);
    heap.allocate(layout(240, 1)).unwrap();
    assert_eq!(heap.blocks, vec![Block { addr: HEAP, size: 256, free: false }]);
    let mut heap = BuddyAllocator::new(HEAP, 256);
    assert_eq!(heap.allocate(layout(241, 1)), None);
    assert_eq!(heap.blocks, vec![Block { addr: HEAP, size: 256, free: true }]);
}

#[test]
fn buddy_pads_the_request_to_its_alignment() {
    let mut heap = BuddyAllocator::new(HEAP, 1024);
    heap.allocate(layout(33, 64)).unwrap();
    assert_eq!(heap.blocks[0], Block { addr: HEAP, size: 128, free: false });
}

#[test]
fn buddy_does_not_join_a_block_with_a_split_buddy() {
    let mut heap = BuddyAllocator::new(HEAP, 256);
    let big = heap.allocate(layout(84, 1)).unwrap();
    let small = heap.allocate(layout(16, 1)).unwrap();
    let last = heap.allocate(layout(32, 1)).unwrap();
    assert_eq!((big, small, last), (HEAP + 16, HEAP + 128 + 16, HEAP + 192 + 16));
    heap.dealloc(small);
    heap.dealloc(big);
    assert_eq!(
        heap.blocks,
        vec![
            Block { addr: HEAP, size: 128, free: true },
            Block { addr: HEAP + 128, size: 64, free: true },
            Block { addr: HEAP + 192, size: 64, free: false },
        ]
    );
    assert!(live_bytes(&heap) + heap.calculate_free_bytes() <= 256);
    heap.dealloc(last);
    assert_eq!(heap.blocks, vec![Block { addr: HEAP, size: 256, free: true }]);
}

#[test]
fn buddy_accounts_for_every_byte() {
    let mut heap = BuddyAllocator::new(HEAP, KIB_64);
    let initial = heap.calculate_free_bytes();
    let mut live = Vec::new();
    for round in 0..40usize {
        if let Some(pointer) = heap.allocate(layout(17 * (round % 9) + 1, 8)) {
            live.push(pointer);
        }
        if round % 3 == 2 {
            let pointer = live.remove(round % live.len());
            heap.dealloc(pointer);
        }
        assert!(live_bytes(&heap) + heap.calculate_free_bytes() <= KIB_64);
        assert_eq!(heap.blocks.iter().map(|b| b.size).sum::<usize>(), KIB_64);
    }
    for pointer in live {
        heap.dealloc(pointer);
    }
    assert_eq!(heap.calculate_free_bytes(), initial);
    assert_eq!(heap.blocks, vec![Block { addr: HEAP, size: KIB_64, free: true }]);
}

#[test]
fn buddy_ignores_an_address_that_is_not_live() {
    let mut heap = BuddyAllocator::new(HEAP, 1024);
    let pointer = heap.allocate(layout(100, 1)).unwrap();
    let before = heap.blocks.clone();
    heap.dealloc(pointer + 8);
    heap.dealloc(3);
    assert_eq!(heap.blocks, before);
    heap.dealloc(pointer);
    heap.dealloc(pointer);
    assert_eq!(heap.blocks, vec![Block { addr: HEAP, size: 1024, free: true }]);
}

#[test]
fn first_fit_starts_as_one_free_block() {
    let heap = FirstFitAllocator::new(HEAP, 1000);
    assert_eq!(heap.free, vec![Chunk { addr: HEAP, size: 1000 }]);
    assert!(heap.live.is_empty());
    assert_eq!(heap.calculate_free_bytes(), 1000 - HEADER_SIZE);
}

#[test]
fn first_fit_cuts_the_tail_off() {
    let mut heap = FirstFitAllocator::new(HEAP, 1000);
    let pointer = heap.allocate(layout(24, 8)).unwrap();
    assert_eq!(pointer, HEAP + HEADER_SIZE);
    assert_eq!(heap.live, vec![Chunk { addr: HEAP, size: 40 }]);
    assert_eq!(heap.free, vec![Chunk { addr: HEAP + 40, size: 960 }]);
    assert_eq!(heap.calculate_free_bytes(), 960 - HEADER_SIZE);
}

#[test]
fn first_fit_takes_a_whole_block_when_the_rest_is_no_more_than_a_header() {
    let mut heap = FirstFitAllocator::new(HEAP, 72);
    let pointer = heap.allocate(layout(40, 1)).unwrap();
    assert_eq!(pointer, HEAP + HEADER_SIZE);
    assert_eq!(heap.live, vec![Chunk { addr: HEAP, size: 72 }]);
    assert!(heap.free.is_empty());
    assert_eq!(heap.allocate(layout(1, 1)), None);
    let mut heap = FirstFitAllocator::new(HEAP, 73);
    heap.allocate(layout(40, 1)).unwrap();
    assert_eq!(heap.live, vec![Chunk { addr: HEAP, size: 56 }]);
    assert_eq!(heap.free, vec![Chunk { addr: HEAP + 56, size: 17 }]);
}

#[test]
fn first_fit_fails_when_no_block_is_large_enough() {
    let mut heap = FirstFitAllocator::new(HEAP, 100);
    assert_eq!(heap.allocate(layout(85, 1)), None);
    assert_eq!(heap.free, vec![Chunk { addr: HEAP, size: 100 }]);
    assert!(heap.allocate(layout(84, 1)).is_some());
}

#[test]
fn first_fit_joins_neighbours_on_both_sides() {
    let mut heap = FirstFitAllocator::new(HEAP, 1000);
    let a = heap.allocate(layout(84, 1)).unwrap();
    let b = heap.allocate(layout(84, 1)).unwrap();
    let c = heap.allocate(layout(84, 1)).unwrap();
    assert_eq!((a, b, c), (HEAP + 16, HEAP + 116, HEAP + 216));
    assert_eq!(heap.free, vec![Chunk { addr: HEAP + 300, size: 700 }]);
    heap.dealloc(a);
    assert_eq!(
        heap.free,
        vec![Chunk { addr: HEAP + 300, size: 700 }, Chunk { addr: HEAP, size: 100 }]
    );
    heap.dealloc(c);
    assert_eq!(
        heap.free,
        vec![Chunk { addr: HEAP, size: 100 }, Chunk { addr: HEAP + 200, size: 800 }]
    );
    heap.dealloc(b);
    assert_eq!(heap.free, vec![Chunk { addr: HEAP, size: 1000 }]);
    assert!(heap.live.is_empty());
    assert_eq!(heap.calculate_free_bytes(), 1000 - HEADER_SIZE);
}

#[test]
fn first_fit_merge_reaches_a_fixed_point() {
    let mut heap = FirstFitAllocator::new(HEAP, 400);
    heap.free = vec![
        Chunk { addr: HEAP + 300, size: 100 },
        Chunk { addr: HEAP + 200, size: 100 },
        Chunk { addr: HEAP, size: 100 },
    ];
    heap.live = vec![Chunk { addr: HEAP + 100, size: 100 }];
    let joined = heap.merge(Chunk { addr: HEAP + 100, size: 100 });
    assert_eq!(joined, Chunk { addr: HEAP, size: 400 });
    assert!(heap.free.is_empty());
}

#[test]
fn first_fit_accounts_for_every_byte() {
    let mut heap = FirstFitAllocator::new(HEAP, KIB_64);
    let mut live = Vec::new();
    for round in 0..60usize {
        if let Some(pointer) = heap.allocate(layout(23 * (round % 7) + 1, 4)) {
            live.push(pointer);
        }
        if round % 4 == 3 {
            let pointer = live.remove(round % live.len());
            heap.dealloc(pointer);
        }
        let taken: usize = heap.live.iter().map(|c| c.size).sum();
        assert!(taken + heap.calculate_free_bytes() <= KIB_64);
        let spare: usize = heap.free.iter().map(|c| c.size).sum();
        assert_eq!(taken + spare, KIB_64);
    }
    for pointer in live {
        heap.dealloc(pointer);
    }
    assert_eq!(heap.free, vec![Chunk { addr: HEAP, size: KIB_64 }]);
}

#[test]
fn first_fit_ignores_an_address_that_is_not_live() {
    let mut heap = FirstFitAllocator::new(HEAP, 1000);
    let pointer = heap.allocate(layout(10, 1)).unwrap();
    let before = (heap.free.clone(), heap.live.clone());
    heap.dealloc(pointer + 1);
    heap.dealloc(0);
    assert_eq!((heap.free.clone(), heap.live.clone()), before);
}
