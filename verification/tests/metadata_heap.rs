use buddy_system_allocator::{AllocError, InitError, Layout, MetadataHeap, PageOrder};
use std::cmp::min;

/// The first page boundary in a buffer that is a page longer than needed.
fn page_aligned(space: &[u8]) -> usize {
    let start = space.as_ptr() as usize;
    (start + 4095) / 4096 * 4096
}

fn layout(size: usize, align: usize) -> Layout {
    Layout::from_size_align(size, align).unwrap()
}

/// Alloc 64 bytes, dealloc, verify stats reset.
fn conformance_alloc_dealloc_round_trip(mut heap: MetadataHeap<32, 3>, start: usize, size: usize) {
    heap.try_init(start, size).unwrap();
    assert!(heap.stats_total_bytes() > 0);
    let layout = layout(64, 1);
    let ptr = heap.allocate(layout).unwrap();
    assert!(heap.stats_alloc_user() > 0);
    assert!(heap.stats_alloc_actual() > 0);
    heap.dealloc(ptr, layout);
    assert_eq!(heap.stats_alloc_user(), 0);
    assert_eq!(heap.stats_alloc_actual(), 0);
}

/// Alloc 8, 64, 256, 1024 bytes, dealloc all, stats=0.
fn conformance_alloc_multiple_sizes(mut heap: MetadataHeap<32, 3>, start: usize, size: usize) {
    heap.try_init(start, size).unwrap();

    let sizes: [usize; 4] = [8, 64, 256, 1024];
    let mut allocs: Vec<(usize, Layout)> = Vec::new();

    let mut expected_user: usize = 0;
    for sz in sizes {
        let layout = layout(sz, 1);
        let ptr = heap.allocate(layout).unwrap();
        expected_user += sz;
        assert_eq!(heap.stats_alloc_user(), expected_user);
        allocs.push((ptr, layout));
    }

    for (ptr, layout) in allocs {
        heap.dealloc(ptr, layout);
    }

    assert_eq!(heap.stats_alloc_user(), 0);
    assert_eq!(heap.stats_alloc_actual(), 0);
}

/// Exhaust the heap, verify next alloc fails.
fn conformance_oom(mut heap: MetadataHeap<32, 3>, start: usize, size: usize) {
    heap.try_init(start, size).unwrap();

    let layout = layout(1, 1);
    let mut count: usize = 0;
    let mut allocs: Vec<usize> = Vec::new();

    while let Ok(ptr) = heap.allocate(layout) {
        count += 1;
        allocs.push(ptr);
    }

    assert!(count > 0, "should have allocated at least one block");
    assert!(heap.allocate(layout).is_err());

    for ptr in allocs {
        heap.dealloc(ptr, layout);
    }
}

/// Alloc two buddies, free both, verify they merge (next alloc of double size succeeds).
fn conformance_merge_after_free(mut heap: MetadataHeap<32, 3>, start: usize, size: usize) {
    heap.try_init(start, size).unwrap();

    let layout_64 = layout(64, 1);
    let addr1 = heap.allocate(layout_64).unwrap();
    let addr2 = heap.allocate(layout_64).unwrap();

    // Two consecutive allocs of the same order from a fresh heap are buddies.
    assert_eq!(addr1 ^ addr2, 64, "expected buddy addresses differing by 64");

    heap.dealloc(addr1, layout_64);
    heap.dealloc(addr2, layout_64);

    // Now a 128-byte alloc should succeed (the two buddies merged).
    let layout_128 = layout(128, 1);
    let addr3 = heap.allocate(layout_128).unwrap();

    // The returned address should be the lower buddy address.
    assert_eq!(addr3, min(addr1, addr2));

    heap.dealloc(addr3, layout_128);
}

#[test]
fn test_pages_alloc_dealloc_counts() {
    let mut heap = MetadataHeap::<8, 3>::empty();
    let buf = vec![0u8; 65536];
    let start = buf.as_ptr() as usize;
    heap.try_init(start, 65536).expect("init failed");

    let counts_before = heap.free_block_counts();

    let r1 = heap.alloc_pages(PageOrder(3)).expect("alloc order 3");
    let r2 = heap.alloc_pages(PageOrder(3)).expect("alloc order 3");
    let r3 = heap.alloc_pages(PageOrder(4)).expect("alloc order 4");
    let r4 = heap.alloc_pages(PageOrder(5)).expect("alloc order 5");

    // Sanity: free blocks should have changed (at least one order different).
    let counts_after = heap.free_block_counts();
    assert_ne!(counts_before, counts_after, "counts unchanged after alloc");

    heap.dealloc_pages(r1);
    heap.dealloc_pages(r2);
    heap.dealloc_pages(r3);
    heap.dealloc_pages(r4);

    let counts_restored = heap.free_block_counts();
    assert_eq!(counts_before, counts_restored, "counts not restored after dealloc");
}

#[test]
fn test_alloc_pages_invalid_order() {
    let mut heap = MetadataHeap::<8, 3>::empty();
    let buf = vec![0u8; 65536];
    let start = buf.as_ptr() as usize;
    heap.try_init(start, 65536).expect("init failed");

    assert!(heap.alloc_pages(PageOrder(2)).is_err(), "order 2 should be too small");
    assert!(heap.alloc_pages(PageOrder(8)).is_err(), "order 8 should be too large");
}

#[test]
fn test_alloc_pages_no_memory() {
    let mut heap = MetadataHeap::<8, 3>::empty();
    let buf = vec![0u8; 256];
    let start = buf.as_ptr() as usize;
    if heap.try_init(start, 256).is_ok() {
        let _ = heap.alloc_pages(PageOrder(7));
        let _ = heap.alloc_pages(PageOrder(7));
        assert!(heap.alloc_pages(PageOrder(7)).is_err(), "should be OOM");
    }
}

#[test]
fn test_conformance_alloc_dealloc_round_trip_mh() {
    const N: usize = 4096;
    let space = vec![0u8; 2 * N];
    conformance_alloc_dealloc_round_trip(MetadataHeap::<32, 3>::empty(), page_aligned(&space), N);
}

#[test]
fn test_conformance_alloc_multiple_sizes_mh() {
    const N: usize = 32768;
    let space = vec![0u8; 2 * N];
    conformance_alloc_multiple_sizes(MetadataHeap::<32, 3>::empty(), page_aligned(&space), N);
}

#[test]
fn test_conformance_oom_mh() {
    const N: usize = 256;
    let space = vec![0u8; N + 4096];
    conformance_oom(MetadataHeap::<32, 3>::empty(), page_aligned(&space), N);
}

#[test]
fn test_conformance_merge_after_free_mh() {
    const N: usize = 4096;
    let space = vec![0u8; 2 * N];
    conformance_merge_after_free(MetadataHeap::<32, 3>::empty(), page_aligned(&space), N);
}

#[test]
fn test_metadata_heap_init_too_small() {
    const N: usize = 7;
    let space = vec![0u8; N + 4096];
    let start = page_aligned(&space);
    let mut heap = MetadataHeap::<32, 3>::empty();
    let result = heap.try_init(start, N);
    match result {
        Err(InitError::TooSmall) => {} // expected
        other => panic!("expected Err(TooSmall), got {other:?}"),
    }
    // Stats must remain unchanged.
    assert_eq!(heap.stats_alloc_user(), 0);
    assert_eq!(heap.stats_alloc_actual(), 0);
    assert_eq!(heap.stats_total_bytes(), 0);
}

#[test]
fn test_metadata_heap_stats_use_original_order() {
    const N: usize = 4096;
    let space = vec![0u8; 2 * N];
    let start = page_aligned(&space);
    let mut heap = MetadataHeap::<32, 3>::empty();
    heap.try_init(start, N).unwrap();

    // 24 bytes rounds up to 32 (order 5).
    let layout = layout(24, 1);
    let ptr = heap.allocate(layout).unwrap();

    // stats_alloc_actual should be 32 (2^5), not 24.
    assert_eq!(heap.stats_alloc_actual(), 32);
    assert_eq!(heap.stats_alloc_user(), 24);

    heap.dealloc(ptr, layout);
    assert_eq!(heap.stats_alloc_actual(), 0);
    assert_eq!(heap.stats_alloc_user(), 0);
}

#[test]
fn test_metadata_heap_absolute_alignment() {
    const N: usize = 32768;
    let space = vec![0u8; N + 4096];
    // Shift start by 1 to create an unaligned region origin.
    let start = page_aligned(&space) + 1;
    let size = N - 1;

    let mut heap = MetadataHeap::<32, 3>::empty();
    heap.try_init(start, size).unwrap();

    let layout = layout(1, 4096);
    let ptr = heap.allocate(layout).unwrap();
    assert_eq!(ptr & 4095, 0, "returned pointer should be 4096-aligned");

    heap.dealloc(ptr, layout);
}

#[test]
fn test_metadata_heap_min_order_controls_min_block() {
    // MIN_ORDER=3: smallest block 8 bytes (order 3).
    {
        const N: usize = 4096;
        let space = vec![0u8; 2 * N];
        let start = page_aligned(&space);
        let mut heap = MetadataHeap::<16, 3>::empty();
        heap.try_init(start, N).unwrap();

        let layout = layout(1, 1);
        let ptr = heap.allocate(layout).unwrap();
        assert_eq!(heap.stats_alloc_actual(), 8); // 2^3
        heap.dealloc(ptr, layout);
    }

    // MIN_ORDER=6: smallest block 64 bytes (order 6).
    {
        const N: usize = 4096;
        let space = vec![0u8; 2 * N];
        let start = page_aligned(&space);
        let mut heap = MetadataHeap::<16, 6>::empty();
        heap.try_init(start, N).unwrap();

        let layout = layout(1, 1);
        let ptr = heap.allocate(layout).unwrap();
        assert_eq!(heap.stats_alloc_actual(), 64); // 2^6
        heap.dealloc(ptr, layout);
    }
}

#[test]
fn test_metadata_heap_both_buddies_merge() {
    const N: usize = 4096;
    let space = vec![0u8; 2 * N];
    let start = page_aligned(&space);
    let mut heap = MetadataHeap::<32, 3>::empty();
    heap.try_init(start, N).unwrap();

    let layout_64 = layout(64, 1);
    let addr1 = heap.allocate(layout_64).unwrap();
    let addr2 = heap.allocate(layout_64).unwrap();

    // Verify they are buddies (addresses differ by block size).
    assert_eq!(addr1 ^ addr2, 64, "expected buddy addresses differing by 64");

    heap.dealloc(addr1, layout_64);
    heap.dealloc(addr2, layout_64);

    // After merging, a 128-byte alloc should succeed.
    let layout_128 = layout(128, 1);
    let addr3 = heap.allocate(layout_128).unwrap();

    // The return value should be the lower buddy address, 128-aligned.
    assert_eq!(addr3, min(addr1, addr2));
    assert_eq!(addr3 & 127, 0, "merged block should be 128-aligned");

    heap.dealloc(addr3, layout_128);
}

#[test]
fn new_heap_has_nothing() {
    let mut heap = MetadataHeap::<32, 3>::new();
    assert_eq!(heap.stats_total_bytes(), 0);
    assert_eq!(heap.stats_alloc_user(), 0);
    assert_eq!(heap.stats_alloc_actual(), 0);
    assert_eq!(heap.free_block_counts(), [0usize; 32]);
    assert!(heap.allocate(layout(1, 1)).is_err());
    assert_eq!(heap.alloc_pages(PageOrder(3)), Err(AllocError::NoMemory));
    let other: MetadataHeap<4, 2> = MetadataHeap::default();
    assert_eq!(other.free_block_counts(), [0usize; 4]);
}

#[test]
fn init_divides_the_region() {
    // 128 units of 8 bytes take 3072 bytes of records in front of 1024 bytes of data.
    let mut heap = MetadataHeap::<32, 3>::new();
    assert_eq!(heap.try_init(4096, 4096), Ok(()));
    assert_eq!(heap.stats_total_bytes(), 1024);
    let counts = heap.free_block_counts();
    assert_eq!(counts[10], 1);
    assert_eq!(counts.iter().sum::<usize>(), 1);
    assert_eq!(heap.allocate(layout(1024, 1)), Ok(7168));

    // 46 units of 64 bytes: the records end at 5200, the units start at the next multiple.
    let mut heap = MetadataHeap::<16, 6>::new();
    assert_eq!(heap.try_init(4096, 4096), Ok(()));
    assert_eq!(heap.stats_total_bytes(), 2944);
    let counts = heap.free_block_counts();
    assert_eq!(counts[6..12], [0, 1, 1, 1, 0, 1]);
    assert_eq!(heap.allocate(layout(65, 1)), Ok(5248));

    // An odd region: the greatest aligned blocks that fit, from the low end.
    let mut heap = MetadataHeap::<32, 3>::new();
    assert_eq!(heap.try_init(4097, 4095), Ok(()));
    assert_eq!(heap.stats_total_bytes(), 1016);
    assert_eq!(heap.free_block_counts()[3..11], [1, 1, 1, 1, 1, 1, 1, 0]);

    // Few orders: many blocks of the greatest.
    let mut heap = MetadataHeap::<5, 3>::new();
    assert_eq!(heap.try_init(4096, 1000), Ok(()));
    assert_eq!(heap.free_block_counts(), [0, 0, 0, 1, 15]);
    assert_eq!(heap.alloc_pages(PageOrder(4)).unwrap().base, 5072);
}

#[test]
fn init_errors() {
    // One unit with its record takes 32 bytes.
    let mut heap = MetadataHeap::<32, 3>::new();
    assert_eq!(heap.try_init(4096, 31), Err(InitError::TooSmall));
    assert_eq!(heap.try_init(4096, 0), Err(InitError::TooSmall));
    assert_eq!(heap.try_init(usize::MAX - 2, 0), Err(InitError::Overflow));
    assert_eq!(heap.try_init(4096, usize::MAX), Err(InitError::Overflow));
    assert_eq!(heap.stats_total_bytes(), 0);
    assert_eq!(heap.try_init(4096, 32), Ok(()));
    assert_eq!(heap.stats_total_bytes(), 8);
    assert_eq!(heap.allocate(layout(8, 8)), Ok(4120));

    // The type parameters must make an allocator.
    assert_eq!(MetadataHeap::<3, 3>::new().try_init(4096, 4096), Err(InitError::TooSmall));
    assert_eq!(MetadataHeap::<256, 3>::new().try_init(4096, 4096), Err(InitError::TooSmall));
    assert_eq!(MetadataHeap::<32, 2>::new().try_init(4096, 4096), Err(InitError::TooSmall));
}

#[test]
fn a_full_heap_can_be_initialised_again() {
    let mut heap = MetadataHeap::<32, 3>::new();
    assert_eq!(heap.try_init(4096, 32), Ok(()));
    assert_eq!(heap.allocate(layout(1, 1)), Ok(4120));
    assert_eq!(heap.try_init(4096, 4096), Ok(()));
    assert_eq!(heap.stats_alloc_user(), 0);
    assert_eq!(heap.stats_alloc_actual(), 0);
    assert_eq!(heap.live_order(4120), None);
    assert_eq!(heap.allocate(layout(1024, 1)), Ok(7168));
}

#[test]
fn region_at_the_top_of_memory() {
    let start = usize::MAX - 4095;
    let mut heap = MetadataHeap::<32, 3>::new();
    assert_eq!(heap.try_init(start, 4095), Ok(()));
    let addr = heap.allocate(layout(256, 1)).unwrap();
    assert!(addr >= start && addr + 256 <= start + 4095);
}

#[test]
fn splits_and_merges_step_by_step() {
    let mut heap = MetadataHeap::<32, 3>::new();
    heap.try_init(4096, 4096).unwrap();
    assert_eq!(heap.allocate(layout(24, 1)), Ok(7168));
    assert_eq!(heap.free_block_counts()[3..11], [0, 0, 1, 1, 1, 1, 1, 0]);
    assert_eq!(heap.allocate(layout(1, 1)), Ok(7200));
    assert_eq!(heap.allocate(layout(100, 64)), Ok(7296));
    assert_eq!(heap.free_block_counts()[3..11], [1, 1, 0, 1, 0, 1, 1, 0]);
    assert_eq!(heap.stats_alloc_user(), 125);
    assert_eq!(heap.stats_alloc_actual(), 168);
    assert_eq!(heap.live_order(7168), Some(5));
    assert_eq!(heap.live_order(7200), Some(3));
    assert_eq!(heap.live_order(7208), None);
    assert_eq!(heap.live_order(7169), None);
    assert_eq!(heap.live_order(0), None);
    heap.dealloc(7168, layout(24, 1));
    assert_eq!(heap.free_block_counts()[3..11], [1, 1, 1, 1, 0, 1, 1, 0]);
    assert_eq!(heap.live_order(7168), None);
    heap.dealloc(7296, layout(100, 64));
    heap.dealloc(7200, layout(1, 1));
    assert_eq!(heap.free_block_counts()[3..11], [0, 0, 0, 0, 0, 0, 0, 1]);
}

#[test]
fn a_refused_request_changes_nothing() {
    let mut heap = MetadataHeap::<32, 3>::new();
    heap.try_init(4096, 4096).unwrap();
    let before = heap.free_block_counts();
    // No block of 2048 bytes, and no order for a request of this size.
    assert_eq!(heap.allocate(layout(1025, 1)), Err(()));
    assert_eq!(heap.allocate(layout(1, 1 << 40)), Err(()));
    assert_eq!(heap.alloc_pages(PageOrder(11)), Err(AllocError::NoMemory));
    assert_eq!(heap.alloc_pages(PageOrder(2)), Err(AllocError::InvalidOrder));
    assert_eq!(heap.alloc_pages(PageOrder(32)), Err(AllocError::InvalidOrder));
    assert_eq!(heap.free_block_counts(), before);
    assert_eq!(heap.stats_alloc_user(), 0);
    assert_eq!(heap.stats_alloc_actual(), 0);
}

#[test]
fn pages_do_not_count_as_requested() {
    let mut heap = MetadataHeap::<32, 3>::new();
    heap.try_init(4096, 4096).unwrap();
    let run = heap.alloc_pages(PageOrder(6)).unwrap();
    assert_eq!(run.base, 7168);
    assert_eq!(run.order, PageOrder(6));
    assert_eq!(heap.stats_alloc_user(), 0);
    assert_eq!(heap.stats_alloc_actual(), 64);
    heap.dealloc_pages(run);
    assert_eq!(heap.stats_alloc_actual(), 0);
}

#[test]
fn live_blocks_never_overlap_and_bytes_are_conserved() {
    let mut heap = MetadataHeap::<32, 3>::new();
    heap.try_init(4097, 4095).unwrap();
    let fresh = heap.free_block_counts();
    let sizes: [usize; 7] = [1, 9, 17, 64, 100, 8, 33];
    let mut live: Vec<(usize, usize)> = Vec::new();
    for round in 0..40 {
        let size = sizes[round % 7];
        if let Ok(addr) = heap.allocate(layout(size, 1)) {
            let block = size.max(8).next_power_of_two();
            assert_eq!(addr % block, 0);
            for (other, len) in &live {
                let taken = (*len).max(8).next_power_of_two();
                assert!(addr + block <= *other || *other + taken <= addr);
            }
            live.push((addr, size));
        }
        if round % 3 == 2 {
            let (addr, size) = live.remove(round % live.len());
            heap.dealloc(addr, layout(size, 1));
        }
        let user: usize = live.iter().map(|(_, size)| *size).sum();
        let actual: usize = live.iter().map(|(_, size)| (*size).max(8).next_power_of_two()).sum();
        assert_eq!(heap.stats_alloc_user(), user);
        assert_eq!(heap.stats_alloc_actual(), actual);
        let counts = heap.free_block_counts();
        let free: usize = (0..32).map(|k| counts[k] << k).sum();
        assert_eq!(free + actual, heap.stats_total_bytes());
    }
    while let Some((addr, size)) = live.pop() {
        heap.dealloc(addr, layout(size, 1));
    }
    assert_eq!(heap.free_block_counts(), fresh);
    assert_eq!(heap.stats_alloc_user(), 0);
}

#[test]
fn dealloc_in_either_order_gives_the_same_blocks() {
    let mut counts = Vec::new();
    for forward in [true, false] {
        let mut heap = MetadataHeap::<32, 3>::new();
        heap.try_init(4096, 4096).unwrap();
        let a = heap.allocate(layout(64, 1)).unwrap();
        let b = heap.allocate(layout(64, 1)).unwrap();
        let _ = heap.allocate(layout(8, 1)).unwrap();
        if forward {
            heap.dealloc(a, layout(64, 1));
            heap.dealloc(b, layout(64, 1));
        } else {
            heap.dealloc(b, layout(64, 1));
            heap.dealloc(a, layout(64, 1));
        }
        counts.push(heap.free_block_counts());
    }
    assert_eq!(counts[0], counts[1]);
    assert_eq!(counts[0][7], 1);
}

#[test]
fn the_greatest_order_does_not_merge() {
    let mut heap = MetadataHeap::<4, 3>::new();
    heap.try_init(4096, 64).unwrap();
    assert_eq!(heap.free_block_counts(), [0, 0, 0, 2]);
    let a = heap.alloc_pages(PageOrder(3)).unwrap();
    let b = heap.alloc_pages(PageOrder(3)).unwrap();
    heap.dealloc_pages(a);
    heap.dealloc_pages(b);
    assert_eq!(heap.free_block_counts(), [0, 0, 0, 2]);
}

#[test]
fn large_units() {
    let mut heap = MetadataHeap::<16, 12>::new();
    heap.try_init(0x10_0000, 0x2_0000).unwrap();
    assert_eq!(heap.stats_total_bytes(), 31 * 4096);
    assert_eq!(heap.free_block_counts()[12..16], [1, 1, 1, 3]);
    // The list of the greatest order was filled from the low end.
    assert_eq!(heap.alloc_pages(PageOrder(15)).unwrap().base, 1146880);
    assert_eq!(heap.allocate(layout(1, 1)), Ok(1052672));
}

#[test]
fn a_free_run_is_found_however_it_was_freed() {
    let mut heap = MetadataHeap::<32, 3>::new();
    heap.try_init(4096, 4096).unwrap();
    while heap.allocate(layout(8, 1)).is_ok() {}
    assert_eq!(heap.stats_alloc_actual(), 1024);
    // Give back the units of one aligned run, from both ends.
    for i in 0..8 {
        heap.dealloc(7424 + 8 * i, layout(8, 1));
        heap.dealloc(7424 + 120 - 8 * i, layout(8, 1));
    }
    assert_eq!(heap.free_block_counts()[3..9], [0, 0, 0, 0, 1, 0]);
    assert_eq!(heap.allocate(layout(128, 128)), Ok(7424));
    assert!(heap.allocate(layout(1, 1)).is_err());
}

#[test]
fn orders_of_requests() {
    let heap = MetadataHeap::<8, 3>::new();
    assert_eq!(heap.layout_order(layout(0, 1)), Ok(3));
    assert_eq!(heap.layout_order(layout(24, 1)), Ok(5));
    assert_eq!(heap.layout_order(layout(1, 64)), Ok(6));
    assert_eq!(heap.layout_order(layout(128, 1)), Ok(7));
    assert_eq!(heap.layout_order(layout(129, 1)), Err(()));
    assert_eq!(heap.layout_order(layout(1, 256)), Err(()));
    assert_eq!(heap.order_from_layout(layout(128, 1)), 7);
    assert_eq!(heap.order_from_layout(layout(129, 1)), 8);
    assert_eq!(heap.order_from_layout(layout(1, 256)), 8);
    assert_eq!(MetadataHeap::<16, 6>::new().layout_order(layout(1, 1)), Ok(6));
}

#[test]
fn a_block_given_back_at_once_is_the_next_again() {
    let mut heap = MetadataHeap::<5, 3>::new();
    heap.try_init(4096, 1000).unwrap();
    let taken = heap.alloc_pages(PageOrder(4)).unwrap();
    assert_eq!(taken.base, 5072);
    // The lists are as they were, so every request gets the block it would have got.
    let small = heap.alloc_pages(PageOrder(3)).unwrap();
    assert_eq!(small.base, 4840);
    heap.dealloc_pages(small);
    assert_eq!(heap.alloc_pages(PageOrder(3)).unwrap().base, 4840);
    let next = heap.alloc_pages(PageOrder(4)).unwrap();
    heap.dealloc_pages(next);
    assert_eq!(heap.alloc_pages(PageOrder(4)).unwrap(), next);
}

#[test]
fn units_and_addresses_undo_each_other() {
    // 46 units of 64 bytes from 5248 on.
    let mut heap = MetadataHeap::<16, 6>::new();
    heap.try_init(4096, 4096).unwrap();
    assert_eq!(heap.idx_to_addr(0), 5248);
    assert_eq!(heap.idx_to_addr(45), 8128);
    assert_eq!(heap.addr_to_idx(5248), 0);
    assert_eq!(heap.addr_to_idx(5311), 0);
    assert_eq!(heap.addr_to_idx(8191), 45);
    for idx in 0..46 {
        assert_eq!(heap.addr_to_idx(heap.idx_to_addr(idx)), idx);
    }
    for addr in 5248..8192 {
        assert_eq!(heap.idx_to_addr(heap.addr_to_idx(addr)), addr - addr % 64);
    }
}
