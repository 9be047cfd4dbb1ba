use buddy_system_allocator::{FrameAllocator, Layout};

#[test]
fn test_empty_frame_allocator() {
    let mut frame = FrameAllocator::<32>::new();
    assert!(frame.allocate(1).is_none());
}

#[test]
fn test_frame_allocator_add() {
    let mut frame = FrameAllocator::<32>::new();
    assert!(frame.allocate(1).is_none());

    frame.insert(0..3);
    let num = frame.allocate(1);
    assert_eq!(num, Some(2));
    let num = frame.allocate(2);
    assert_eq!(num, Some(0));
    assert!(frame.allocate(1).is_none());
    assert!(frame.allocate(2).is_none());
}

#[test]
fn test_frame_allocator_add_from_zero_keeps_large_block() {
    let mut frame = FrameAllocator::<7>::new();

    frame.add_frame(0, 64);

    assert_eq!(frame.allocate(64), Some(0));
}

#[test]
fn test_frame_allocator_allocate_large() {
    let mut frame = FrameAllocator::<32>::new();
    assert_eq!(frame.allocate(10_000_000_000), None);
}

#[test]
fn test_frame_allocator_add_large_size_split() {
    let mut frame = FrameAllocator::<32>::new();

    frame.insert(0..10_000_000_000);

    assert_eq!(frame.allocate(0x8000_0001), None);
    assert_eq!(frame.allocate(0x8000_0000), Some(0));
    assert_eq!(frame.allocate(0x8000_0000), Some(0x8000_0000));
}

#[test]
fn test_frame_allocator_add_large_size() {
    let mut frame = FrameAllocator::<33>::new();

    frame.insert(0..10_000_000_000);
    assert_eq!(frame.allocate(0x8000_0001), Some(0));
}

#[test]
fn test_frame_allocator_alloc_and_free() {
    let mut frame = FrameAllocator::<32>::new();
    assert!(frame.allocate(1).is_none());

    frame.add_frame(0, 1024);
    for _ in 0..100 {
        let addr = frame.allocate(512).unwrap();
        frame.dealloc(addr, 512);
    }
}

#[test]
fn test_frame_allocator_alloc_and_free_complex() {
    let mut frame = FrameAllocator::<32>::new();
    frame.add_frame(100, 1024);
    for _ in 0..10 {
        let addr = frame.allocate(1).unwrap();
        frame.dealloc(addr, 1);
    }
    let addr1 = frame.allocate(1).unwrap();
    let addr2 = frame.allocate(1).unwrap();
    assert_ne!(addr1, addr2);
}

#[test]
fn test_frame_allocator_aligned() {
    let mut frame = FrameAllocator::<32>::new();
    frame.add_frame(1, 64);
    assert_eq!(
        frame.alloc_aligned(Layout::from_size_align(2, 4).unwrap()),
        Some(4)
    );
    assert_eq!(
        frame.alloc_aligned(Layout::from_size_align(2, 2).unwrap()),
        Some(2)
    );
    assert_eq!(
        frame.alloc_aligned(Layout::from_size_align(2, 1).unwrap()),
        Some(8)
    );
    assert_eq!(
        frame.alloc_aligned(Layout::from_size_align(1, 16).unwrap()),
        Some(16)
    );
}

#[test]
fn test_frame_allocator_merge_final_order() {
    let mut frame = FrameAllocator::<2>::new();
    frame.add_frame(0, 4);

    let first = frame.allocate(2).unwrap();
    let second = frame.allocate(2).unwrap();

    frame.dealloc(first, 2);
    frame.dealloc(second, 2);

    assert_eq!(frame.allocate(2), Some(0));
}

#[test]
fn test_frame_allocator_alloc_at_basic() {
    let mut frame = FrameAllocator::<32>::new();
    frame.add_frame(0, 4);
    assert_eq!(frame.alloc_at(0, 4), Some(0));
    assert!(frame.allocate(1).is_none());
}

#[test]
fn test_frame_allocator_alloc_at_split() {
    let mut frame = FrameAllocator::<32>::new();
    frame.add_frame(0, 8);
    // Alloc 2 frames at address 2 (requires splitting the order-3 block)
    assert_eq!(frame.alloc_at(2, 2), Some(2));
    // Remaining: [0..2) at order 1, [4..8) at order 2
    assert_eq!(frame.allocate(2), Some(0));
    assert_eq!(frame.allocate(4), Some(4));
    assert!(frame.allocate(1).is_none());
}

#[test]
fn test_frame_allocator_alloc_at_unavailable() {
    let mut frame = FrameAllocator::<32>::new();
    frame.add_frame(0, 8);
    assert_eq!(frame.allocate(4), Some(0));
    // [0..4) is allocated, try to alloc_at within it
    assert_eq!(frame.alloc_at(0, 2), None);
    assert_eq!(frame.alloc_at(2, 2), None);
}

#[test]
fn test_frame_allocator_alloc_at_misaligned() {
    let mut frame = FrameAllocator::<32>::new();
    frame.add_frame(0, 16);
    // 4 frames at address 3: not aligned to 4
    assert_eq!(frame.alloc_at(3, 4), None);
    // 2 frames at address 1: not aligned to 2
    assert_eq!(frame.alloc_at(1, 2), None);
    // 1 frame at address 1: aligned to 1, should work
    assert_eq!(frame.alloc_at(1, 1), Some(1));
}

#[test]
fn test_frame_allocator_alloc_at_then_dealloc() {
    let mut frame = FrameAllocator::<32>::new();
    frame.add_frame(0, 16);
    assert_eq!(frame.alloc_at(4, 4), Some(4));
    frame.dealloc(4, 4);
    // Buddies should merge back; full 16-frame alloc should succeed
    assert_eq!(frame.allocate(16), Some(0));
}

#[test]
fn test_frame_allocator_alloc_at_outside_range() {
    let mut frame = FrameAllocator::<32>::new();
    frame.add_frame(0, 8);
    assert_eq!(frame.alloc_at(16, 2), None);
}

#[test]
fn test_frame_allocator_alloc_at_multiple() {
    let mut frame = FrameAllocator::<32>::new();
    frame.add_frame(0, 16);
    assert_eq!(frame.alloc_at(0, 4), Some(0));
    assert_eq!(frame.alloc_at(4, 4), Some(4));
    assert_eq!(frame.alloc_at(8, 4), Some(8));
    assert_eq!(frame.alloc_at(12, 4), Some(12));
    assert!(frame.allocate(1).is_none());
}

#[test]
fn runs_have_a_power_of_two_of_frames() {
    let mut frame = FrameAllocator::<8>::default();
    frame.add_frame(0, 16);
    assert_eq!(frame.allocate(3), Some(0));
    assert_eq!(frame.allocate(0), Some(4));
    assert_eq!(frame.allocate(1), Some(5));
    assert_eq!(frame.allocate(5), Some(8));
    assert_eq!(frame.allocate(2), Some(6));
    assert_eq!(frame.allocate(1), None);
    frame.dealloc(0, 3);
    assert_eq!(frame.allocate(4), Some(0));
}

#[test]
fn requests_beyond_every_order() {
    let mut frame = FrameAllocator::<70>::new();
    frame.add_frame(0, usize::MAX);
    assert_eq!(frame.allocate(usize::MAX), None);
    assert_eq!(frame.alloc_at(0, usize::MAX), None);
    assert_eq!(frame.allocate(1 << 63), Some(0));
    let mut none = FrameAllocator::<0>::new();
    assert_eq!(none.allocate(0), None);
    assert_eq!(none.alloc_at(0, 0), None);
}

#[test]
fn giving_back_restores_the_frames() {
    let mut frame = FrameAllocator::<32>::new();
    frame.add_frame(5, 23);
    frame.insert(40..40);
    let mut runs = Vec::new();
    while let Some(first) = frame.allocate(1) {
        runs.push(first);
    }
    runs.sort();
    assert_eq!(runs, (5..23).collect::<Vec<usize>>());
    for first in runs {
        frame.dealloc(first, 1);
    }
    assert_eq!(frame.alloc_at(8, 8), Some(8));
    assert_eq!(frame.alloc_at(16, 4), Some(16));
    assert_eq!(frame.alloc_at(6, 2), Some(6));
    assert_eq!(frame.alloc_at(22, 1), Some(22));
}

#[test]
fn a_run_given_back_at_once_merges_into_its_block() {
    let mut frame = FrameAllocator::<5>::new();
    frame.add_frame(16, 32);
    for (start, count) in [(16, 1), (23, 1), (24, 4), (30, 2)] {
        assert_eq!(frame.alloc_at(start, count), Some(start));
        assert_eq!(frame.allocate(16), None);
        frame.dealloc(start, count);
        assert_eq!(frame.allocate(16), Some(16));
        frame.dealloc(16, 16);
    }
}
