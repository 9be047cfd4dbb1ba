use buddy_system_allocator::bits;
use buddy_system_allocator::blocks;
use buddy_system_allocator::layout::LayoutError;
use buddy_system_allocator::region;
use buddy_system_allocator::sorted::SortedSet;
use buddy_system_allocator::table::{BlockMeta, BlockTable};
use buddy_system_allocator::{
    prev_power_of_two, AllocError, Layout, LockedMetadataHeap, MetadataHeap, PageOrder,
};
use std::mem::{align_of, size_of};

fn needs_send<T: Send>(_value: &T) {}

fn needs_sync<T: Sync>(_value: &T) {}

#[test]
fn a_record_takes_three_words() {
    assert_eq!(size_of::<BlockMeta>(), region::record_size());
    assert_eq!(align_of::<BlockMeta>(), bits::word_size());
    assert_eq!(bits::word_size(), size_of::<usize>());
}

#[test]
fn the_lock_guards_an_empty_heap() {
    let locked = LockedMetadataHeap::<32, 3>::new();
    assert_eq!(locked.lock().stats_total_bytes(), 0);
    assert!(locked.lock().alloc_pages(PageOrder(3)) == Err(AllocError::NoMemory));
    locked.lock().try_init(4096, 4096).unwrap();
    assert_eq!(locked.lock().stats_total_bytes(), 1024);
    let guard = locked.lock();
    assert!(locked.try_lock().is_none());
    drop(guard);
    assert!(locked.try_lock().is_some());
    let empty = LockedMetadataHeap::<8, 3>::empty();
    assert_eq!(empty.lock().free_block_counts(), [0usize; 8]);
}

#[test]
fn heaps_can_be_sent_and_locks_shared() {
    needs_send(&MetadataHeap::<32, 3>::new());
    needs_send(&LockedMetadataHeap::<32, 3>::new());
    needs_sync(&LockedMetadataHeap::<32, 3>::new());
}

#[test]
fn layouts() {
    let layout = Layout::from_size_align(24, 8).unwrap();
    assert_eq!(layout.size(), 24);
    assert_eq!(layout.align(), 8);
    assert_eq!(Layout::from_size_align(1, 0), Err(LayoutError));
    assert_eq!(Layout::from_size_align(1, 3), Err(LayoutError));
    assert_eq!(Layout::from_size_align(isize::MAX as usize, 1).map(|l| l.align()), Ok(1));
    assert_eq!(Layout::from_size_align(isize::MAX as usize, 2), Err(LayoutError));
    for (size, align) in [(0, 1), (5, 4), (usize::MAX, 1), (isize::MAX as usize - 1, 4)] {
        assert_eq!(
            Layout::from_size_align(size, align).is_ok(),
            std::alloc::Layout::from_size_align(size, align).is_ok()
        );
    }
}

#[test]
fn powers_and_rounding() {
    assert_eq!(bits::order_bytes(0), 1);
    assert_eq!(bits::order_bytes(12), 4096);
    assert_eq!(bits::trailing_order(1), 0);
    assert_eq!(bits::trailing_order(40), 3);
    assert_eq!(bits::trailing_order(1 << 63), 63);
    assert_eq!(bits::floor_order(1), 0);
    assert_eq!(bits::floor_order(4095), 11);
    assert_eq!(bits::floor_order(usize::MAX), 63);
    assert_eq!(prev_power_of_two(1), 1);
    assert_eq!(prev_power_of_two(100), 64);
    assert_eq!(prev_power_of_two(128), 128);
    assert_eq!(bits::ceil_order(0), 0);
    assert_eq!(bits::ceil_order(24), 5);
    assert_eq!(bits::ceil_order(32), 5);
    assert_eq!(bits::ceil_order(usize::MAX), 64);
    assert!(bits::is_power_of_two(64));
    assert!(!bits::is_power_of_two(0));
    assert!(!bits::is_power_of_two(48));
    assert_eq!(bits::align_up(4097, 8), Some(4104));
    assert_eq!(bits::align_up(4096, 8), Some(4096));
    assert_eq!(bits::align_up(usize::MAX - 6, 8), None);
    assert_eq!(bits::align_up(usize::MAX - 7, 8), Some(usize::MAX - 7));
    assert_eq!(bits::align_up(5, 0), None);
    assert_eq!(bits::align_down(4103, 8), 4096);
    assert_eq!(bits::align_down(4104, 8), 4104);
}

#[test]
fn buddies() {
    assert_eq!(blocks::buddy_of(64, 6), 0);
    assert_eq!(blocks::buddy_of(0, 6), 64);
    assert_eq!(blocks::buddy_of(7168, 5), 7200);
    assert_eq!(blocks::buddy_of(0, 63), 1 << 63);
}

#[test]
fn units_that_fit() {
    assert_eq!(region::count_units(4096, 4096, 3, 4096, 8192), 128);
    assert_eq!(region::count_units(4096, 4096, 6, 4096, 8192), 46);
    assert_eq!(region::count_units(4096, 31, 3, 4096, 4120), 0);
    assert_eq!(region::count_units(4096, 0, 3, 4096, 4096), 0);
}

#[test]
fn sorted_sets() {
    let mut set = SortedSet::new();
    assert_eq!(set.first(), None);
    set.insert(7);
    set.insert(3);
    set.insert(9);
    set.insert(3);
    assert_eq!(set.first(), Some(3));
    assert!(set.contains(7));
    assert!(!set.contains(8));
    assert!(set.remove(3));
    assert!(!set.remove(3));
    assert_eq!(set.first(), Some(7));
    assert!(set.remove(9));
    assert!(set.remove(7));
    assert_eq!(set.first(), None);
}

#[test]
fn free_lists() {
    let mut table = BlockTable::<4>::new();
    assert_eq!(table.pop_free(3), None);
    table.lay_out(16);
    table.push_free(0, 2);
    table.push_free(4, 2);
    table.push_free(8, 2);
    table.push_free(12, 1);
    assert_eq!(table.count(2), 3);
    assert_eq!(table.count(1), 1);
    assert!(table.is_free(4, 2));
    assert!(!table.is_free(4, 1));
    assert!(!table.is_free(5, 2));
    // From the middle, then from the head.
    table.unlink_free(4);
    assert!(!table.is_free(4, 2));
    assert_eq!(table.pop_free(2), Some(8));
    assert_eq!(table.pop_free(2), Some(0));
    assert_eq!(table.pop_free(2), None);
    assert_eq!(table.count(2), 0);
    table.mark_used(4, 3);
    assert_eq!(table.used_order(4), Some(3));
    assert_eq!(table.used_order(12), None);
    table.mark_reserved(4);
    assert_eq!(table.used_order(4), None);
}
