use alpha_alocator::alocator::{AlphaAlocator, Stats};
use alpha_alocator::error::{InvalidRelease, OutOfMemory};
use alpha_alocator::slot::Slot;

const BASE: usize = 0x1000;

type Small = AlphaAlocator<100, 12, 16>;

fn live(a: &Small) -> Vec<(usize, usize)> {
    let (blocks, count) = a.snapshot_sorted();
    blocks[..count].iter().map(|b| (b.index, b.size)).collect()
}

#[test]
fn new_allocator_is_empty() {
    let a = Small::new(BASE);
    assert_eq!(a.stats(), Stats { calls_served: 0, free_bytes: 100, live_block_count: 0 });
    assert_eq!(live(&a), vec![]);
    let (sizes, count) = a.dump_history();
    assert_eq!(count, 0);
    assert_eq!(sizes, [0usize; 16]);
}

#[test]
fn first_fit_reuses_released_offset() {
    let mut a = Small::new(BASE);
    assert_eq!(a.allocate(40, 1), Ok(BASE));
    assert_eq!(a.allocate(40, 1), Ok(BASE + 40));
    assert_eq!(a.deallocate(BASE, 40), Ok(()));
    assert_eq!(a.allocate(30, 1), Ok(BASE));
    assert_eq!(live(&a), vec![(0, 30), (40, 40)]);
    assert_eq!(a.stats().free_bytes, 30);
}

#[test]
fn released_block_of_equal_size_is_reused() {
    let mut a = Small::new(BASE);
    assert_eq!(a.allocate(10, 1), Ok(BASE));
    assert_eq!(a.allocate(25, 1), Ok(BASE + 10));
    assert_eq!(a.allocate(10, 1), Ok(BASE + 35));
    assert_eq!(a.deallocate(BASE + 10, 25), Ok(()));
    assert_eq!(a.allocate(25, 1), Ok(BASE + 10));
}

#[test]
fn first_fit_takes_lowest_gap_not_best_gap() {
    let mut a = Small::new(BASE);
    assert_eq!(a.allocate(30, 1), Ok(BASE));
    assert_eq!(a.allocate(10, 1), Ok(BASE + 30));
    assert_eq!(a.allocate(20, 1), Ok(BASE + 40));
    assert_eq!(a.allocate(40, 1), Ok(BASE + 60));
    assert_eq!(a.deallocate(BASE, 30), Ok(()));
    assert_eq!(a.deallocate(BASE + 40, 20), Ok(()));
    // Gaps: [0, 30) and [40, 60). A request of 20 fits the second exactly,
    // but the first is lower.
    assert_eq!(a.allocate(20, 1), Ok(BASE));
    // What is left of the first gap is too small for 15; the second takes it.
    assert_eq!(a.allocate(15, 1), Ok(BASE + 40));
    assert_eq!(live(&a), vec![(0, 20), (30, 10), (40, 15), (60, 40)]);
}

#[test]
fn fragmented_arena_rejects_request_larger_than_any_gap() {
    let mut a = Small::new(BASE);
    for size in [10, 10, 10, 10, 10, 10, 5, 10, 5, 10, 5, 5] {
        assert!(a.allocate(size, 1).is_ok());
    }
    for offset in [10, 30, 50, 65, 80, 95] {
        assert_eq!(a.deallocate(BASE + offset, 1), Ok(()));
    }
    assert_eq!(live(&a), vec![(0, 10), (20, 10), (40, 10), (60, 5), (75, 5), (90, 5)]);
    assert_eq!(a.stats().free_bytes, 55);
    assert_eq!(a.allocate(15, 1), Err(OutOfMemory::Fragmentation));
    assert_eq!(a.stats().free_bytes, 55);
    assert_eq!(a.allocate(10, 1), Ok(BASE + 10));
}

#[test]
fn three_blocks_with_small_gaps_reject_larger_request() {
    let mut a = AlphaAlocator::<60, 8, 8>::new(BASE);
    for _ in 0..6 {
        assert!(a.allocate(10, 1).is_ok());
    }
    for offset in [10, 30, 50] {
        assert_eq!(a.deallocate(BASE + offset, 10), Ok(()));
    }
    assert_eq!(a.stats().free_bytes, 30);
    assert_eq!(a.allocate(15, 1), Err(OutOfMemory::Fragmentation));
    assert_eq!(a.stats(), Stats { calls_served: 7, free_bytes: 30, live_block_count: 3 });
}

#[test]
fn gap_behind_last_block_is_used() {
    let mut a = Small::new(BASE);
    assert_eq!(a.allocate(10, 1), Ok(BASE));
    assert_eq!(a.allocate(10, 1), Ok(BASE + 10));
    assert_eq!(a.deallocate(BASE, 10), Ok(()));
    assert_eq!(a.allocate(80, 1), Ok(BASE + 20));
    assert_eq!(a.allocate(11, 1), Err(OutOfMemory::InsufficientTotal));
    assert_eq!(a.allocate(10, 1), Ok(BASE));
    assert_eq!(a.stats().free_bytes, 0);
}

#[test]
fn request_over_free_bytes_changes_neither_table_nor_counter() {
    let mut a = Small::new(BASE);
    assert_eq!(a.allocate(60, 1), Ok(BASE));
    let table = a.snapshot_sorted();
    assert_eq!(a.allocate(41, 1), Err(OutOfMemory::InsufficientTotal));
    assert_eq!(a.snapshot_sorted(), table);
    assert_eq!(a.stats(), Stats { calls_served: 2, free_bytes: 40, live_block_count: 1 });
    assert_eq!(a.allocate(40, 1), Ok(BASE + 60));
}

#[test]
fn request_larger_than_arena_is_rejected() {
    let mut a = Small::new(BASE);
    assert_eq!(a.allocate(101, 1), Err(OutOfMemory::InsufficientTotal));
    assert_eq!(a.allocate(usize::MAX, 1), Err(OutOfMemory::InsufficientTotal));
    assert_eq!(a.allocate(100, 1), Ok(BASE));
}

#[test]
fn full_table_rejects_request_and_keeps_counter() {
    let mut a = AlphaAlocator::<100, 3, 8>::new(BASE);
    assert_eq!(a.allocate(1, 1), Ok(BASE));
    assert_eq!(a.allocate(1, 1), Ok(BASE + 1));
    assert_eq!(a.allocate(1, 1), Ok(BASE + 2));
    assert_eq!(a.allocate(1, 1), Err(OutOfMemory::TableExhausted));
    assert_eq!(a.stats(), Stats { calls_served: 4, free_bytes: 97, live_block_count: 3 });
    assert_eq!(a.deallocate(BASE + 1, 1), Ok(()));
    assert_eq!(a.allocate(1, 1), Ok(BASE + 1));
}

#[test]
fn requests_within_bytes_and_slots_are_all_granted() {
    let mut a = Small::new(BASE);
    let sizes = [7, 1, 20, 3, 9, 10, 5, 5, 15, 12, 6, 7];
    assert_eq!(sizes.iter().sum::<usize>(), 100);
    let mut next = BASE;
    for size in sizes {
        let addr = a.allocate(size, 1).unwrap();
        assert_eq!(addr, next);
        assert!(BASE <= addr && addr + size <= BASE + 100);
        next += size;
    }
    assert_eq!(a.stats(), Stats { calls_served: 12, free_bytes: 0, live_block_count: 12 });
}

#[test]
fn release_outside_arena_is_unknown_address() {
    let mut a = Small::new(BASE);
    assert_eq!(a.allocate(10, 1), Ok(BASE));
    assert_eq!(a.deallocate(BASE - 1, 10), Err(InvalidRelease::UnknownAddress));
    assert_eq!(a.deallocate(BASE + 100, 10), Err(InvalidRelease::UnknownAddress));
    assert_eq!(a.deallocate(0, 10), Err(InvalidRelease::UnknownAddress));
    assert_eq!(a.deallocate(usize::MAX, 10), Err(InvalidRelease::UnknownAddress));
    assert_eq!(a.stats(), Stats { calls_served: 1, free_bytes: 90, live_block_count: 1 });
}

#[test]
fn release_of_unreturned_address_is_no_matching_block() {
    let mut a = Small::new(BASE);
    assert_eq!(a.deallocate(BASE, 10), Err(InvalidRelease::NoMatchingBlock));
    assert_eq!(a.allocate(10, 1), Ok(BASE));
    assert_eq!(a.deallocate(BASE + 5, 5), Err(InvalidRelease::NoMatchingBlock));
    assert_eq!(a.deallocate(BASE + 10, 10), Err(InvalidRelease::NoMatchingBlock));
    assert_eq!(a.deallocate(BASE + 99, 1), Err(InvalidRelease::NoMatchingBlock));
    assert_eq!(a.stats(), Stats { calls_served: 1, free_bytes: 90, live_block_count: 1 });
    assert_eq!(live(&a), vec![(0, 10)]);
}

#[test]
fn second_release_of_a_block_is_rejected() {
    let mut a = Small::new(BASE);
    assert_eq!(a.allocate(10, 1), Ok(BASE));
    assert_eq!(a.allocate(10, 1), Ok(BASE + 10));
    assert_eq!(a.deallocate(BASE + 10, 10), Ok(()));
    assert_eq!(a.deallocate(BASE + 10, 10), Err(InvalidRelease::NoMatchingBlock));
    assert_eq!(a.stats().free_bytes, 90);
}

#[test]
fn release_returns_the_length_of_the_block_whatever_size_is_named() {
    let mut a = Small::new(BASE);
    assert_eq!(a.allocate(30, 1), Ok(BASE));
    assert_eq!(a.deallocate(BASE, 7), Ok(()));
    assert_eq!(a.stats().free_bytes, 100);
}

#[test]
fn alignment_plays_no_part_in_placement() {
    let mut a = Small::new(BASE);
    assert_eq!(a.allocate(3, 8), Ok(BASE));
    assert_eq!(a.allocate(8, 8), Ok(BASE + 3));
    assert_eq!(a.allocate(16, 16), Ok(BASE + 11));
}

#[test]
fn request_of_no_bytes_enters_no_block() {
    let mut a = AlphaAlocator::<100, 2, 4>::new(BASE);
    assert_eq!(a.allocate(10, 1), Ok(BASE));
    assert_eq!(a.allocate(0, 1), Ok(BASE));
    assert_eq!(a.stats(), Stats { calls_served: 2, free_bytes: 90, live_block_count: 1 });
    assert_eq!(a.allocate(10, 1), Ok(BASE + 10));
    assert_eq!(a.allocate(0, 1), Err(OutOfMemory::TableExhausted));
}

#[test]
fn identify_adress_translates_arena_addresses_only() {
    let a = Small::new(BASE);
    assert_eq!(a.identify_adress(BASE), Some(0));
    assert_eq!(a.identify_adress(BASE + 42), Some(42));
    assert_eq!(a.identify_adress(BASE + 99), Some(99));
    assert_eq!(a.identify_adress(BASE + 100), None);
    assert_eq!(a.identify_adress(BASE - 1), None);
    assert_eq!(a.identify_adress(0), None);
    assert_eq!(a.identify_adress(usize::MAX), None);
}

#[test]
fn arena_may_end_at_the_top_of_the_address_space() {
    let base = usize::MAX - 100;
    let mut a = Small::new(base);
    assert_eq!(a.allocate(100, 1), Ok(base));
    assert_eq!(a.identify_adress(usize::MAX - 1), Some(99));
    assert_eq!(a.identify_adress(usize::MAX), None);
    assert_eq!(a.deallocate(usize::MAX, 1), Err(InvalidRelease::UnknownAddress));
}

#[test]
fn arena_of_no_bytes_grants_nothing() {
    let mut a = AlphaAlocator::<0, 2, 2>::new(BASE);
    assert_eq!(a.allocate(1, 1), Err(OutOfMemory::InsufficientTotal));
    assert_eq!(a.identify_adress(BASE), None);
    assert_eq!(a.deallocate(BASE, 1), Err(InvalidRelease::UnknownAddress));
}

#[test]
fn table_of_no_slots_grants_nothing() {
    let mut a = AlphaAlocator::<10, 0, 2>::new(BASE);
    assert_eq!(a.allocate(1, 1), Err(OutOfMemory::TableExhausted));
    assert_eq!(a.snapshot_sorted(), ([], 0));
    assert_eq!(a.stats().free_bytes, 10);
}

#[test]
fn alocate_slot_fills_first_empty_slot() {
    let mut a = AlphaAlocator::<100, 2, 4>::new(BASE);
    assert_eq!(a.alocate_slot(50, 10), Some(Slot { size: 10, index: 50 }));
    assert_eq!(a.alocate_slot(0, 20), Some(Slot { size: 20, index: 0 }));
    assert_eq!(a.alocate_slot(70, 5), None);
    assert_eq!(a.snapshot_sorted(), ([Slot { size: 20, index: 0 }, Slot { size: 10, index: 50 }], 2));
    // The table alone changed.
    assert_eq!(a.stats(), Stats { calls_served: 0, free_bytes: 100, live_block_count: 2 });
}

#[test]
fn register_slot_reports_full_table() {
    let mut a = AlphaAlocator::<100, 2, 4>::new(BASE);
    assert!(a.register_slot(0, 10));
    assert!(a.register_slot(10, 10));
    assert!(!a.register_slot(20, 10));
    assert_eq!(a.release_slot(0), Some(10));
    assert!(a.register_slot(20, 10));
    assert_eq!(a.snapshot_sorted(), ([Slot { size: 10, index: 10 }, Slot { size: 10, index: 20 }], 2));
}

#[test]
fn release_slot_clears_the_block_at_the_offset() {
    let mut a = AlphaAlocator::<100, 3, 4>::new(BASE);
    assert!(a.register_slot(0, 10));
    assert!(a.register_slot(10, 25));
    assert_eq!(a.release_slot(5), None);
    assert_eq!(a.release_slot(10), Some(25));
    assert_eq!(a.release_slot(10), None);
    // An empty slot holds offset 0, which is no block at offset 0.
    assert_eq!(a.release_slot(0), Some(10));
    assert_eq!(a.release_slot(0), None);
    assert_eq!(a.stats().live_block_count, 0);
}

#[test]
fn find_free_offset_follows_the_gaps() {
    let mut a = AlphaAlocator::<100, 4, 4>::new(BASE);
    assert_eq!(a.find_free_offset(100), Some(0));
    assert_eq!(a.find_free_offset(101), None);
    assert_eq!(a.find_free_offset(0), Some(0));
    // Entered out of address order: the search sorts first.
    assert!(a.register_slot(40, 10));
    assert!(a.register_slot(5, 15));
    assert_eq!(a.find_free_offset(5), Some(0));
    assert_eq!(a.find_free_offset(6), Some(20));
    assert_eq!(a.find_free_offset(20), Some(20));
    assert_eq!(a.find_free_offset(21), Some(50));
    assert_eq!(a.find_free_offset(50), Some(50));
    assert_eq!(a.find_free_offset(51), None);
}

#[test]
fn snapshot_sorted_orders_blocks_by_offset() {
    let mut a = AlphaAlocator::<100, 5, 4>::new(BASE);
    assert!(a.register_slot(60, 1));
    assert!(a.register_slot(20, 2));
    assert!(a.register_slot(80, 3));
    assert!(a.register_slot(0, 4));
    assert_eq!(a.release_slot(20), Some(2));
    let (blocks, count) = a.snapshot_sorted();
    assert_eq!(count, 3);
    assert_eq!(
        blocks,
        [
            Slot { size: 4, index: 0 },
            Slot { size: 1, index: 60 },
            Slot { size: 3, index: 80 },
            Slot { size: 0, index: 0 },
            Slot { size: 0, index: 0 },
        ]
    );
}

#[test]
fn journal_notes_requests_in_order_and_drops_what_does_not_fit() {
    let mut a = AlphaAlocator::<100, 4, 3>::new(BASE);
    assert_eq!(a.allocate(10, 1), Ok(BASE));
    assert_eq!(a.allocate(200, 1), Err(OutOfMemory::InsufficientTotal));
    assert_eq!(a.dump_history(), ([10, 200, 0], 2));
    a.reg_historic(7);
    assert_eq!(a.dump_history(), ([10, 200, 7], 3));
    a.reg_historic(8);
    assert_eq!(a.allocate(5, 1), Ok(BASE + 10));
    assert_eq!(a.dump_history(), ([10, 200, 7], 3));
    // Releases are not noted, and the journal is never cleared.
    assert_eq!(a.deallocate(BASE, 10), Ok(()));
    assert_eq!(a.dump_history(), ([10, 200, 7], 3));
    assert_eq!(a.stats().calls_served, 3);
}

#[test]
fn reg_historic_keeps_large_sizes_whole() {
    let mut a = AlphaAlocator::<100, 4, 2>::new(BASE);
    a.reg_historic(usize::MAX);
    a.reg_historic(0);
    assert_eq!(a.dump_history(), ([usize::MAX, 0], 2));
    assert_eq!(a.stats(), Stats { calls_served: 0, free_bytes: 100, live_block_count: 0 });
}

#[test]
fn journal_of_no_entries_notes_nothing() {
    let mut a = AlphaAlocator::<100, 4, 0>::new(BASE);
    assert_eq!(a.allocate(10, 1), Ok(BASE));
    assert_eq!(a.dump_history(), ([], 0));
}
