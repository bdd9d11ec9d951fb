use physmem::freelist::{AllocError, FreeList, FreeListEntry, RegionInformation};

fn pool(regions: &[(usize, usize)]) -> FreeList {
    let mut pool = FreeList::new();
    for &(start, end) in regions {
        pool.push_back(FreeListEntry::new(start, end));
    }
    pool
}

fn regions(pool: &FreeList) -> Vec<(usize, usize)> {
    pool.entries().iter().map(|entry| (entry.start, entry.end)).collect()
}

#[test]
fn new_pool_is_empty() {
    let pool = FreeList::new();
    assert_eq!(pool.len(), 0);
    assert_eq!(pool.free_capacity(), 0);
    assert!(pool.entries().is_empty());
}

#[test]
fn entry_keeps_its_bounds() {
    let entry = FreeListEntry::new(0x1000, 0x3000);
    assert_eq!(entry.start, 0x1000);
    assert_eq!(entry.end, 0x3000);
    assert_eq!(entry, FreeListEntry { start: 0x1000, end: 0x3000 });
}

#[test]
fn push_back_appends_in_order() {
    let pool = pool(&[(0x1000, 0x3000), (0x5000, 0x6000)]);
    assert_eq!(regions(&pool), vec![(0x1000, 0x3000), (0x5000, 0x6000)]);
    assert_eq!(pool.len(), 2);
    assert_eq!(pool.free_capacity(), 0x3000);
}

#[test]
fn allocate_from_empty_pool_fails() {
    let mut pool = FreeList::new();
    assert_eq!(pool.allocate(0x1000, None), Err(AllocError));
    assert_eq!(pool.allocate(0x1000, Some(0x2000)), Err(AllocError));
    assert_eq!(pool.len(), 0);
}

#[test]
fn allocate_consumes_a_region_of_equal_size() {
    let mut pool = pool(&[(0x1000, 0x3000), (0x5000, 0x6000)]);
    assert_eq!(pool.allocate(0x2000, None), Ok(0x1000));
    assert_eq!(regions(&pool), vec![(0x5000, 0x6000)]);
}

#[test]
fn allocate_shrinks_a_region_from_its_start() {
    let mut pool = pool(&[(0x1000, 0x4000)]);
    assert_eq!(pool.allocate(0x1000, None), Ok(0x1000));
    assert_eq!(regions(&pool), vec![(0x2000, 0x4000)]);
    assert_eq!(pool.free_capacity(), 0x2000);
}

#[test]
fn allocate_shrinks_a_region_from_its_end() {
    let mut pool = pool(&[(0x1000, 0x4000)]);
    assert_eq!(pool.allocate(0x2000, Some(0x2000)), Ok(0x2000));
    assert_eq!(regions(&pool), vec![(0x1000, 0x2000)]);
}

#[test]
fn allocate_splits_a_region_around_the_block() {
    let mut pool = pool(&[(0x1000, 0x8000)]);
    assert_eq!(pool.allocate(0x2000, Some(0x4000)), Ok(0x4000));
    assert_eq!(regions(&pool), vec![(0x1000, 0x4000), (0x6000, 0x8000)]);
    assert_eq!(pool.free_capacity(), 0x5000);
}

#[test]
fn allocate_without_alignment_aligns_to_pages() {
    let mut pool = pool(&[(0x1800, 0x4000)]);
    assert_eq!(pool.allocate(0x1000, None), Ok(0x2000));
    assert_eq!(regions(&pool), vec![(0x1800, 0x2000), (0x3000, 0x4000)]);
}

#[test]
fn allocate_takes_the_first_region_that_fits() {
    let mut pool = pool(&[(0x1000, 0x2000), (0x4000, 0x8000), (0x10000, 0x20000)]);
    assert_eq!(pool.allocate(0x2000, None), Ok(0x4000));
    assert_eq!(regions(&pool), vec![(0x1000, 0x2000), (0x6000, 0x8000), (0x10000, 0x20000)]);
}

#[test]
fn allocate_skips_regions_too_small_after_alignment() {
    let mut pool = pool(&[(0x1000, 0x4000), (0x8000, 0xc000)]);
    assert_eq!(pool.allocate(0x4000, Some(0x4000)), Ok(0x8000));
    assert_eq!(regions(&pool), vec![(0x1000, 0x4000)]);
}

#[test]
fn allocate_fails_when_no_region_fits() {
    let mut pool = pool(&[(0x1000, 0x3000), (0x5000, 0x7000)]);
    assert_eq!(pool.allocate(0x3000, None), Err(AllocError));
    assert_eq!(regions(&pool), vec![(0x1000, 0x3000), (0x5000, 0x7000)]);
}

#[test]
fn allocate_more_than_is_free_fails() {
    let mut pool = pool(&[(0x1000, 0x3000), (0x5000, 0x7000)]);
    assert_eq!(pool.free_capacity(), 0x4000);
    assert_eq!(pool.allocate(0x5000, None), Err(AllocError));
    assert_eq!(pool.allocate(usize::MAX, None), Err(AllocError));
    assert_eq!(pool.free_capacity(), 0x4000);
}

#[test]
fn allocate_near_the_top_of_the_address_space() {
    let mut pool = pool(&[(usize::MAX - 0x7ff, usize::MAX)]);
    assert_eq!(pool.allocate(0x1000, None), Err(AllocError));
    assert_eq!(pool.allocate(1, Some(1)), Ok(usize::MAX - 0x7ff));
}

#[test]
fn allocate_with_an_alignment_that_is_no_power_of_two() {
    let mut pool = pool(&[(0x1000, 0x10000)]);
    assert_eq!(pool.allocate(0x3000, Some(0x3000)), Ok(0x3000));
    assert_eq!(regions(&pool), vec![(0x1000, 0x3000), (0x6000, 0x10000)]);
}

#[test]
fn deallocate_into_empty_pool() {
    let mut pool = FreeList::new();
    pool.deallocate(0x4000, 0x1000);
    assert_eq!(regions(&pool), vec![(0x4000, 0x5000)]);
}

#[test]
fn deallocate_between_regions_stands_alone() {
    let mut pool = pool(&[(0x1000, 0x2000), (0x8000, 0x9000)]);
    pool.deallocate(0x4000, 0x1000);
    assert_eq!(regions(&pool), vec![(0x1000, 0x2000), (0x4000, 0x5000), (0x8000, 0x9000)]);
}

#[test]
fn deallocate_below_all_regions() {
    let mut pool = pool(&[(0x4000, 0x5000)]);
    pool.deallocate(0x1000, 0x1000);
    assert_eq!(regions(&pool), vec![(0x1000, 0x2000), (0x4000, 0x5000)]);
}

#[test]
fn deallocate_above_all_regions() {
    let mut pool = pool(&[(0x4000, 0x5000)]);
    pool.deallocate(0x8000, 0x2000);
    assert_eq!(regions(&pool), vec![(0x4000, 0x5000), (0x8000, 0xa000)]);
}

#[test]
fn deallocate_joins_the_region_below() {
    let mut pool = pool(&[(0x1000, 0x2000), (0x8000, 0x9000)]);
    pool.deallocate(0x2000, 0x1000);
    assert_eq!(regions(&pool), vec![(0x1000, 0x3000), (0x8000, 0x9000)]);
}

#[test]
fn deallocate_joins_the_region_above() {
    let mut pool = pool(&[(0x1000, 0x2000), (0x8000, 0x9000)]);
    pool.deallocate(0x7000, 0x1000);
    assert_eq!(regions(&pool), vec![(0x1000, 0x2000), (0x7000, 0x9000)]);
}

#[test]
fn deallocate_bridges_two_regions() {
    let mut pool = pool(&[(0x1000, 0x2000), (0x3000, 0x4000), (0x8000, 0x9000)]);
    pool.deallocate(0x2000, 0x1000);
    assert_eq!(regions(&pool), vec![(0x1000, 0x4000), (0x8000, 0x9000)]);
    assert_eq!(pool.free_capacity(), 0x4000);
}

#[test]
fn deallocate_adjacent_blocks_gives_one_region() {
    let mut pool = pool(&[(0x1000, 0x2000)]);
    pool.deallocate(0x4000, 0x1000);
    pool.deallocate(0x5000, 0x2000);
    assert_eq!(regions(&pool), vec![(0x1000, 0x2000), (0x4000, 0x7000)]);

    let mut pool = FreeList::new();
    pool.deallocate(0x5000, 0x2000);
    pool.deallocate(0x4000, 0x1000);
    assert_eq!(regions(&pool), vec![(0x4000, 0x7000)]);
}

#[test]
fn deallocate_then_allocate_restores_the_pool() {
    let mut pool = pool(&[(0x1000, 0x4000), (0x8000, 0x9000)]);
    let address = pool.allocate(0x2000, None).unwrap();
    assert_eq!(address, 0x1000);
    let count = pool.len();
    let before = regions(&pool);
    pool.deallocate(address, 0x2000);
    assert_eq!(regions(&pool), vec![(0x1000, 0x4000), (0x8000, 0x9000)]);
    assert_eq!(pool.allocate(0x2000, None), Ok(address));
    assert!(pool.len() <= count);
    assert_eq!(regions(&pool), before);
}

#[test]
fn reuse_from_a_lower_region_may_add_a_region() {
    let mut pool = pool(&[(0x1000, 0x3000)]);
    pool.deallocate(0x5000, 0x1000);
    assert_eq!(pool.allocate(0x1000, None), Ok(0x1000));
    assert_eq!(regions(&pool), vec![(0x2000, 0x3000), (0x5000, 0x6000)]);
}

#[test]
fn can_release_accepts_blocks_apart_from_free_regions() {
    let pool = pool(&[(0x1000, 0x2000), (0x4000, 0x5000)]);
    assert!(pool.can_release(0x2000, 0x1000));
    assert!(pool.can_release(0x2000, 0x2000));
    assert!(pool.can_release(0x0, 0x1000));
    assert!(pool.can_release(0x5000, 0x1000));
}

#[test]
fn can_release_refuses_free_empty_and_overflowing_blocks() {
    let pool = pool(&[(0x1000, 0x2000), (0x4000, 0x5000)]);
    assert!(!pool.can_release(0x1000, 0x1000));
    assert!(!pool.can_release(0x1800, 0x1000));
    assert!(!pool.can_release(0x3000, 0x1001));
    assert!(!pool.can_release(0x0, 0x8000));
    assert!(!pool.can_release(0x2000, 0));
    assert!(!pool.can_release(usize::MAX, 1));
    assert!(pool.can_release(usize::MAX - 1, 1));
}

#[test]
fn capacity_is_conserved_over_allocations_and_releases() {
    let mut pool = pool(&[(0x1000, 0x9000), (0x10000, 0x18000)]);
    let total = pool.free_capacity();
    assert_eq!(total, 0x10000);
    let a = pool.allocate(0x3000, None).unwrap();
    let b = pool.allocate(0x4000, Some(0x4000)).unwrap();
    let c = pool.allocate(0x1000, None).unwrap();
    assert_eq!(pool.free_capacity() + 0x3000 + 0x4000 + 0x1000, total);
    pool.deallocate(b, 0x4000);
    assert_eq!(pool.free_capacity() + 0x3000 + 0x1000, total);
    pool.deallocate(a, 0x3000);
    pool.deallocate(c, 0x1000);
    assert_eq!(pool.free_capacity(), total);
    assert_eq!(regions(&pool), vec![(0x1000, 0x9000), (0x10000, 0x18000)]);
}

#[test]
fn allocated_blocks_do_not_overlap() {
    let mut pool = pool(&[(0x1000, 0x9000)]);
    let mut blocks: Vec<(usize, usize)> = Vec::new();
    for size in [0x1000usize, 0x2000, 0x1000, 0x3000] {
        let address = pool.allocate(size, None).unwrap();
        blocks.push((address, address + size));
    }
    for (i, a) in blocks.iter().enumerate() {
        for b in blocks.iter().skip(i + 1) {
            assert!(a.1 <= b.0 || b.1 <= a.0);
        }
        for entry in pool.entries() {
            assert!(a.1 <= entry.start || entry.end <= a.0);
        }
    }
}

#[test]
fn print_information_lists_regions_with_sizes() {
    let pool = pool(&[(0x1000, 0x3000), (0x5000, 0x6000)]);
    let information = pool.print_information("FREE");
    assert_eq!(information.header, "FREE");
    assert_eq!(
        information.regions,
        vec![
            RegionInformation { start: 0x1000, end: 0x3000, size: 0x2000 },
            RegionInformation { start: 0x5000, end: 0x6000, size: 0x1000 },
        ]
    );
    assert_eq!(regions(&pool), vec![(0x1000, 0x3000), (0x5000, 0x6000)]);
}

#[test]
fn print_information_of_empty_pool() {
    let information = FreeList::new().print_information("");
    assert_eq!(information.header, "");
    assert!(information.regions.is_empty());
}
