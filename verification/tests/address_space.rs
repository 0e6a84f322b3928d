use kernel_elf_loader::address_space::{ADDRESS_LIMIT, MAX_REGIONS};
use kernel_elf_loader::{AddressSpace, VirtAddr};

#[test]
fn test_mark_used_and_find_free() {
    let mut space = AddressSpace::new();
    space.mark_used(VirtAddr::new(0x1000), 0x1000);
    space.mark_used(VirtAddr::new(0x3000), 0x1000);

    // Should find the gap at 0x2000.
    let addr = space.find_free(0x1000, 0x1000, None).unwrap();
    assert_eq!(addr.as_u64(), 0x2000);
}

#[test]
fn test_merge_adjacent() {
    let mut space = AddressSpace::new();
    space.mark_used(VirtAddr::new(0x1000), 0x1000);
    space.mark_used(VirtAddr::new(0x2000), 0x1000);
    assert_eq!(space.region_count(), 1);
}

#[test]
fn test_merge_overlapping() {
    let mut space = AddressSpace::new();
    space.mark_used(VirtAddr::new(0x1000), 0x2000);
    space.mark_used(VirtAddr::new(0x2000), 0x2000);
    assert_eq!(space.region_count(), 1);
}

#[test]
fn test_alignment() {
    let mut space = AddressSpace::new();
    space.mark_used(VirtAddr::new(0x0), 0x1001); // Ends at 0x1001

    // With 0x1000 alignment, should align up to 0x2000.
    let addr = space.find_free(0x1000, 0x1000, None).unwrap();
    assert_eq!(addr.as_u64(), 0x2000);
}

#[test]
fn test_no_null_allocation() {
    let mut space = AddressSpace::new();
    // The whole space is free, but we should not get address 0.
    let addr = space.find_free(0x1000, 0x1000, None).unwrap();
    assert!(addr.as_u64() > 0);
}

#[test]
fn nothing_is_marked_for_an_empty_range() {
    let mut space = AddressSpace::new();
    space.mark_used(VirtAddr::new(0x1000), 0);
    assert_eq!(space.region_count(), 0);
}

#[test]
fn one_region_swallows_all_that_it_touches() {
    let mut space = AddressSpace::new();
    space.mark_used(VirtAddr::new(0x9000), 0x1000);
    space.mark_used(VirtAddr::new(0x1000), 0x1000);
    space.mark_used(VirtAddr::new(0x5000), 0x1000);
    assert_eq!(space.region_count(), 3);
    space.mark_used(VirtAddr::new(0x2000), 0x3000);
    assert_eq!(space.region_count(), 2);
    // 0x1000..0x6000 is used, so the next free page is 0x6000.
    assert_eq!(space.find_free(0x1000, 0x1000, None), Some(VirtAddr::new(0x6000)));
    // 0x7000..0x9000 is left before the last region.
    assert_eq!(space.find_free(0x2000, 0x1000, None), Some(VirtAddr::new(0x7000)));
    assert_eq!(space.region_count(), 1);
    assert_eq!(space.find_free(0x1000, 0x1000, None), Some(VirtAddr::new(0xA000)));
}

#[test]
fn a_found_region_is_not_found_again() {
    let mut space = AddressSpace::new();
    space.mark_used(VirtAddr::new(0), 0x1000);
    assert_eq!(space.find_free(0x800, 0x1000, None), Some(VirtAddr::new(0x1000)));
    assert_eq!(space.find_free(0x800, 0x1000, None), Some(VirtAddr::new(0x2000)));
    assert_eq!(space.find_free(0x800, 0x800, None), Some(VirtAddr::new(0x1800)));
}

#[test]
fn a_range_is_cut_off_at_the_last_address() {
    let mut space = AddressSpace::new();
    space.mark_used(VirtAddr::new(0x10000), u64::MAX);
    assert_eq!(space.region_count(), 1);
    // Only the gap in front is left, and it does not start at zero.
    assert_eq!(space.find_free(0x8000, 0x8000, None), Some(VirtAddr::new(0x8000)));
    assert_eq!(space.find_free(0x8000, 0x8000, None), None);
}

#[test]
fn an_unused_space_reaches_past_the_limit() {
    let mut space = AddressSpace::new();
    let size = ADDRESS_LIMIT;
    assert_eq!(space.find_free(size, 0x1000, None), Some(VirtAddr::new(0x1000)));
    let mut space = AddressSpace::new();
    assert_eq!(space.find_free(u64::MAX, 0x1000, None), None);
    assert_eq!(space.region_count(), 0);
}

#[test]
fn behind_the_last_region_the_limit_holds() {
    let mut space = AddressSpace::new();
    space.mark_used(VirtAddr::new(0), ADDRESS_LIMIT - 0x2000);
    assert_eq!(space.find_free(0x3000, 0x1000, None), None);
    assert_eq!(
        space.find_free(0x2000, 0x1000, None),
        Some(VirtAddr::new(ADDRESS_LIMIT - 0x2000))
    );
    assert_eq!(space.find_free(1, 1, None), None);
}

#[test]
fn a_random_word_counts_positions_through_all_gaps() {
    // Free are 0x1000..0x3000 (two pages), 0x5000..0x6000 (one page) and what follows 0x8000.
    let make = || {
        let mut space = AddressSpace::new();
        space.mark_used(VirtAddr::new(0), 0x1000);
        space.mark_used(VirtAddr::new(0x3000), 0x2000);
        space.mark_used(VirtAddr::new(0x6000), 0x2000);
        space
    };
    let pick = |word: u64| make().find_free(0x1000, 0x1000, Some(word)).unwrap().as_u64();
    assert_eq!(pick(0), 0x1000);
    assert_eq!(pick(1), 0x2000);
    assert_eq!(pick(2), 0x5000);
    assert_eq!(pick(3), 0x8000);
    assert_eq!(pick(4), 0x9000);
    // The last gap has (0xFFFF_FFFF_FFFF_0000 - 0x8000) / 0x1000 positions.
    let total = 3 + (ADDRESS_LIMIT - 0x8000) / 0x1000;
    assert_eq!(pick(total), 0x1000);
    assert_eq!(pick(total - 1), ADDRESS_LIMIT - 0x1000);
    assert_eq!(pick(total + 2), 0x5000);
}

#[test]
fn both_views_of_an_unused_space_count() {
    let pick = |word: u64| {
        let mut space = AddressSpace::new();
        space.find_free(1 << 62, 1 << 62, Some(word)).unwrap().as_u64()
    };
    // Up to the last address there are positions 1 and 2, and up to the limit as well.
    assert_eq!(pick(0), 1 << 62);
    assert_eq!(pick(1), 2 << 62);
    assert_eq!(pick(2), 1 << 62);
    assert_eq!(pick(3), 2 << 62);
    assert_eq!(pick(4), 1 << 62);
}

#[test]
fn a_random_word_finds_nothing_where_nothing_is_free() {
    let mut space = AddressSpace::new();
    space.mark_used(VirtAddr::new(1), u64::MAX);
    assert_eq!(space.find_free(0x1000, 0x1000, Some(7)), None);
}

#[test]
fn as_many_regions_fit_as_there_is_room_for() {
    let mut space = AddressSpace::new();
    for i in 0..MAX_REGIONS as u64 {
        space.mark_used(VirtAddr::new(0x10_0000 + i * 0x2000), 0x1000);
    }
    assert_eq!(space.region_count(), MAX_REGIONS);
    space.mark_used(VirtAddr::new(0), 0);
    assert_eq!(space.region_count(), MAX_REGIONS);
}

#[test]
fn every_free_place_can_be_picked() {
    let mut found = vec![];
    for word in 0..4 {
        let mut space = AddressSpace::new();
        space.mark_used(VirtAddr::new(0), 0x1000);
        space.mark_used(VirtAddr::new(0x3000), 0x2000);
        space.mark_used(VirtAddr::new(0x7000), 0xFFFF_FFFF_FFFF_0000 - 0x7000);
        found.push(space.find_free(0x1000, 0x1000, Some(word)).unwrap().as_u64());
    }
    assert_eq!(found, vec![0x1000, 0x2000, 0x5000, 0x6000]);
}

#[test]
fn the_order_in_which_ranges_are_marked_does_not_matter() {
    let ranges = [(0x9000, 0x1000), (0x1000, 0x2000), (0x3000, 0x800), (0x2000, 0x4000)];
    let orders = [vec![0, 1, 2, 3], vec![3, 2, 1, 0], vec![2, 0, 2, 3, 1, 1, 0]];
    for order in orders {
        let mut space = AddressSpace::new();
        for i in order {
            let (start, size) = ranges[i];
            space.mark_used(VirtAddr::new(start), size);
        }
        // Used are 0x1000..0x6000 and 0x9000..0xA000.
        assert_eq!(space.region_count(), 2);
        assert_eq!(space.find_free(0x3000, 0x1000, None), Some(VirtAddr::new(0x6000)));
        assert_eq!(space.region_count(), 1);
        assert_eq!(space.find_free(0x1000, 0x1000, None), Some(VirtAddr::new(0xA000)));
    }
}
