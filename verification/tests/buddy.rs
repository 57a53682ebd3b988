use pxp_rs::buddy_alloc::{is_power_of_two, BuddyAllocator, BuddyAllocatorManager};

const START: usize = 0x10_0000;

fn arena(size: usize) -> BuddyAllocator {
    assert!(BuddyAllocator::region_ok(START, START + size, 16));
    BuddyAllocator::new(START, START + size, 16)
}

#[test]
fn fresh_arena_serves_and_takes_back_a_leaf() {
    let mut a = arena(1024);
    let addr = a.allocate(16, 1).unwrap();
    assert_eq!(addr, START);
    a.dealloc(addr, 16, 1);
    assert_eq!(a.allocate(1024, 1), Some(START));
}

#[test]
fn max_size_is_leaf_size_times_two_to_the_levels() {
    assert_eq!(arena(1024).max_size(), 1024);
    assert_eq!(arena(2048).max_size(), 2048);
    assert_eq!(arena(16).max_size(), 16);
    assert_eq!(arena(64 * 1024).max_size(), 64 * 1024);
    assert_eq!(arena(64 * 1024).end_addr(), START + 64 * 1024);
}

#[test]
fn request_maps_to_the_deepest_level_that_holds_it() {
    let a = arena(1024);
    assert_eq!(a.req_size_to_level(1024), Some(0));
    assert_eq!(a.req_size_to_level(513), Some(0));
    assert_eq!(a.req_size_to_level(512), Some(1));
    assert_eq!(a.req_size_to_level(257), Some(1));
    assert_eq!(a.req_size_to_level(256), Some(2));
    assert_eq!(a.req_size_to_level(33), Some(4));
    assert_eq!(a.req_size_to_level(32), Some(5));
    assert_eq!(a.req_size_to_level(17), Some(5));
    assert_eq!(a.req_size_to_level(16), Some(6));
    assert_eq!(a.req_size_to_level(1), Some(6));
    assert_eq!(a.req_size_to_level(0), Some(6));
    assert_eq!(a.req_size_to_level(1025), None);
}

#[test]
fn contains_is_the_half_open_range() {
    let a = arena(1024);
    assert!(!a.contains(START - 1));
    assert!(a.contains(START));
    assert!(a.contains(START + 1023));
    assert!(!a.contains(START + 1024));
    assert_eq!(a.start_addr(), START);
}

#[test]
fn split_hands_out_the_lower_half_first() {
    let mut a = arena(1024);
    assert_eq!(a.allocate(16, 1), Some(START));
    assert_eq!(a.allocate(16, 1), Some(START + 16));
    assert_eq!(a.allocate(16, 1), Some(START + 32));
    assert_eq!(a.allocate(32, 1), Some(START + 64));
    assert_eq!(a.allocate(512, 1), Some(START + 512));
    assert_eq!(a.allocate(512, 1), None);
    assert_eq!(a.allocate(256, 1), Some(START + 256));
}

#[test]
fn get_free_block_and_split_level_number_blocks_by_level() {
    let mut a = arena(1024);
    assert_eq!(a.get_free_block(2), Some(0));
    assert_eq!(a.get_free_block(2), Some(1));
    assert_eq!(a.get_free_block(1), Some(1));
    assert_eq!(a.get_free_block(1), None);
    assert_eq!(a.get_free_block(0), None);
    assert_eq!(a.get_free_block(2), None);
    let mut b = arena(1024);
    assert_eq!(b.split_level(0), None);
    assert_eq!(b.split_level(1), Some(0));
    assert_eq!(b.get_free_block(1), Some(1));
    assert_eq!(b.split_level(1), None);
}

#[test]
fn alignment_larger_than_size_selects_the_level() {
    let mut a = arena(1024);
    assert_eq!(a.allocate(1, 1), Some(START));
    let addr = a.allocate(8, 256).unwrap();
    assert_eq!(addr, START + 256);
    assert_eq!((addr - START) % 256, 0);
    a.dealloc(addr, 8, 256);
    a.dealloc(START, 1, 1);
    assert_eq!(a.allocate(1024, 1), Some(START));
}

#[test]
fn request_larger_than_the_arena_is_not_served_and_changes_nothing() {
    let mut a = arena(1024);
    assert_eq!(a.allocate(1025, 1), None);
    assert_eq!(a.allocate(1, 2048), None);
    a.dealloc(START, 4096, 1);
    assert_eq!(a.allocate(1024, 1), Some(START));
}

#[test]
fn full_arena_refuses_and_recovers() {
    let mut a = arena(64);
    let mut got = Vec::new();
    for i in 0..4 {
        let addr = a.allocate(16, 1).unwrap();
        assert_eq!(addr, START + 16 * i);
        got.push(addr);
    }
    assert_eq!(a.allocate(16, 1), None);
    assert_eq!(a.allocate(1, 1), None);
    a.dealloc(got[2], 16, 1);
    assert_eq!(a.allocate(32, 1), None);
    assert_eq!(a.allocate(16, 1), Some(got[2]));
    for addr in got {
        a.dealloc(addr, 16, 1);
    }
    assert_eq!(a.allocate(64, 1), Some(START));
}

#[test]
fn buddies_merge_in_any_order_of_release() {
    let mut a = arena(128);
    let blocks: Vec<usize> = (0..8).map(|_| a.allocate(16, 1).unwrap()).collect();
    for &i in &[3usize, 0, 6, 1, 7, 2, 5, 4] {
        a.dealloc(blocks[i], 16, 1);
    }
    assert_eq!(a.allocate(128, 1), Some(START));
}

#[test]
fn live_allocations_do_not_overlap() {
    let mut a = arena(4096);
    let sizes = [16usize, 100, 16, 512, 33, 64, 1000, 16, 250];
    let mut live: Vec<(usize, usize)> = Vec::new();
    for &size in &sizes {
        if let Some(addr) = a.allocate(size, 1) {
            assert!(addr >= START && addr + size <= START + 4096);
            for &(other, len) in &live {
                assert!(addr + size <= other || other + len <= addr);
            }
            live.push((addr, size));
        }
    }
    assert!(live.len() >= 8);
}

#[test]
fn every_block_lies_within_the_arena() {
    let mut a = arena(1024);
    let mut count = 0;
    while let Some(addr) = a.allocate(16, 1) {
        assert!(a.contains(addr) && a.contains(addr + 15));
        count += 1;
    }
    assert_eq!(count, 64);
    let mut b = BuddyAllocator::new(0x1000, 0x1040, 16);
    assert_eq!(b.allocate(32, 1), Some(0x1000));
    assert_eq!(b.allocate(16, 1), Some(0x1020));
    assert_eq!(b.allocate(16, 1), Some(0x1030));
    assert_eq!(b.allocate(16, 1), None);
}

#[test]
fn arena_at_address_zero_serves_and_merges_like_any_other() {
    let mut a = BuddyAllocator::new(0, 64, 16);
    assert_eq!(a.report().free, vec![1, 0, 0]);
    assert_eq!(a.allocate(16, 1), Some(0));
    assert_eq!(a.report().free, vec![0, 1, 1]);
    a.dealloc(0, 16, 1);
    assert_eq!(a.report().free, vec![1, 0, 0]);

    assert_eq!(a.allocate(16, 1), Some(0));
    assert_eq!(a.allocate(16, 1), Some(16));
    assert_eq!(a.allocate(32, 1), Some(32));
    assert_eq!(a.allocate(16, 1), None);
    assert_eq!(a.report().free, vec![0, 0, 0]);
}

#[test]
fn release_merges_with_a_free_buddy_and_stops_at_a_live_one() {
    let mut a = BuddyAllocator::new(0, 64, 16);
    assert_eq!(a.allocate(16, 1), Some(0));
    assert_eq!(a.allocate(16, 1), Some(16));
    assert_eq!(a.allocate(16, 1), Some(32));
    assert_eq!(a.allocate(16, 1), Some(48));
    a.dealloc(16, 16, 1);
    a.dealloc(48, 16, 1);
    assert_eq!(a.report().free, vec![0, 0, 2]);
    a.dealloc(0, 16, 1);
    assert_eq!(a.report().free, vec![0, 1, 1]);
    assert_eq!(a.allocate(16, 1), Some(48));
    assert_eq!(a.allocate(32, 1), Some(0));
    assert_eq!(a.report().free, vec![0, 0, 0]);
}

#[test]
fn levels_are_the_fewest_that_hold_the_range() {
    let big = BuddyAllocator::new(0, 65536, 16).report();
    assert_eq!((big.levels, big.max_alloc), (13, 65536));
    assert_eq!(big.free, vec![1, 0, 0, 0, 0, 0, 0, 0, 0, 0, 0, 0, 0]);
    assert_eq!(BuddyAllocator::new(0, 48, 16).report().levels, 3);
    assert_eq!(BuddyAllocator::new(0, 16, 16).report().levels, 1);
    assert_eq!(BuddyAllocator::new(0, 1, 16).report().levels, 1);
    assert_eq!(BuddyAllocator::new(START, START + 1000, 16).max_size(), 1024);
    assert_eq!(BuddyAllocator::new(START, START + 1025, 16).max_size(), 2048);
    let a = BuddyAllocator::new(0, 64, 16);
    assert_eq!(a.req_size_to_level(1), Some(2));
    assert_eq!(a.req_size_to_level(16), Some(2));
    assert_eq!(a.req_size_to_level(17), Some(1));
    assert_eq!(a.req_size_to_level(32), Some(1));
    assert_eq!(a.req_size_to_level(33), Some(0));
    assert_eq!(a.req_size_to_level(64), Some(0));
    assert_eq!(a.req_size_to_level(65), None);
}

#[test]
fn root_block_of_a_range_that_is_no_power_of_two_is_rounded_up() {
    let mut a = BuddyAllocator::new(0x1000, 0x1030, 16);
    assert_eq!((a.start_addr(), a.end_addr(), a.max_size()), (0x1000, 0x1030, 64));
    assert_eq!(a.allocate(32, 1), Some(0x1000));
    assert_eq!(a.allocate(16, 1), Some(0x1020));
    assert_eq!(a.allocate(16, 1), Some(0x1030));
    assert_eq!(a.allocate(16, 1), None);
}

#[test]
fn every_region_that_can_be_an_arena_is_appended() {
    let mut m = BuddyAllocatorManager::new();
    assert!(m.init(0x1000, 48, 16));
    assert!(m.init(0, 64, 16));
    assert!(m.init(0x1040, 64, 16));
    assert!(m.init(0x1020, 32, 16));
    assert_eq!(m.fetch_memory_ranges(), Ok(vec![0x1000, 0, 0x1040, 0x1020]));
    let reports = m.reports();
    assert_eq!((reports[0].start, reports[0].end, reports[0].max_alloc), (0x1000, 0x1030, 64));
    assert_eq!(reports[0].free, vec![1, 0, 0]);
    assert!(m.clear_of(0x2000, 0x3000));
    assert!(!m.clear_of(0x1030, 0x1040));
    assert!(!m.clear_of(0, 1));
}

#[test]
fn region_ok_refuses_what_cannot_be_an_arena() {
    assert!(BuddyAllocator::region_ok(START, START + 1024, 16));
    assert!(BuddyAllocator::region_ok(START, START + 1000, 16));
    assert!(BuddyAllocator::region_ok(0, 64, 16));
    assert!(!BuddyAllocator::region_ok(START, START, 16));
    assert!(!BuddyAllocator::region_ok(START + 1, START, 16));
    assert!(!BuddyAllocator::region_ok(START, START + 1024, 0));
    assert!(!BuddyAllocator::region_ok(START, START + 1024, 24));
    assert!(BuddyAllocator::region_ok(0, 1usize << 36, 16));
    assert!(!BuddyAllocator::region_ok(0, (1usize << 36) + 1, 16));
    assert!(!BuddyAllocator::region_ok(usize::MAX - 100, usize::MAX, 16));
    assert!(BuddyAllocator::region_ok(usize::MAX - 16, usize::MAX, 16));
}

#[test]
fn is_power_of_two_on_the_edges() {
    assert!(!is_power_of_two(0));
    assert!(is_power_of_two(1));
    assert!(is_power_of_two(2));
    assert!(!is_power_of_two(3));
    assert!(is_power_of_two(16));
    assert!(is_power_of_two(32768));
    assert!(!is_power_of_two(65535));
}

#[test]
fn snapshot_keeps_the_state_apart() {
    let mut a = arena(1024);
    assert_eq!(a.allocate(16, 1), Some(START));
    let mut b = a.snapshot();
    assert_eq!(a.allocate(16, 1), Some(START + 16));
    assert_eq!(b.allocate(16, 1), Some(START + 16));
    assert_eq!(b.allocate(16, 1), Some(START + 32));
    assert_eq!(a.allocate(16, 1), Some(START + 32));
}

fn next(seed: &mut u64) -> usize {
    *seed = seed.wrapping_mul(6364136223846793005).wrapping_add(1442695040888963407);
    (*seed >> 33) as usize
}

#[test]
fn allocator_stress_ends_with_the_arena_fully_free() {
    let mut a = arena(64 * 1024);
    let mut seed: u64 = 0x5eed;
    let mut live: Vec<(usize, usize, usize)> = Vec::new();
    let mut pairs = 0;
    while pairs < 10_000 {
        let release = !live.is_empty() && (live.len() > 64 || next(&mut seed) % 3 == 0);
        if release {
            let i = next(&mut seed) % live.len();
            let (addr, size, align) = live.swap_remove(i);
            a.dealloc(addr, size, align);
            pairs += 1;
        } else {
            let size = 1 + next(&mut seed) % 700;
            let align = 1usize << (next(&mut seed) % 8);
            if let Some(addr) = a.allocate(size, align) {
                let bytes = size.max(align);
                assert!(addr >= START && addr + bytes <= START + 64 * 1024);
                assert_eq!((addr - START) % align, 0);
                for &(other, s, al) in &live {
                    let len = s.max(al);
                    assert!(addr + bytes <= other || other + len <= addr);
                }
                live.push((addr, size, align));
            }
        }
    }
    for (addr, size, align) in live {
        a.dealloc(addr, size, align);
    }
    assert_eq!(a.allocate(64 * 1024, 1), Some(START));
    a.dealloc(START, 64 * 1024, 1);
    assert_eq!(a.allocate(16, 1), Some(START));
}

#[test]
fn manager_serves_from_the_first_arena_that_can() {
    let mut m = BuddyAllocatorManager::new();
    assert_eq!(m.allocate(16, 1), Err(()));
    assert!(m.init(START, 64, 16));
    assert!(m.init(START + 0x1000, 1024, 16));
    assert_eq!(m.fetch_memory_ranges(), Ok(vec![START, START + 0x1000]));
    assert_eq!(m.allocate(64, 1), Ok(START));
    assert_eq!(m.allocate(16, 1), Ok(START + 0x1000));
    assert_eq!(m.allocate(128, 1), Ok(START + 0x1000 + 128));
    m.dealloc(START, 64, 1);
    assert_eq!(m.allocate(16, 1), Ok(START));
    assert_eq!(m.allocate(2048, 1), Err(()));
}

#[test]
fn manager_routes_a_release_to_the_owner_and_ignores_strangers() {
    let mut m = BuddyAllocatorManager::new();
    assert!(m.init(START, 64, 16));
    assert!(m.init(START + 0x1000, 64, 16));
    assert_eq!(m.allocate(64, 1), Ok(START));
    assert_eq!(m.allocate(64, 1), Ok(START + 0x1000));
    m.dealloc(START + 0x1000, 64, 1);
    m.dealloc(0x42, 64, 1);
    m.dealloc(START + 64, 64, 1);
    assert_eq!(m.allocate(64, 1), Ok(START + 0x1000));
    assert_eq!(m.allocate(64, 1), Err(()));
}

#[test]
fn manager_refuses_regions_that_cannot_be_arenas() {
    let mut m = BuddyAllocatorManager::new();
    assert!(!m.init(START, 0, 16));
    assert!(!m.init(START, 1024, 48));
    assert!(!m.init(usize::MAX - 8, 1024, 16));
    assert!(m.init(START, 1024, 16));
    assert!(m.init(START + 1024, 1024, 16));
    assert!(!m.add_memory_area(START + 100, START + 50, 16));
    assert!(m.add_memory_area(START - 32, START, 16));
    assert_eq!(m.fetch_memory_ranges(), Ok(vec![START, START + 1024, START - 32]));
}

#[test]
fn manager_snapshot_restores_an_earlier_state() {
    let mut m = BuddyAllocatorManager::new();
    assert!(m.init(START, 64, 16));
    let saved = m.snapshot();
    assert_eq!(m.allocate(64, 1), Ok(START));
    assert_eq!(m.allocate(16, 1), Err(()));
    m = saved;
    assert_eq!(m.allocate(16, 1), Ok(START));
}

#[test]
fn report_shows_the_figures_of_an_arena() {
    let mut a = BuddyAllocator::new(0x1000, 0x1100, 16);
    let fresh = a.report();
    assert_eq!((fresh.start, fresh.end, fresh.levels), (0x1000, 0x1100, 5));
    assert_eq!((fresh.block_size, fresh.max_alloc), (16, 256));
    assert_eq!(fresh.free, vec![1, 0, 0, 0, 0]);
    assert_eq!(a.allocate(16, 1), Some(0x1000));
    assert_eq!(a.report().free, vec![0, 1, 1, 1, 1]);
}

#[test]
fn manager_reports_every_arena_in_order() {
    let mut m = BuddyAllocatorManager::new();
    assert!(m.init(0x1000, 256, 16));
    assert!(m.init(0x4000, 1024, 16));
    let reports = m.reports();
    assert_eq!(reports.len(), 2);
    assert_eq!((reports[0].start, reports[0].max_alloc), (0x1000, 256));
    assert_eq!((reports[1].start, reports[1].levels), (0x4000, 7));
}

#[test]
fn blocks_given_back_in_the_order_of_their_requests_change_places_on_the_list() {
    let mut a = BuddyAllocator::new(START, START + 64, 16);
    for i in 0..4 {
        assert_eq!(a.allocate(16, 1), Some(START + 16 * i));
    }
    a.dealloc(START + 16, 16, 1);
    a.dealloc(START + 48, 16, 1);
    let before = a.report().free;
    let mut same = a.snapshot();
    assert_eq!(same.allocate(16, 1), Some(START + 48));

    let x = a.allocate(16, 1).unwrap();
    let y = a.allocate(16, 1).unwrap();
    assert_eq!((x, y), (START + 48, START + 16));
    a.dealloc(x, 16, 1);
    a.dealloc(y, 16, 1);
    assert_eq!(a.report().free, before);
    assert_eq!(a.allocate(16, 1), Some(START + 16));

    let mut b = BuddyAllocator::new(START, START + 64, 16);
    for i in 0..4 {
        assert_eq!(b.allocate(16, 1), Some(START + 16 * i));
    }
    b.dealloc(START + 16, 16, 1);
    b.dealloc(START + 48, 16, 1);
    let z = b.allocate(16, 1).unwrap();
    b.dealloc(z, 16, 1);
    assert_eq!(b.allocate(16, 1), Some(START + 48));
}
