use crusty_os::buddy::{alloc_pages, dealloc_pages, BuddyAllocator};
use crusty_os::framework::PAGE_SIZE;
use crusty_os::memory::Memory;

const BASE: u64 = 0x40_0000;

fn memory(pages: u64) -> Memory {
    Memory::new(BASE, vec![0u8; (pages * PAGE_SIZE) as usize])
}

fn with_region(pages: u64) -> (BuddyAllocator, Memory) {
    let mut buddy = BuddyAllocator::new();
    let mut mem = memory(16);
    buddy.add_region(&mut mem, BASE, pages);
    (buddy, mem)
}

#[test]
fn alloc_and_dealloc_single_page() {
    let (mut buddy, mut mem) = with_region(4);
    let ptr = buddy.alloc_pages(&mut mem, 0).expect("order-0 alloc failed");
    assert!(ptr >= BASE);
    assert_eq!(buddy.stats().alloc_count, 1);
    buddy.dealloc_pages(&mut mem, ptr, 0);
    assert_eq!(buddy.stats().dealloc_count, 1);
    assert_eq!(buddy.stats().used_bytes, 0);
}

#[test]
fn alloc_order1_spans_two_pages() {
    let (mut buddy, mut mem) = with_region(4);
    let ptr = buddy.alloc_pages(&mut mem, 1).expect("order-1 alloc failed");
    assert_eq!(buddy.stats().used_bytes, 2 * PAGE_SIZE);
    buddy.dealloc_pages(&mut mem, ptr, 1);
    assert_eq!(buddy.stats().used_bytes, 0);
}

#[test]
fn two_order0_allocs_do_not_overlap() {
    let (mut buddy, mut mem) = with_region(4);
    let p0 = buddy.alloc_pages(&mut mem, 0).expect("first order-0 alloc");
    let p1 = buddy.alloc_pages(&mut mem, 0).expect("second order-0 alloc");
    let diff = p0.abs_diff(p1);
    assert!(diff >= PAGE_SIZE, "allocations overlap: p0={p0:?} p1={p1:?}");
    buddy.dealloc_pages(&mut mem, p0, 0);
    buddy.dealloc_pages(&mut mem, p1, 0);
}

#[test]
fn coalescing_restores_higher_order_block() {
    let (mut buddy, mut mem) = with_region(4);
    let a = buddy.alloc_pages(&mut mem, 1).expect("first order-1 alloc");
    let b = buddy.alloc_pages(&mut mem, 1).expect("second order-1 alloc");
    assert!(buddy.alloc_pages(&mut mem, 0).is_none(), "heap should be full");
    buddy.dealloc_pages(&mut mem, a, 1);
    buddy.dealloc_pages(&mut mem, b, 1);
    let full = buddy.alloc_pages(&mut mem, 2).expect("order-2 alloc after coalesce");
    buddy.dealloc_pages(&mut mem, full, 2);
}

#[test]
fn oom_returns_none() {
    let (mut buddy, mut mem) = with_region(1);
    let _p = buddy.alloc_pages(&mut mem, 0).expect("first alloc must succeed");
    assert!(buddy.alloc_pages(&mut mem, 0).is_none(), "second alloc must fail (OOM)");
}

#[test]
fn stats_track_used_and_free_bytes() {
    let (mut buddy, mut mem) = with_region(4);
    let initial_free = buddy.stats().free_bytes;
    assert_eq!(buddy.stats().used_bytes, 0);
    let p = buddy.alloc_pages(&mut mem, 0).expect("alloc");
    assert_eq!(buddy.stats().used_bytes, PAGE_SIZE);
    assert_eq!(buddy.stats().free_bytes, initial_free - PAGE_SIZE);
    assert_eq!(buddy.stats().alloc_count, 1);
    buddy.dealloc_pages(&mut mem, p, 0);
    assert_eq!(buddy.stats().used_bytes, 0);
    assert_eq!(buddy.stats().free_bytes, initial_free);
    assert_eq!(buddy.stats().dealloc_count, 1);
}

#[test]
fn peak_bytes_tracks_high_water_mark() {
    let (mut buddy, mut mem) = with_region(4);
    let p0 = buddy.alloc_pages(&mut mem, 0).expect("alloc p0");
    let p1 = buddy.alloc_pages(&mut mem, 0).expect("alloc p1");
    let peak_after_two = buddy.stats().peak_bytes;
    assert_eq!(peak_after_two, 2 * PAGE_SIZE);
    buddy.dealloc_pages(&mut mem, p1, 0);
    assert_eq!(buddy.stats().peak_bytes, peak_after_two);
    buddy.dealloc_pages(&mut mem, p0, 0);
    assert_eq!(buddy.stats().peak_bytes, peak_after_two);
}

#[test]
fn an_allocator_without_memory_has_no_room() {
    let mut buddy = BuddyAllocator::new();
    let mut mem = memory(1);
    assert_eq!(buddy.alloc_pages(&mut mem, 0), None);
    assert_eq!(buddy.alloc_pages(&mut mem, 10), None);
    assert_eq!(buddy.stats(), Default::default());
}

#[test]
fn blocks_start_at_multiples_of_their_size() {
    let mut buddy = BuddyAllocator::new();
    let mut mem = memory(16);
    buddy.add_region(&mut mem, BASE, 16);
    for order in 0..5usize {
        let p = buddy.alloc_pages(&mut mem, order);
        if let Some(p) = p {
            assert_eq!((p - BASE) % (PAGE_SIZE << order), 0);
            buddy.dealloc_pages(&mut mem, p, order);
        }
    }
    assert!(buddy.alloc_pages(&mut mem, 4).is_some());
    assert!(buddy.alloc_pages(&mut mem, 0).is_none());
}

#[test]
fn two_regions_are_both_used() {
    let mut buddy = BuddyAllocator::new();
    let mut mem = memory(16);
    buddy.add_region(&mut mem, BASE, 2);
    buddy.add_region(&mut mem, BASE + 8 * PAGE_SIZE, 4);
    assert_eq!(buddy.stats().total_bytes, 6 * PAGE_SIZE);
    assert_eq!(buddy.stats().free_bytes, 6 * PAGE_SIZE);
    let big = buddy.alloc_pages(&mut mem, 2).unwrap();
    assert_eq!(big, BASE + 8 * PAGE_SIZE);
    let small = buddy.alloc_pages(&mut mem, 1).unwrap();
    assert_eq!(small, BASE);
    assert!(buddy.alloc_pages(&mut mem, 0).is_none());
}

#[test]
fn giving_back_at_once_restores_the_blocks() {
    let (mut buddy, mut mem) = with_region(8);
    let before = buddy.stats();
    for order in 0..4usize {
        let p = buddy.alloc_pages(&mut mem, order).unwrap();
        buddy.dealloc_pages(&mut mem, p, order);
    }
    let after = buddy.stats();
    assert_eq!(after.free_bytes, before.free_bytes);
    assert_eq!(after.used_bytes, 0);
    assert!(buddy.alloc_pages(&mut mem, 3).is_some());
}

#[test]
fn what_is_stored_in_a_block_stays() {
    let (mut buddy, mut mem) = with_region(8);
    let kept = buddy.alloc_pages(&mut mem, 1).unwrap();
    for i in 0..(2 * PAGE_SIZE / 8) {
        mem.write_u64(kept + 8 * i, 0x0101_0101_0101_0101 * (i % 251));
    }
    let a = buddy.alloc_pages(&mut mem, 0).unwrap();
    let b = buddy.alloc_pages(&mut mem, 2).unwrap();
    buddy.dealloc_pages(&mut mem, a, 0);
    buddy.dealloc_pages(&mut mem, b, 2);
    for i in 0..(2 * PAGE_SIZE / 8) {
        assert_eq!(mem.read_u64(kept + 8 * i), 0x0101_0101_0101_0101 * (i % 251));
    }
}

#[test]
fn shared_functions_do_what_the_methods_do() {
    let (mut buddy, mut mem) = with_region(4);
    let p = alloc_pages(&mut buddy, &mut mem, 2).unwrap();
    assert_eq!(p, BASE);
    assert_eq!(alloc_pages(&mut buddy, &mut mem, 0), None);
    dealloc_pages(&mut buddy, &mut mem, p, 2);
    assert_eq!(buddy.stats().free_bytes, 4 * PAGE_SIZE);
}

#[test]
fn random_operations_never_overlap_and_lose_nothing() {
    let pages = 512u64;
    let mut buddy = BuddyAllocator::new();
    let mut mem = memory(pages);
    buddy.add_region(&mut mem, BASE, pages);
    let mut live: Vec<(u64, usize)> = Vec::new();
    let mut seed = 0x1234_5678_9abc_def1u64;
    for _ in 0..4000 {
        seed ^= seed << 13;
        seed ^= seed >> 7;
        seed ^= seed << 17;
        if seed % 3 != 0 || live.is_empty() {
            let order = ((seed >> 8) % 6) as usize;
            if let Some(p) = buddy.alloc_pages(&mut mem, order) {
                let size = PAGE_SIZE << order;
                assert!(p >= BASE && p + size <= BASE + pages * PAGE_SIZE);
                for &(q, o) in &live {
                    assert!(p + size <= q || q + (PAGE_SIZE << o) <= p);
                }
                live.push((p, order));
            }
        } else {
            let i = ((seed >> 8) as usize) % live.len();
            let (p, order) = live.swap_remove(i);
            buddy.dealloc_pages(&mut mem, p, order);
        }
        let used: u64 = live.iter().map(|&(_, o)| PAGE_SIZE << o).sum();
        assert_eq!(buddy.stats().used_bytes, used);
        assert_eq!(buddy.stats().free_bytes + used, pages * PAGE_SIZE);
        assert!(buddy.stats().peak_bytes >= used);
    }
    for (p, order) in live {
        buddy.dealloc_pages(&mut mem, p, order);
    }
    assert!(buddy.alloc_pages(&mut mem, 9).is_some());
}

#[test]
fn a_round_trip_frees_the_same_pages() {
    let mut mem = Memory::new(BASE, vec![0u8; 3 * PAGE_SIZE as usize]);
    let mut buddy = BuddyAllocator::new();
    buddy.add_region(&mut mem, BASE, 3);
    assert!(buddy.can_allocate(&mem, 0));
    let p = buddy.alloc_pages(&mut mem, 0).unwrap();
    buddy.dealloc_pages(&mut mem, p, 0);
    assert_eq!(buddy.stats().free_bytes, 3 * PAGE_SIZE);
    let mut pages: Vec<u64> = Vec::new();
    while let Some(p) = buddy.alloc_pages(&mut mem, 0) {
        pages.push(p);
    }
    pages.sort();
    assert_eq!(pages, vec![BASE, BASE + PAGE_SIZE, BASE + 2 * PAGE_SIZE]);
    let s = buddy.stats();
    assert_eq!(s.alloc_count - s.dealloc_count, 3);
    assert!(s.used_bytes <= s.peak_bytes && s.peak_bytes <= s.total_bytes);
}

#[test]
fn a_freed_block_merges_with_its_buddy() {
    let mut mem = Memory::new(BASE, vec![0u8; 3 * PAGE_SIZE as usize]);
    let mut buddy = BuddyAllocator::new();
    buddy.add_region(&mut mem, BASE, 3);
    let mut pages: Vec<u64> = (0..3).map(|_| buddy.alloc_pages(&mut mem, 0).unwrap()).collect();
    pages.sort();
    buddy.dealloc_pages(&mut mem, pages[2], 0);
    buddy.dealloc_pages(&mut mem, pages[0], 0);
    assert!(buddy.alloc_pages(&mut mem, 1).is_none());
    buddy.dealloc_pages(&mut mem, pages[1], 0);
    assert_eq!(buddy.alloc_pages(&mut mem, 1), Some(BASE));
    assert_eq!(buddy.base(), BASE);
}

#[test]
fn regions_are_carved_into_the_largest_blocks() {
    let mut mem = memory(3);
    let mut buddy = BuddyAllocator::new();
    buddy.add_region(&mut mem, BASE, 3);
    assert_eq!(buddy.alloc_pages(&mut mem, 1), Some(BASE));
    assert_eq!(buddy.alloc_pages(&mut mem, 0), Some(BASE + 2 * PAGE_SIZE));
    assert_eq!(buddy.alloc_pages(&mut mem, 0), None);

    for (pages, largest) in [(300, 8), (176, 7), (255, 7), (256, 8), (1, 0)] {
        let mut mem = memory(pages);
        let mut buddy = BuddyAllocator::new();
        buddy.add_region(&mut mem, BASE, pages);
        assert!(buddy.alloc_pages(&mut mem, largest + 1).is_none());
        assert_eq!(buddy.alloc_pages(&mut mem, largest), Some(BASE));
    }
}

#[test]
fn a_region_behind_another_is_carved_where_it_is_aligned() {
    let mut mem = memory(8);
    let mut buddy = BuddyAllocator::new();
    buddy.add_region(&mut mem, BASE, 1);
    buddy.add_region(&mut mem, BASE + PAGE_SIZE, 7);
    assert_eq!(buddy.alloc_pages(&mut mem, 2), Some(BASE + 4 * PAGE_SIZE));
    assert_eq!(buddy.alloc_pages(&mut mem, 1), Some(BASE + 2 * PAGE_SIZE));
}
