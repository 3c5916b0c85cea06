use crusty_os::buddy::BuddyAllocator;
use crusty_os::framework::PAGE_SIZE;
use crusty_os::memory::Memory;
use crusty_os::tlsf::{TlsfAllocator, TlsfInner};

const BASE: u64 = 0x10_0000;

fn heap(order: usize) -> (TlsfAllocator, BuddyAllocator, Memory) {
    let pages = 1u64 << order;
    let mut mem = Memory::new(BASE, vec![0u8; (pages * PAGE_SIZE) as usize]);
    let mut buddy = BuddyAllocator::new();
    buddy.add_region(&mut mem, BASE, pages);
    let mut heap = TlsfAllocator::new();
    heap.init(&mut buddy, &mut mem, order).unwrap();
    (heap, buddy, mem)
}

#[test]
fn a_heap_without_a_pool_has_no_room() {
    let mut mem = Memory::new(BASE, vec![0u8; 4096]);
    let mut heap = TlsfAllocator::new();
    assert_eq!(heap.allocate(&mut mem, 1, 1), 0);
}

#[test]
fn no_pages_no_pool() {
    let mut mem = Memory::new(BASE, vec![0u8; 4096]);
    let mut buddy = BuddyAllocator::new();
    buddy.add_region(&mut mem, BASE, 1);
    let mut heap = TlsfAllocator::new();
    assert_eq!(
        heap.init(&mut buddy, &mut mem, 1),
        Err("TLSF init: buddy OOM — reduce buddy_order or add more regions")
    );
    assert_eq!(buddy.stats().used_bytes, 0);
    assert_eq!(heap.allocate(&mut mem, 1, 1), 0);
}

#[test]
fn the_pool_comes_from_the_page_allocator() {
    let (_, buddy, _) = heap(4);
    assert_eq!(buddy.stats().used_bytes, 16 * PAGE_SIZE);
    assert_eq!(buddy.stats().free_bytes, 0);
}

#[test]
fn simple_allocation() {
    let (mut heap, _, mut mem) = heap(4);
    let a = heap.allocate(&mut mem, 8, 8);
    let b = heap.allocate(&mut mem, 8, 8);
    assert_ne!(a, 0);
    assert_ne!(b, 0);
    mem.write_u64(a, 41);
    mem.write_u64(b, 13);
    assert_eq!(mem.read_u64(a), 41);
    assert_eq!(mem.read_u64(b), 13);
}

#[test]
fn many_boxes() {
    let (mut heap, _, mut mem) = heap(4);
    for i in 0..10_000u64 {
        let x = heap.allocate(&mut mem, 8, 8);
        assert_ne!(x, 0);
        mem.write_u64(x, i);
        assert_eq!(mem.read_u64(x), i);
        heap.dealloc(&mut mem, x);
    }
}

#[test]
fn many_boxes_long_lived() {
    let (mut heap, _, mut mem) = heap(4);
    let long_lived = heap.allocate(&mut mem, 8, 8);
    mem.write_u64(long_lived, 42);
    for i in 0..1000u64 {
        let x = heap.allocate(&mut mem, 8, 8);
        mem.write_u64(x, i);
        assert_eq!(mem.read_u64(x), i);
        heap.dealloc(&mut mem, x);
    }
    assert_eq!(mem.read_u64(long_lived), 42);
}

#[test]
fn large_vec() {
    let (mut heap, _, mut mem) = heap(4);
    let n = 1000u64;
    let v = heap.allocate(&mut mem, 8 * n, 8);
    assert_ne!(v, 0);
    for i in 0..n {
        mem.write_u64(v + 8 * i, i);
    }
    let sum: u64 = (0..n).map(|i| mem.read_u64(v + 8 * i)).sum();
    assert_eq!(sum, (n - 1) * n / 2);
}

#[test]
fn test_bulk_alloc_then_free() {
    let (mut heap, _, mut mem) = heap(6);
    let boxes: Vec<u64> = (0..256u64)
        .map(|i| {
            let p = heap.allocate(&mut mem, 8, 8);
            assert_ne!(p, 0);
            mem.write_u64(p, i);
            p
        })
        .collect();
    for (i, &p) in boxes.iter().enumerate() {
        assert_eq!(mem.read_u64(p), i as u64);
    }
    for &p in &boxes {
        heap.dealloc(&mut mem, p);
    }
    assert_ne!(heap.allocate(&mut mem, 100_000, 8), 0);
}

#[test]
fn test_long_lived_box_survives_churn() {
    let (mut heap, _, mut mem) = heap(4);
    let sentinel = heap.allocate(&mut mem, 8, 8);
    mem.write_u64(sentinel, 0xCAFE_BABE);
    for i in 0..500u64 {
        let tmp = heap.allocate(&mut mem, 8, 8);
        mem.write_u64(tmp, i);
        assert_eq!(mem.read_u64(tmp), i);
        heap.dealloc(&mut mem, tmp);
    }
    assert_eq!(mem.read_u64(sentinel), 0xCAFE_BABE);
}

#[test]
fn payloads_are_aligned_as_asked() {
    let (mut heap, _, mut mem) = heap(6);
    let mut align = 1u64;
    while align <= 4096 {
        let p = heap.allocate(&mut mem, 100, align);
        assert_ne!(p, 0);
        assert_eq!(p % align, 0);
        align *= 2;
    }
}

#[test]
fn requests_that_do_not_fit_are_refused() {
    let (mut heap, _, mut mem) = heap(2);
    assert_eq!(heap.allocate(&mut mem, 4 * PAGE_SIZE, 8), 0);
    assert_eq!(heap.allocate(&mut mem, i64::MAX as u64, 1), 0);
    assert_eq!(heap.allocate(&mut mem, 0x4000_0000, 8), 0);
    assert_eq!(heap.allocate(&mut mem, 8, 1 << 63), 0);
    assert_ne!(heap.allocate(&mut mem, 8, 8), 0);
}

#[test]
fn neighbours_merge_when_given_back() {
    let mut mem = Memory::new(BASE, vec![0u8; 65536]);
    let mut heap = TlsfInner::new();
    heap.add_pool(&mut mem, BASE, 65536);
    let a = heap.allocate(&mut mem, 10_000).unwrap();
    let b = heap.allocate(&mut mem, 10_000).unwrap();
    let c = heap.allocate(&mut mem, 10_000).unwrap();
    assert!(heap.allocate(&mut mem, 60_000).is_none());
    heap.dealloc(&mut mem, a);
    heap.dealloc(&mut mem, c);
    assert!(heap.allocate(&mut mem, 60_000).is_none());
    heap.dealloc(&mut mem, b);
    assert!(heap.allocate(&mut mem, 60_000).is_some());
}

#[test]
fn giving_back_at_once_restores_the_heap() {
    let mut mem = Memory::new(BASE, vec![0u8; 16384]);
    let mut heap = TlsfInner::new();
    heap.add_pool(&mut mem, BASE, 16384);
    let first = heap.allocate(&mut mem, 500).unwrap();
    heap.dealloc(&mut mem, first);
    let second = heap.allocate(&mut mem, 500).unwrap();
    assert_eq!(first, second);
    assert_eq!(first, BASE + 32);
}

#[test]
fn random_operations_never_overlap_and_lose_nothing_of_the_heap() {
    let (mut heap, _, mut mem) = heap(8);
    let mut live: Vec<(u64, u64, u64)> = Vec::new();
    let mut seed = 0x9e37_79b9_7f4a_7c15u64;
    for step in 0..6000u64 {
        seed ^= seed << 13;
        seed ^= seed >> 7;
        seed ^= seed << 17;
        if seed % 5 < 3 || live.is_empty() {
            let words = 1 + (seed >> 16) % 300;
            let p = heap.allocate(&mut mem, 8 * words, 8);
            if p != 0 {
                assert_eq!(p % 8, 0);
                assert!(p >= BASE && p + 8 * words <= BASE + 256 * PAGE_SIZE);
                for &(q, n, _) in &live {
                    assert!(p + 8 * words <= q || q + 8 * n <= p);
                }
                for i in 0..words {
                    mem.write_u64(p + 8 * i, step ^ i);
                }
                live.push((p, words, step));
            }
        } else {
            let i = ((seed >> 16) as usize) % live.len();
            let (p, words, tag) = live.swap_remove(i);
            for k in 0..words {
                assert_eq!(mem.read_u64(p + 8 * k), tag ^ k);
            }
            heap.dealloc(&mut mem, p);
        }
    }
    for (p, _, _) in live {
        heap.dealloc(&mut mem, p);
    }
    assert_ne!(heap.allocate(&mut mem, 250 * PAGE_SIZE, 8), 0);
}

#[test]
fn sizes_have_their_class() {
    assert_eq!(TlsfInner::mapping(1), (0, 0));
    assert_eq!(TlsfInner::mapping(3), (1, 16));
    assert_eq!(TlsfInner::mapping(31), (4, 30));
    assert_eq!(TlsfInner::mapping(100), (6, 18));
    assert_eq!(TlsfInner::mapping(u64::MAX), (63, 31));
    assert_eq!(TlsfInner::mapping_search(1), (0, 0));
    assert_eq!(TlsfInner::mapping_search(31), (4, 30));
    assert_eq!(TlsfInner::mapping_search(100), (6, 18));
    assert_eq!(TlsfInner::mapping_search(101), (6, 19));
    assert_eq!(TlsfInner::mapping_search(127), (7, 0));
    for size in 1..5000u64 {
        let class = TlsfInner::mapping_search(size);
        assert!(TlsfInner::mapping(size) <= class);
        assert!(size == 1 || TlsfInner::mapping(size - 1) < class);
    }
}
