use crusty_os::buddy::BuddyAllocator;
use crusty_os::framework::PAGE_SIZE;
use crusty_os::memory::Memory;
use crusty_os::slab::{assert_slab_compatible, SlabCache, SlabCacheInner};

const BASE: u64 = 0x10_0000;

type Object = [u64; 4];

fn pages(n: u64) -> (BuddyAllocator, Memory) {
    let mut mem = Memory::new(BASE, vec![0u8; (n * PAGE_SIZE) as usize]);
    let mut buddy = BuddyAllocator::new();
    buddy.add_region(&mut mem, BASE, n);
    (buddy, mem)
}

#[test]
fn an_object_comes_from_a_fresh_slab() {
    let (mut buddy, mut mem) = pages(4);
    let mut cache: SlabCache<Object> = SlabCache::new(0);
    let a = cache.allocate(&mut buddy, &mut mem).unwrap();
    assert_eq!(a, BASE);
    let s = cache.stats();
    assert_eq!(s.total_bytes, PAGE_SIZE);
    assert_eq!(s.used_bytes, 32);
    // 127 slots of 32 bytes and the header fill the page
    assert_eq!(s.free_bytes, 126 * 32);
    assert_eq!(s.alloc_count, 1);
    assert_eq!(buddy.stats().used_bytes, PAGE_SIZE);
    let b = cache.allocate(&mut buddy, &mut mem).unwrap();
    assert_eq!(b, BASE + 32);
}

#[test]
fn an_empty_slab_goes_back_at_once() {
    let (mut buddy, mut mem) = pages(4);
    let mut cache: SlabCache<Object> = SlabCache::new(0);
    let a = cache.allocate(&mut buddy, &mut mem).unwrap();
    cache.dealloc(&mut buddy, &mut mem, a);
    let s = cache.stats();
    assert_eq!((s.total_bytes, s.used_bytes, s.free_bytes), (0, 0, 0));
    assert_eq!((s.alloc_count, s.dealloc_count, s.peak_bytes), (1, 1, 32));
    assert_eq!(buddy.stats().used_bytes, 0);
}

#[test]
fn a_slot_that_was_given_back_is_used_next() {
    let (mut buddy, mut mem) = pages(4);
    let mut cache: SlabCache<Object> = SlabCache::new(0);
    let a = cache.allocate(&mut buddy, &mut mem).unwrap();
    let b = cache.allocate(&mut buddy, &mut mem).unwrap();
    cache.dealloc(&mut buddy, &mut mem, a);
    let c = cache.allocate(&mut buddy, &mut mem).unwrap();
    assert_eq!(c, a);
    assert_ne!(c, b);
}

#[test]
fn a_full_slab_is_followed_by_another() {
    let (mut buddy, mut mem) = pages(4);
    let mut cache: SlabCache<Object> = SlabCache::new(0);
    let mut all = Vec::new();
    for _ in 0..128 {
        all.push(cache.allocate(&mut buddy, &mut mem).unwrap());
    }
    assert_eq!(cache.stats().total_bytes, 2 * PAGE_SIZE);
    assert_eq!(all[126], BASE + 126 * 32);
    assert_eq!(all[127], BASE + PAGE_SIZE);
    for a in all {
        cache.dealloc(&mut buddy, &mut mem, a);
    }
    assert_eq!(cache.stats().total_bytes, 0);
    assert_eq!(buddy.stats().used_bytes, 0);
}

#[test]
fn no_pages_no_object() {
    let (mut buddy, mut mem) = pages(1);
    let mut cache: SlabCache<[u64; 256]> = SlabCache::new(0);
    assert!(cache.allocate(&mut buddy, &mut mem).is_some());
    assert!(cache.allocate(&mut buddy, &mut mem).is_none());
    assert_eq!(cache.stats().alloc_count, 1);
}

#[test]
fn a_slab_of_one_object() {
    let (mut buddy, mut mem) = pages(2);
    let mut cache: SlabCache<[u64; 500]> = SlabCache::new(0);
    let a = cache.allocate(&mut buddy, &mut mem).unwrap();
    let b = cache.allocate(&mut buddy, &mut mem).unwrap();
    assert_eq!(b - a, PAGE_SIZE);
    cache.dealloc(&mut buddy, &mut mem, a);
    assert_eq!(buddy.stats().used_bytes, PAGE_SIZE);
    cache.dealloc(&mut buddy, &mut mem, b);
    assert_eq!(buddy.stats().used_bytes, 0);
}

#[test]
fn larger_slabs() {
    let (mut buddy, mut mem) = pages(8);
    let mut cache: SlabCache<[u64; 100]> = SlabCache::new(2);
    let mut all = Vec::new();
    // 20 objects of 800 bytes fit in four pages
    for _ in 0..20 {
        all.push(cache.allocate(&mut buddy, &mut mem).unwrap());
    }
    assert_eq!(cache.stats().total_bytes, 4 * PAGE_SIZE);
    all.push(cache.allocate(&mut buddy, &mut mem).unwrap());
    assert_eq!(cache.stats().total_bytes, 8 * PAGE_SIZE);
    for a in all {
        cache.dealloc(&mut buddy, &mut mem, a);
    }
    assert_eq!(buddy.stats().free_bytes, 8 * PAGE_SIZE);
}

#[test]
fn types_that_fit_and_types_that_do_not() {
    assert!(assert_slab_compatible::<Object>().is_ok());
    assert!(assert_slab_compatible::<u16>().is_ok());
    assert!(assert_slab_compatible::<u8>().is_err());
}

#[test]
fn objects_keep_what_is_stored_in_them() {
    let (mut buddy, mut mem) = pages(64);
    let mut cache = SlabCacheInner::new(0, 48, 84);
    let mut live: Vec<(u64, u64)> = Vec::new();
    let mut seed = 0xdead_beef_1234_5677u64;
    for step in 0..5000u64 {
        seed ^= seed << 13;
        seed ^= seed >> 7;
        seed ^= seed << 17;
        if seed % 5 < 3 || live.is_empty() {
            if let Some(p) = cache.allocate(&mut buddy, &mut mem) {
                for &(q, _) in &live {
                    assert!(p + 48 <= q || q + 48 <= p);
                }
                for i in 0..6 {
                    mem.write_u64(p + 8 * i, step ^ i);
                }
                live.push((p, step));
            }
        } else {
            let i = ((seed >> 16) as usize) % live.len();
            let (p, tag) = live.swap_remove(i);
            for k in 0..6 {
                assert_eq!(mem.read_u64(p + 8 * k), tag ^ k);
            }
            cache.dealloc(&mut buddy, &mut mem, p);
        }
    }
    for (p, _) in live {
        cache.dealloc(&mut buddy, &mut mem, p);
    }
    assert_eq!(buddy.stats().used_bytes, 0);
}
