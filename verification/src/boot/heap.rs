//! Setting up the heap.
//!
//! The usable regions of the memory map go to the buddy allocator, which then gives the
//! kernel heap its pool.

use crate::buddy::laws::{law_bytes_move, law_region_bytes, TRACKED_PAGES};
use crate::buddy::model::{span, BuddyView};
use crate::buddy::BuddyAllocator;
use crate::framework::{of_kind, KernelBootInfo, MemoryRegion, MemoryRegionKind, PAGE_SIZE};
use crate::memory::Memory;
use crate::tlsf::TlsfAllocator;
use vstd::prelude::*;

verus! {

/// Order of the block that becomes the pool of the heap, 1 MiB.
pub const TLSF_POOL_ORDER: usize = 8;

/// Bytes of a region that can be handed out: all of them, or those below `limit` where only
/// that much of physical memory is mapped.
pub open spec fn mapped_length(r: MemoryRegion, limit: Option<u64>) -> int {
    match limit {
        None => r.length as int,
        Some(l) => if r.base >= l {
            0
        } else if r.base + r.length <= l {
            r.length as int
        } else {
            l - r.base
        },
    }
}

/// Whole pages of a region that can be handed out.
pub open spec fn mapped_pages(r: MemoryRegion, limit: Option<u64>) -> int {
    mapped_length(r, limit) / (PAGE_SIZE as int)
}

/// The buddy allocator after region `r` was registered where it is mapped.
pub open spec fn with_region(
    v: BuddyView,
    r: MemoryRegion,
    offset: u64,
    limit: Option<u64>,
) -> BuddyView {
    if mapped_pages(r, limit) == 0 {
        v
    } else {
        v.after_region(offset + r.base, mapped_pages(r, limit))
    }
}

/// The buddy allocator after all of `usable` was registered, in order.
pub open spec fn with_regions(
    v: BuddyView,
    usable: Seq<MemoryRegion>,
    offset: u64,
    limit: Option<u64>,
) -> BuddyView
    decreases usable.len(),
{
    if usable.len() == 0 {
        v
    } else {
        with_region(
            with_regions(v, usable.drop_last(), offset, limit),
            usable.last(),
            offset,
            limit,
        )
    }
}

/// Region `r` can be registered with an allocator in state `v`: its addresses exist and lie
/// in `mem`, it starts at a page, and none of it is managed yet.
pub open spec fn addable(
    v: BuddyView,
    r: MemoryRegion,
    offset: u64,
    limit: Option<u64>,
    mem: &Memory,
) -> bool {
    let virt_base = offset + r.base;
    let n = mapped_pages(r, limit);
    &&& limit is Some && r.base < limit->0 ==> r.base + r.length <= u64::MAX
    &&& n > 0 ==> {
        &&& 0 < virt_base <= u64::MAX
        &&& virt_base % (PAGE_SIZE as int) == 0
        &&& v.base_with(virt_base) <= virt_base
        &&& mem.holds(virt_base, n * PAGE_SIZE)
        &&& v.region_free(virt_base, n)
        &&& (v.total_pages + n) * PAGE_SIZE <= u64::MAX
    }
}

/// Each of `usable` can be registered when its turn comes.
pub open spec fn all_addable(
    v: BuddyView,
    usable: Seq<MemoryRegion>,
    offset: u64,
    limit: Option<u64>,
    mem: &Memory,
) -> bool {
    forall|i: int|
        #![trigger usable[i]]
        0 <= i < usable.len() ==> addable(
            with_regions(v, usable.take(i), offset, limit),
            usable[i],
            offset,
            limit,
            mem,
        )
}

/// `x` is an address where a region of `usable` is mapped.
pub open spec fn in_regions(
    usable: Seq<MemoryRegion>,
    offset: u64,
    limit: Option<u64>,
    x: int,
) -> bool {
    exists|i: int|
        0 <= i < usable.len() && offset + (#[trigger] usable[i]).base <= x < offset + usable[i].base
            + mapped_pages(usable[i], limit) * PAGE_SIZE
}

/// Where the first of the regions that is mapped at all starts, if one is.
pub open spec fn first_mapped(usable: Seq<MemoryRegion>, limit: Option<u64>) -> Option<u64>
    decreases usable.len(),
{
    if usable.len() == 0 {
        None
    } else {
        match first_mapped(usable.drop_last(), limit) {
            Some(base) => Some(base),
            None => if mapped_pages(usable.last(), limit) > 0 {
                Some(usable.last().base)
            } else {
                None
            },
        }
    }
}

/// The most regions that [`orderly`] speaks of.
pub const REGIONS_LIMIT: u64 = 0xffff_ffff;

/// What is mapped of the regions starts at pages, shares nothing and lies in `mem`, none of
/// it before the first one, and all within the first [`TRACKED_PAGES`] pages from there on.
pub open spec fn orderly(
    usable: Seq<MemoryRegion>,
    offset: u64,
    limit: Option<u64>,
    mem: &Memory,
) -> bool {
    &&& mem.wf()
    &&& usable.len() <= REGIONS_LIMIT
    &&& forall|i: int| 0 <= i < usable.len() ==> in_order(usable, offset, limit, mem, i)
    &&& forall|i: int, j: int|
        0 <= i < j < usable.len() ==> share_nothing(
            #[trigger] usable[i],
            #[trigger] usable[j],
            limit,
        )
}

/// What is mapped of two regions shares nothing.
pub open spec fn share_nothing(r: MemoryRegion, s: MemoryRegion, limit: Option<u64>) -> bool {
    let m = mapped_pages(r, limit) * PAGE_SIZE;
    let n = mapped_pages(s, limit) * PAGE_SIZE;
    m > 0 && n > 0 ==> r.base + m <= s.base || s.base + n <= r.base
}

/// What [`orderly`] says of region `i` and those before it.
pub open spec fn in_order(
    usable: Seq<MemoryRegion>,
    offset: u64,
    limit: Option<u64>,
    mem: &Memory,
    i: int,
) -> bool {
    let r = usable[i];
    let bytes = mapped_pages(r, limit) * PAGE_SIZE;
    let first = first_mapped(usable.take(i + 1), limit);
    &&& limit is Some && r.base < limit->0 ==> r.base + r.length <= u64::MAX
    &&& bytes > 0 ==> {
        &&& 0 < offset + r.base
        &&& (offset + r.base) % (PAGE_SIZE as int) == 0
        &&& mem.holds(offset + r.base, bytes)
        &&& first is Some
        &&& first->0 <= r.base
        &&& r.base + bytes - first->0 <= TRACKED_PAGES * PAGE_SIZE
    }
}

/// Tells whether two regions share nothing.
fn apart(r: MemoryRegion, s: MemoryRegion, limit: Option<u64>) -> (b: bool)
    requires
        limit is Some && r.base < limit->0 ==> r.base + r.length <= u64::MAX,
        limit is Some && s.base < limit->0 ==> s.base + s.length <= u64::MAX,
    ensures
        b == share_nothing(r, s, limit),
{
    let m: u64 = pages(r, limit) * PAGE_SIZE;
    let n: u64 = pages(s, limit) * PAGE_SIZE;
    if m == 0 || n == 0 {
        true
    } else if r.base <= s.base {
        m <= s.base - r.base
    } else {
        n <= r.base - s.base
    }
}

/// Tells whether regions are orderly.
pub fn regions_orderly(
    usable: &Vec<MemoryRegion>,
    offset: u64,
    limit: Option<u64>,
    mem: &Memory,
) -> (b: bool)
    requires
        mem.wf(),
    ensures
        b == orderly(usable@, offset, limit, mem),
{
    if usable.len() as u64 > REGIONS_LIMIT {
        return false;
    }
    let mut first: Option<u64> = None;
    let mut i: usize = 0;
    assert(usable@.take(0) =~= Seq::empty());
    while i < usable.len()
        invariant
            i <= usable@.len() <= REGIONS_LIMIT,
            mem.wf(),
            first == first_mapped(usable@.take(i as int), limit),
            forall|j: int| 0 <= j < i ==> in_order(usable@, offset, limit, mem, j),
            forall|j: int, k: int|
                0 <= j < k < i ==> share_nothing(
                    #[trigger] usable@[j],
                    #[trigger] usable@[k],
                    limit,
                ),
        decreases usable@.len() - i,
    {
        let r: MemoryRegion = usable[i];
        let ghost at = i as int;
        proof {
            assert(usable@.take(i + 1).drop_last() =~= usable@.take(i as int));
            assert(usable@.take(i + 1).last() == r);
        }
        if let Some(l) = limit {
            if r.base < l && r.length > u64::MAX - r.base {
                assert(!in_order(usable@, offset, limit, mem, at));
                return false;
            }
        }
        let n: u64 = pages(r, limit);
        if n > 0 {
            let start: u64 = match first {
                Some(base) => base,
                None => r.base,
            };
            first = Some(start);
            assert(first == first_mapped(usable@.take(i + 1), limit));
            let bytes: u64 = n * PAGE_SIZE;
            if !begins(r.base, bytes, start, offset, mem) {
                assert(!in_order(usable@, offset, limit, mem, at));
                return false;
            }
        }
        let mut j: usize = 0;
        while j < i
            invariant
                j <= i < usable@.len(),
                r == usable@[i as int],
                limit is Some && r.base < limit->0 ==> r.base + r.length <= u64::MAX,
                forall|m: int| 0 <= m < i ==> in_order(usable@, offset, limit, mem, m),
                forall|m: int|
                    0 <= m < j ==> share_nothing(#[trigger] usable@[m], usable@[i as int], limit),
            decreases i - j,
        {
            assert(in_order(usable@, offset, limit, mem, j as int));
            if !apart(usable[j], r, limit) {
                assert(!share_nothing(usable@[j as int], usable@[i as int], limit));
                return false;
            }
            j = j + 1;
        }
        i = i + 1;
    }
    assert(usable@.take(i as int) =~= usable@);
    true
}

/// Tells whether the `bytes` bytes of a region at `base` may be registered where the first
/// region starts at `start`.
fn begins(base: u64, bytes: u64, start: u64, offset: u64, mem: &Memory) -> (b: bool)
    requires
        mem.wf(),
        bytes > 0,
    ensures
        b == {
            &&& 0 < offset + base
            &&& (offset + base) % (PAGE_SIZE as int) == 0
            &&& mem.holds(offset + base, bytes as int)
            &&& start <= base
            &&& base + bytes - start <= TRACKED_PAGES * PAGE_SIZE
        },
{
    if offset > u64::MAX - base {
        return false;
    }
    let at: u64 = offset + base;
    if at == 0 || at % PAGE_SIZE != 0 || !mem.covers(at, bytes) || start > base {
        return false;
    }
    let limit: u64 = TRACKED_PAGES * PAGE_SIZE;
    bytes <= limit && base - start <= limit - bytes
}

/// `x` is a byte of `mem` that registering `usable` leaves alone: neither free nor in one of
/// the regions.
spec fn spared(
    v: BuddyView,
    usable: Seq<MemoryRegion>,
    offset: u64,
    limit: Option<u64>,
    mem: Memory,
    x: int,
) -> bool {
    mem.holds(x, 1) && !v.in_free(x) && !in_regions(usable, offset, limit, x)
}

/// Whole pages of a region that can be handed out.
fn pages(r: MemoryRegion, limit: Option<u64>) -> (n: u64)
    requires
        limit is Some && r.base < limit->0 ==> r.base + r.length <= u64::MAX,
    ensures
        n == mapped_pages(r, limit),
{
    let length: u64 = match limit {
        None => r.length,
        Some(l) => {
            if r.base >= l {
                0
            } else {
                let end: u64 = r.end();
                if end <= l {
                    r.length
                } else {
                    l - r.base
                }
            }
        },
    };
    length / PAGE_SIZE
}

/// Registers region `r` where it is mapped.
fn add_usable(
    r: MemoryRegion,
    offset: u64,
    limit: Option<u64>,
    buddy: &mut BuddyAllocator,
    mem: &mut Memory,
)
    requires
        old(buddy).wf(old(mem)),
        addable(old(buddy)@, r, offset, limit, old(mem)),
    ensures
        final(buddy).wf(final(mem)),
        final(mem).same_range(old(mem)),
        final(buddy)@ == with_region(old(buddy)@, r, offset, limit),
        forall|x: int|
            #![trigger final(mem).at(x)]
            #![trigger final(buddy)@.in_free(x)]
            old(mem).holds(x, 1) && !old(buddy)@.in_free(x) && !(offset + r.base <= x < offset
                + r.base + mapped_pages(r, limit) * PAGE_SIZE) ==> final(mem).at(x) == old(mem).at(
                x,
            ) && !final(buddy)@.in_free(x),
{
    let page_count: u64 = pages(r, limit);
    if page_count > 0 {
        let virt_base: u64 = offset + r.base;
        let ghost v = buddy@;
        proof {
            buddy.lemma_wf(mem);
        }
        buddy.add_region(mem, virt_base, page_count);
        proof {
            assert forall|x: int|
                v.after_region(virt_base as int, page_count as int).in_free(x) implies v.in_free(x)
                || virt_base <= x < virt_base + page_count * PAGE_SIZE by {
                law_region_bytes(v, virt_base as int, page_count as int, x);
            }
        }
    }
}

/// Registers the usable regions and gives the heap its pool, if there are pages for it.
/// `limit` is how much of physical memory is mapped, if not all of it is.
pub fn allocator_init(
    boot_info: &KernelBootInfo,
    limit: Option<u64>,
    buddy: &mut BuddyAllocator,
    heap: &mut TlsfAllocator,
    mem: &mut Memory,
) -> (r: Result<(), &'static str>)
    requires
        old(buddy).wf(old(mem)),
        old(heap).wf(old(mem)),
        old(heap)@.base == 0,
        all_addable(
            old(buddy)@,
            of_kind(boot_info.memory_regions@, MemoryRegionKind::Usable),
            boot_info.hhdm_offset,
            limit,
            old(mem),
        ),
        with_regions(
            old(buddy)@,
            of_kind(boot_info.memory_regions@, MemoryRegionKind::Usable),
            boot_info.hhdm_offset,
            limit,
        ).can_alloc(TLSF_POOL_ORDER as int),
    ensures
        final(buddy).wf(final(mem)),
        final(heap).wf(final(mem)),
        final(mem).same_range(old(mem)),
        ({
            let usable = of_kind(boot_info.memory_regions@, MemoryRegionKind::Usable);
            let filled = with_regions(old(buddy)@, usable, boot_info.hhdm_offset, limit);
            &&& match r {
                Ok(_) => {
                    &&& filled.has_room(TLSF_POOL_ORDER as int)
                    &&& final(buddy)@ == filled.after_alloc(TLSF_POOL_ORDER as int)
                    &&& final(buddy)@.stats.used_bytes > 0
                    &&& final(heap)@ == old(heap)@.with_pool(
                        filled.addr(filled.next_page(TLSF_POOL_ORDER as int)) as u64,
                        span(TLSF_POOL_ORDER as int) * PAGE_SIZE,
                    )
                },
                Err(e) => {
                    &&& !filled.has_room(TLSF_POOL_ORDER as int)
                    &&& e@ == "TLSF init: buddy OOM — reduce buddy_order or add more regions"@
                    &&& final(buddy)@ == filled
                    &&& final(heap)@ == old(heap)@
                },
            }
            &&& forall|x: int|
                #![trigger final(mem).at(x)]
                old(mem).holds(x, 1) && !old(buddy)@.in_free(x) && !in_regions(
                    usable,
                    boot_info.hhdm_offset,
                    limit,
                    x,
                ) ==> final(mem).at(x) == old(mem).at(x)
        }),
{
    let usable: Vec<MemoryRegion> = boot_info.regions_of_kind(MemoryRegionKind::Usable);
    let ghost before = *mem;
    proof {
        heap.lemma_wf(mem);
    }
    add_all(&usable, boot_info.hhdm_offset, limit, buddy, mem);
    proof {
        assert forall|x: int| #[trigger] heap@.in_header(x) implies false by {
            assert forall|a: u64| !#[trigger] heap@.is_chunk(a) by {}
        }
        buddy.lemma_wf(mem);
        law_bytes_move(buddy@, TLSF_POOL_ORDER as int, 0);
        heap.lemma_frame(&before, mem);
    }
    heap.init(buddy, mem, TLSF_POOL_ORDER)
}

/// Registers every region of `usable`, in order.
fn add_all(
    usable: &Vec<MemoryRegion>,
    offset: u64,
    limit: Option<u64>,
    buddy: &mut BuddyAllocator,
    mem: &mut Memory,
)
    requires
        old(buddy).wf(old(mem)),
        all_addable(old(buddy)@, usable@, offset, limit, old(mem)),
    ensures
        final(buddy).wf(final(mem)),
        final(mem).same_range(old(mem)),
        final(buddy)@ == with_regions(old(buddy)@, usable@, offset, limit),
        forall|x: int|
            #![trigger final(mem).at(x)]
            #![trigger final(buddy)@.in_free(x)]
            old(mem).holds(x, 1) && !old(buddy)@.in_free(x) && !in_regions(
                usable@,
                offset,
                limit,
                x,
            ) ==> final(mem).at(x) == old(mem).at(x) && !final(buddy)@.in_free(x),
{
    let ghost v0 = buddy@;
    let ghost mem0 = *mem;
    let mut i: usize = 0;
    assert(usable@.take(0) =~= Seq::empty());
    while i < usable.len()
        invariant
            i <= usable@.len(),
            buddy.wf(mem),
            mem.same_range(&mem0),
            all_addable(v0, usable@, offset, limit, &mem0),
            buddy@ == with_regions(v0, usable@.take(i as int), offset, limit),
            forall|x: int| #[trigger]
                spared(v0, usable@, offset, limit, mem0, x) ==> mem.at(x) == mem0.at(x)
                    && !buddy@.in_free(x),
        decreases usable@.len() - i,
    {
        let region: MemoryRegion = usable[i];
        let ghost v = buddy@;
        let ghost before = *mem;
        proof {
            assert(addable(v, usable@[i as int], offset, limit, &mem0));
            assert(usable@.take(i + 1).drop_last() =~= usable@.take(i as int));
            assert(usable@.take(i + 1).last() == region);
        }
        add_usable(region, offset, limit, buddy, mem);
        proof {
            assert forall|x: int| #[trigger]
                spared(v0, usable@, offset, limit, mem0, x) implies mem.at(x) == mem0.at(x)
                && !buddy@.in_free(x) by {
                assert(before.holds(x, 1));
                assert(usable@[i as int] == region);
            }
        }
        i = i + 1;
    }
    proof {
        assert(usable@.take(i as int) =~= usable@);
        assert forall|x: int|
            #![trigger mem.at(x)]
            #![trigger buddy@.in_free(x)]
            mem0.holds(x, 1) && !v0.in_free(x) && !in_regions(
                usable@,
                offset,
                limit,
                x,
            ) implies mem.at(x) == mem0.at(x) && !buddy@.in_free(x) by {
            assert(spared(v0, usable@, offset, limit, mem0, x));
        }
    }
}

} // verus!
