//! What holds of the heap that the kernel boots with.

use crate::boot::heap::{
    addable, all_addable, allocator_init, first_mapped, in_order, in_regions, mapped_length, mapped_pages, orderly,
    share_nothing, with_region, with_regions, REGIONS_LIMIT, TLSF_POOL_ORDER,
};
use crate::buddy::laws::{
    law_alloc_block, law_bytes_move, law_conservation, law_counts, law_empty, law_first_region, law_live_untouched, law_region_bytes, law_region_keeps_free,
    law_region_valid, law_room, lemma_carve_tracked, lemma_tracked_pair, TRACKED_PAGES,
};
use crate::buddy::model::{
    carve_order, carved, fitting_order, inserted, lemma_carve_order, lemma_fitting_order,
    lemma_span, span, BuddyView,
};
use crate::buddy::BuddyAllocator;
use crate::framework::{
    of_kind, KernelBootInfo, MemoryRegion, MemoryRegionKind, BUDDY_MAX_ORDER, PAGE_SIZE,
};
use crate::memory::Memory;
use crate::tlsf::laws::law_room_by_size;
use crate::tlsf::model::{TlsfView, HEADER};
use crate::tlsf::TlsfAllocator;
use vstd::prelude::*;

verus! {

/// What is registered of a region lies in it, and where only `limit` bytes are mapped, none
/// of it lies beyond them.
pub proof fn law_below_limit(usable: Seq<MemoryRegion>, offset: u64, limit: u64, x: int)
    requires
        in_regions(usable, offset, Some(limit), x),
    ensures
        offset <= x < offset + limit,
        exists|i: int|
            0 <= i < usable.len() && offset + (#[trigger] usable[i]).base <= x < offset
                + usable[i].base + usable[i].length,
{
    let i = choose|i: int|
        0 <= i < usable.len() && offset + (#[trigger] usable[i]).base <= x < offset + usable[i].base
            + mapped_pages(usable[i], Some(limit)) * PAGE_SIZE;
    assert(mapped_pages(usable[i], Some(limit)) * PAGE_SIZE <= mapped_length(
        usable[i],
        Some(limit),
    ));
    assert(offset + usable[i].base <= x < offset + usable[i].base + usable[i].length);
}

/// Page `k` of a region, counted from its start, is one of those that can be handed out
/// exactly if all of it lies in the region and, where only `limit` bytes are mapped, below
/// them.
pub proof fn law_mapped_pages(r: MemoryRegion, limit: Option<u64>, k: int)
    requires
        0 <= k,
    ensures
        0 <= mapped_pages(r, limit),
        k < mapped_pages(r, limit) <==> (k + 1) * 4096 <= r.length && (limit matches Some(l)
            ==> r.base + (k + 1) * 4096 <= l),
{
}

/// `x` is an address where a whole page of `r`, counted from its start, is mapped.
pub open spec fn in_whole_page(r: MemoryRegion, offset: u64, limit: Option<u64>, x: int) -> bool {
    exists|k: int|
        0 <= k && #[trigger] in_page(offset + r.base, k, x) && (k + 1) * 4096 <= r.length && (
        limit matches Some(l) ==> r.base + (k + 1) * 4096 <= l)
}

/// `x` lies in page `k` from address `at` on.
pub open spec fn in_page(at: int, k: int, x: int) -> bool {
    at + k * 4096 <= x < at + (k + 1) * 4096
}

/// The whole pages of the regions, as far as they lie below `limit`.
pub open spec fn page_total(usable: Seq<MemoryRegion>, limit: Option<u64>) -> int
    decreases usable.len(),
{
    if usable.len() == 0 {
        0
    } else {
        let r = usable.last();
        let end = match limit {
            Some(l) => if l < r.base + r.length {
                l as int
            } else {
                r.base + r.length
            },
            None => r.base + r.length,
        };
        page_total(usable.drop_last(), limit) + (if end <= r.base {
            0
        } else {
            (end - r.base) / 4096
        })
    }
}

/// Nothing usable is lost and nothing else is taken: once all of `usable` is registered, the
/// bytes that are free are those that were and those of the whole pages of the regions, and
/// what is managed grew by that many pages. Nothing is handed out by it.
pub proof fn law_nothing_lost(
    v: BuddyView,
    usable: Seq<MemoryRegion>,
    offset: u64,
    limit: Option<u64>,
    mem: &Memory,
)
    requires
        v.valid(),
        all_addable(v, usable, offset, limit, mem),
    ensures
        with_regions(v, usable, offset, limit).valid(),
        with_regions(v, usable, offset, limit).live == v.live,
        with_regions(v, usable, offset, limit).total_pages == v.total_pages + page_total(
            usable,
            limit,
        ),
        with_regions(v, usable, offset, limit).stats.total_bytes == v.stats.total_bytes
            + page_total(usable, limit) * 4096,
        with_regions(v, usable, offset, limit).stats.free_bytes == v.stats.free_bytes + page_total(
            usable,
            limit,
        ) * 4096,
        forall|x: int| #[trigger]
            with_regions(v, usable, offset, limit).in_free(x) <==> v.in_free(x) || in_some(
                usable,
                offset,
                limit,
                x,
            ),
    decreases usable.len(),
{
    if usable.len() > 0 {
        let rest = usable.drop_last();
        let last = usable.len() - 1;
        let r = usable.last();
        lemma_addable_before(v, usable, offset, limit, mem);
        law_nothing_lost(v, rest, offset, limit, mem);
        let u = with_regions(v, rest, offset, limit);
        let w = with_regions(v, usable, offset, limit);
        assert(usable.take(last) =~= rest);
        assert(addable(u, usable[last], offset, limit, mem));
        lemma_one_registered(u, r, offset, limit, mem);
        assert forall|x: int| #[trigger] w.in_free(x) <==> v.in_free(x) || in_some(
            usable,
            offset,
            limit,
            x,
        ) by {
            assert(w.in_free(x) <==> u.in_free(x) || in_whole_page(r, offset, limit, x));
            assert(u.in_free(x) <==> v.in_free(x) || in_some(rest, offset, limit, x));
            lemma_in_some(usable, offset, limit, x);
        }
    }
}

/// `x` is an address where a whole page of one of the regions is mapped.
pub open spec fn in_some(
    usable: Seq<MemoryRegion>,
    offset: u64,
    limit: Option<u64>,
    x: int,
) -> bool {
    exists|i: int| 0 <= i < usable.len() && in_whole_page(#[trigger] usable[i], offset, limit, x)
}

proof fn lemma_in_some(usable: Seq<MemoryRegion>, offset: u64, limit: Option<u64>, x: int)
    requires
        usable.len() > 0,
    ensures
        in_some(usable, offset, limit, x) <==> in_some(usable.drop_last(), offset, limit, x)
            || in_whole_page(usable.last(), offset, limit, x),
{
    let rest = usable.drop_last();
    let last = usable.len() - 1;
    if in_some(rest, offset, limit, x) {
        let i = choose|i: int|
            0 <= i < rest.len() && in_whole_page(#[trigger] rest[i], offset, limit, x);
        assert(usable[i] == rest[i]);
    }
    if in_whole_page(usable.last(), offset, limit, x) {
        assert(usable[last] == usable.last());
    }
    if in_some(usable, offset, limit, x) {
        let i = choose|i: int|
            0 <= i < usable.len() && in_whole_page(#[trigger] usable[i], offset, limit, x);
        if i < last {
            assert(rest[i] == usable[i]);
        }
    }
}

/// Where all regions can be registered, so can all but the last.
proof fn lemma_addable_before(
    v: BuddyView,
    usable: Seq<MemoryRegion>,
    offset: u64,
    limit: Option<u64>,
    mem: &Memory,
)
    requires
        usable.len() > 0,
        all_addable(v, usable, offset, limit, mem),
    ensures
        all_addable(v, usable.drop_last(), offset, limit, mem),
{
    let rest = usable.drop_last();
    assert forall|i: int| #![trigger rest[i]] 0 <= i < rest.len() implies addable(
        with_regions(v, rest.take(i), offset, limit),
        rest[i],
        offset,
        limit,
        mem,
    ) by {
        assert(rest.take(i) =~= usable.take(i));
        assert(rest[i] == usable[i]);
    }
}

/// What registering one region comes to.
proof fn lemma_one_registered(
    u: BuddyView,
    r: MemoryRegion,
    offset: u64,
    limit: Option<u64>,
    mem: &Memory,
)
    requires
        u.valid(),
        addable(u, r, offset, limit, mem),
    ensures
        with_region(u, r, offset, limit).valid(),
        with_region(u, r, offset, limit).live == u.live,
        with_region(u, r, offset, limit).total_pages == u.total_pages + mapped_pages(r, limit),
        with_region(u, r, offset, limit).stats.total_bytes == u.stats.total_bytes + mapped_pages(
            r,
            limit,
        ) * 4096,
        with_region(u, r, offset, limit).stats.free_bytes == u.stats.free_bytes + mapped_pages(
            r,
            limit,
        ) * 4096,
        forall|x: int| #[trigger]
            with_region(u, r, offset, limit).in_free(x) <==> u.in_free(x) || in_whole_page(
                r,
                offset,
                limit,
                x,
            ),
{
    let w = with_region(u, r, offset, limit);
    let n = mapped_pages(r, limit);
    let at = offset + r.base;
    lemma_mapped(r, limit);
    if n > 0 {
        law_region_valid(u, at, n);
    }
    assert forall|x: int| #[trigger] w.in_free(x) <==> u.in_free(x) || in_whole_page(
        r,
        offset,
        limit,
        x,
    ) by {
        if n > 0 {
            law_region_bytes(u, at, n, x);
        }
        lemma_whole_page(r, offset, limit, x);
    }
}

/// The whole pages of a region lie next to each other, from its start on.
proof fn lemma_whole_page(r: MemoryRegion, offset: u64, limit: Option<u64>, x: int)
    ensures
        in_whole_page(r, offset, limit, x) <==> offset + r.base <= x < offset + r.base
            + mapped_pages(r, limit) * PAGE_SIZE,
{
    let at = offset + r.base;
    let n = mapped_pages(r, limit);
    lemma_mapped(r, limit);
    if at <= x < at + n * PAGE_SIZE {
        let k = (x - at) / 4096;
        law_mapped_pages(r, limit, k);
        assert(in_page(at, k, x));
    }
    if in_whole_page(r, offset, limit, x) {
        let k = choose|k: int|
            0 <= k && #[trigger] in_page(at, k, x) && (k + 1) * 4096 <= r.length && (limit matches
                Some(l) ==> r.base + (k + 1) * 4096 <= l);
        law_mapped_pages(r, limit, k);
    }
}

/// A kernel whose first usable region has the pages of a block gets that block from a fresh
/// page allocator: the pool of the heap can be had from it, whatever regions follow.
pub proof fn law_first_region_serves(
    usable: Seq<MemoryRegion>,
    offset: u64,
    limit: Option<u64>,
    mem: &Memory,
    k: int,
)
    requires
        all_addable(BuddyView::empty(), usable, offset, limit, mem),
        0 <= k < BUDDY_MAX_ORDER,
        usable.len() > 0,
        span(k) * 4096 <= usable[0].length,
        limit matches Some(l) ==> usable[0].base + span(k) * 4096 <= l,
    ensures
        with_regions(BuddyView::empty(), usable, offset, limit).has_room(k),
    decreases usable.len(),
{
    let v = BuddyView::empty();
    let rest = usable.drop_last();
    let r = usable.last();
    let n = mapped_pages(r, limit);
    lemma_span(k);
    lemma_mapped(r, limit);
    lemma_addable_before(v, usable, offset, limit, mem);
    law_empty();
    if usable.len() == 1 {
        law_mapped_pages(r, limit, span(k) - 1);
        assert(rest =~= Seq::empty());
        law_first_region(v, offset + r.base, n, k);
    } else {
        law_first_region_serves(rest, offset, limit, mem, k);
        law_nothing_lost(v, rest, offset, limit, mem);
        let u = with_regions(v, rest, offset, limit);
        law_nothing_lost(v, usable, offset, limit, mem);
        let w = with_regions(v, usable, offset, limit);
        law_room(u, k);
        law_room(w, k);
        let (p, j) = choose|p: int, j: int| k <= j && #[trigger] u.is_free(p, j);
        if n > 0 {
            law_region_keeps_free(u, offset + r.base, n, p, j);
        }
        assert(w.is_free(p, j));
    }
}

/// Block `p` of order `k` lies in what is mapped of one of the regions.
spec fn in_region(
    v: BuddyView,
    usable: Seq<MemoryRegion>,
    offset: u64,
    limit: Option<u64>,
    p: int,
    k: int,
) -> bool {
    exists|j: int|
        0 <= j < usable.len() && mapped_pages(#[trigger] usable[j], limit) > 0 && offset
            + usable[j].base <= v.addr(p) && v.addr(p + span(k)) <= offset + usable[j].base
            + mapped_pages(usable[j], limit) * PAGE_SIZE
}

/// The allocator manages the regions, and nothing of them is handed out.
spec fn fresh(
    v: BuddyView,
    usable: Seq<MemoryRegion>,
    offset: u64,
    limit: Option<u64>,
) -> bool {
    &&& v.lists.len() == BUDDY_MAX_ORDER
    &&& v.live == BuddyView::empty().live
    &&& v.stats.alloc_count == 0
    &&& 0 <= v.total_pages <= usable.len() * TRACKED_PAGES
    &&& match first_mapped(usable, limit) {
        None => v.base == 0 && (forall|p: int, k: int| !#[trigger] v.is_free(p, k)),
        Some(base) => v.base == offset + base && v.base > 0 && v.base % (PAGE_SIZE as int) == 0,
    }
    &&& forall|p: int, k: int| #[trigger]
        v.is_free(p, k) ==> 0 <= p && in_region(v, usable, offset, limit, p, k)
}

proof fn lemma_carved_below(lists: Seq<Seq<int>>, at: int, n: int, p: int, k: int)
    requires
        lists.len() == BUDDY_MAX_ORDER,
        0 <= at,
        0 <= k < BUDDY_MAX_ORDER,
        carved(lists, at, n)[k].contains(p),
    ensures
        lists[k].contains(p) || at <= p && p + span(k) <= at + n,
    decreases n,
{
    if n > 0 {
        lemma_carve_order(at, n);
        let j = carve_order(at, n);
        let next = inserted(lists, at, j);
        lemma_carved_below(next, at + span(j), n - span(j), p, k);
        if next[k].contains(p) && k == j {
            let i = next[k].index_of(p);
            assert(next[k] =~= seq![at] + lists[k]);
            if i > 0 {
                assert(lists[k][i - 1] == p);
            }
        }
    }
}

proof fn lemma_carved_len(lists: Seq<Seq<int>>, at: int, n: int)
    requires
        lists.len() == BUDDY_MAX_ORDER,
        0 <= at,
    ensures
        carved(lists, at, n).len() == BUDDY_MAX_ORDER,
    decreases n,
{
    if n > 0 {
        lemma_carve_order(at, n);
        let j = carve_order(at, n);
        lemma_carved_len(inserted(lists, at, j), at + span(j), n - span(j));
    }
}

proof fn lemma_mapped(r: MemoryRegion, limit: Option<u64>)
    ensures
        0 <= mapped_pages(r, limit),
        mapped_pages(r, limit) * PAGE_SIZE <= r.length,
{
}

/// The first region that is mapped stays the first when more follow.
proof fn lemma_first_kept(usable: Seq<MemoryRegion>, limit: Option<u64>, i: int, j: int)
    requires
        0 <= i <= j <= usable.len(),
        first_mapped(usable.take(i), limit) is Some,
    ensures
        first_mapped(usable.take(j), limit) == first_mapped(usable.take(i), limit),
    decreases j - i,
{
    if i < j {
        lemma_first_kept(usable, limit, i, j - 1);
        assert(usable.take(j).drop_last() =~= usable.take(j - 1));
    }
}

/// A block that lies in one of the regions lies in one of more of them.
proof fn lemma_in_region_kept(
    v: BuddyView,
    w: BuddyView,
    usable: Seq<MemoryRegion>,
    offset: u64,
    limit: Option<u64>,
    i: int,
    p: int,
    k: int,
)
    requires
        0 <= i < usable.len(),
        v.base == w.base,
        in_region(v, usable.take(i), offset, limit, p, k),
    ensures
        in_region(w, usable.take(i + 1), offset, limit, p, k),
{
    let s = usable.take(i);
    let j = choose|j: int|
        0 <= j < s.len() && mapped_pages(#[trigger] s[j], limit) > 0 && offset + s[j].base
            <= v.addr(p) && v.addr(p + span(k)) <= offset + s[j].base + mapped_pages(s[j], limit)
            * PAGE_SIZE;
    assert(usable.take(i + 1)[j] == s[j]);
}

/// Registering a region that can be registered keeps it so.
proof fn lemma_fresh_region(
    v: BuddyView,
    usable: Seq<MemoryRegion>,
    offset: u64,
    limit: Option<u64>,
    mem: &Memory,
    i: int,
)
    requires
        0 <= i < usable.len(),
        fresh(v, usable.take(i), offset, limit),
        in_order(usable, offset, limit, mem, i),
    ensures
        fresh(with_region(v, usable[i], offset, limit), usable.take(i + 1), offset, limit),
{
    let r = usable[i];
    let n = mapped_pages(r, limit);
    let more = usable.take(i + 1);
    let w = with_region(v, r, offset, limit);
    lemma_mapped(r, limit);
    assert(more.drop_last() =~= usable.take(i));
    assert(more.last() == r && more[i] == r);
    if n == 0 {
        assert forall|p: int, k: int| #[trigger] w.is_free(p, k) implies 0 <= p && in_region(
            w,
            more,
            offset,
            limit,
            p,
            k,
        ) by {
            lemma_in_region_kept(v, w, usable, offset, limit, i, p, k);
        }
    } else {
        let virt_base = offset + r.base;
        let base = v.base_with(virt_base);
        let at = (virt_base - base) / (PAGE_SIZE as int);
        assert(virt_base == base + at * PAGE_SIZE);
        lemma_carved_len(v.lists, at, n);
        assert forall|p: int, k: int| #[trigger] w.is_free(p, k) implies 0 <= p && in_region(
            w,
            more,
            offset,
            limit,
            p,
            k,
        ) by {
            lemma_carved_below(v.lists, at, n, p, k);
            if v.lists[k].contains(p) {
                assert(v.is_free(p, k));
                lemma_in_region_kept(v, w, usable, offset, limit, i, p, k);
            } else {
                assert(mapped_pages(more[i], limit) > 0);
            }
        }
    }
}

/// A region that shares nothing with those before it can be registered behind them.
proof fn lemma_fresh_addable(
    v: BuddyView,
    usable: Seq<MemoryRegion>,
    offset: u64,
    limit: Option<u64>,
    mem: &Memory,
    i: int,
)
    requires
        0 <= i < usable.len(),
        fresh(v, usable.take(i), offset, limit),
        orderly(usable, offset, limit, mem),
    ensures
        addable(v, usable[i], offset, limit, mem),
{
    let r = usable[i];
    let n = mapped_pages(r, limit);
    let s = usable.take(i);
    assert(in_order(usable, offset, limit, mem, i));
    lemma_mapped(r, limit);
    assert(usable.take(i + 1).drop_last() =~= s);
    if n > 0 {
        let virt_base = offset + r.base;
        let base = v.base_with(virt_base);
        let at = (virt_base - base) / (PAGE_SIZE as int);
        assert(base <= virt_base);
        assert(virt_base == base + at * PAGE_SIZE);
        assert forall|p: int, k: int| #[trigger] v.is_block(p, k) implies p + span(k) <= at || at
            + n <= p by {
            assert(!v.is_live(p, k)) by {
                assert(BuddyView::empty().live[k] =~= Set::empty());
            }
            assert(v.is_free(p, k));
            let j = choose|j: int|
                0 <= j < s.len() && mapped_pages(#[trigger] s[j], limit) > 0 && offset + s[j].base
                    <= v.addr(p) && v.addr(p + span(k)) <= offset + s[j].base + mapped_pages(
                    s[j],
                    limit,
                ) * PAGE_SIZE;
            assert(s[j] == usable[j]);
            assert(share_nothing(usable[j], usable[i], limit));
        }
        assert(n <= TRACKED_PAGES);
        lemma_carve_tracked(at, n);
        assert((v.total_pages + n) * PAGE_SIZE <= u64::MAX) by (nonlinear_arith)
            requires
                v.total_pages <= i * TRACKED_PAGES,
                n <= TRACKED_PAGES,
                i < REGIONS_LIMIT,
                PAGE_SIZE == 4096,
                TRACKED_PAGES == 2176,
                REGIONS_LIMIT == 0xffff_ffff,
        ;
    }
}

proof fn lemma_orderly(
    usable: Seq<MemoryRegion>,
    offset: u64,
    limit: Option<u64>,
    mem: &Memory,
    i: int,
)
    requires
        orderly(usable, offset, limit, mem),
        0 <= i <= usable.len(),
    ensures
        fresh(
            with_regions(BuddyView::empty(), usable.take(i), offset, limit),
            usable.take(i),
            offset,
            limit,
        ),
    decreases i,
{
    if i == 0 {
        assert(usable.take(0) =~= Seq::empty());
    } else {
        lemma_orderly(usable, offset, limit, mem, i - 1);
        assert(usable.take(i).drop_last() =~= usable.take(i - 1));
        assert(usable.take(i).last() == usable[i - 1]);
        assert(in_order(usable, offset, limit, mem, i - 1));
        lemma_fresh_region(
            with_regions(BuddyView::empty(), usable.take(i - 1), offset, limit),
            usable,
            offset,
            limit,
            mem,
            i - 1,
        );
    }
}

/// Orderly regions can all be registered with a fresh buddy allocator, and blocks of every
/// order can then be asked for.
pub proof fn law_orderly(
    usable: Seq<MemoryRegion>,
    offset: u64,
    limit: Option<u64>,
    mem: &Memory,
    k: int,
)
    requires
        orderly(usable, offset, limit, mem),
        0 <= k < BUDDY_MAX_ORDER,
    ensures
        all_addable(BuddyView::empty(), usable, offset, limit, mem),
        with_regions(BuddyView::empty(), usable, offset, limit).can_alloc(k),
{
    assert forall|i: int|
        #![trigger usable[i]]
        0 <= i < usable.len() implies addable(
        with_regions(BuddyView::empty(), usable.take(i), offset, limit),
        usable[i],
        offset,
        limit,
        mem,
    ) by {
        lemma_orderly(usable, offset, limit, mem, i);
        lemma_fresh_addable(
            with_regions(BuddyView::empty(), usable.take(i), offset, limit),
            usable,
            offset,
            limit,
            mem,
            i,
        );
    }
    let w = with_regions(BuddyView::empty(), usable, offset, limit);
    let all = usable.len() as int;
    assert(usable.take(all) =~= usable);
    lemma_orderly(usable, offset, limit, mem, all);
    lemma_fitting_order(w.lists, k);
    if w.has_room(k) {
        let f = fitting_order(w.lists, k);
        let p = w.next_page(k);
        assert(w.lists[f].contains(w.lists[f][0]));
        assert(w.is_free(p, f));
        lemma_span(f);
        let j = choose|j: int|
            0 <= j < usable.len() && mapped_pages(#[trigger] usable[j], limit) > 0 && offset
                + usable[j].base <= w.addr(p) && w.addr(p + span(f)) <= offset + usable[j].base
                + mapped_pages(usable[j], limit) * PAGE_SIZE;
        assert(in_order(usable, offset, limit, mem, j));
        lemma_first_kept(usable, limit, j + 1, all);
        assert(p < TRACKED_PAGES);
        lemma_tracked_pair(p, k);
    }
}

/// The pool of the heap is a block that the page allocator handed out.
pub open spec fn pool_is_block(heap: TlsfView, buddy: BuddyView, p: int, k: int) -> bool {
    &&& buddy.is_live(p, k)
    &&& heap.base == buddy.addr(p)
    &&& heap.size == span(k) * PAGE_SIZE
}

/// The pool that the heap takes from the page allocator is a block of it.
pub proof fn law_pool_taken(heap: TlsfView, buddy: BuddyView, k: int)
    requires
        buddy.valid(),
        0 <= k < BUDDY_MAX_ORDER,
        buddy.has_room(k),
        buddy.addr(buddy.next_page(k)) <= u64::MAX,
    ensures
        pool_is_block(
            heap.with_pool(buddy.addr(buddy.next_page(k)) as u64, span(k) * PAGE_SIZE),
            buddy.after_alloc(k),
            buddy.next_page(k),
            k,
        ),
{
    law_alloc_block(buddy, k);
    assert(buddy.base >= 0);
}

/// What the heap does leaves the page allocator below it consistent: it changes nothing
/// outside its pool, and no free page lies there.
pub proof fn law_heap_spares_pages(
    buddy: &BuddyAllocator,
    heap: TlsfView,
    before: &Memory,
    after: &Memory,
    p: int,
    k: int,
)
    requires
        buddy.wf(before),
        after.wf(),
        after.same_range(before),
        pool_is_block(heap, buddy@, p, k),
        heap.keeps_live(before, after),
    ensures
        buddy.wf(after),
{
    buddy.lemma_wf(before);
    let v = buddy@;
    assert forall|x: int| #![trigger after.at(x)] v.in_free(x) implies after.at(x) == before.at(
        x,
    ) by {
        let (q, j) = choose|q: int, j: int| #[trigger]
            v.is_free(q, j) && v.addr(q) <= x < v.addr(q + span(j));
        assert(v.is_block(q, j));
        assert(before.holds(x, 1));
        if heap.base <= x < heap.base + heap.size {
            law_live_untouched(v, p, k, x);
        }
    }
    buddy.lemma_frame(before, after);
}

/// What the page allocator does leaves the heap above it consistent: it changes free pages
/// only, and none lies in the pool.
pub proof fn law_pages_spare_heap(
    heap: &TlsfAllocator,
    buddy: BuddyView,
    before: &Memory,
    after: &Memory,
    p: int,
    k: int,
)
    requires
        heap.wf(before),
        buddy.valid(),
        after.wf(),
        after.same_range(before),
        pool_is_block(heap@, buddy, p, k),
        forall|x: int|
            #![trigger after.at(x)]
            before.holds(x, 1) && !buddy.in_free(x) ==> after.at(x) == before.at(x),
    ensures
        heap.wf(after),
{
    heap.lemma_wf(before);
    let v = heap@;
    assert(buddy.is_block(p, k));
    assert forall|x: int| #![trigger after.at(x)] v.in_header(x) implies after.at(x) == before.at(
        x,
    ) by {
        assert(v.base <= x < v.base + v.size) by {
            if !(v.base > 0 && v.end() <= x < v.end() + HEADER) {
                let a = choose|a: u64| #[trigger] v.is_chunk(a) && a <= x < a + HEADER;
                assert(v.chunk_ok(a));
            }
        }
        law_live_untouched(buddy, p, k, x);
    }
    heap.lemma_frame(before, after);
}

/// Regions that start at pages, share nothing and lie in memory, none before the first one and
/// all within what the page allocator can keep track of from there on, are orderly, so that
/// the kernel takes them.
pub proof fn law_orderly_regions(
    usable: Seq<MemoryRegion>,
    offset: u64,
    limit: Option<u64>,
    mem: &Memory,
)
    requires
        mem.wf(),
        usable.len() <= 0xffff_ffff,
        forall|i: int|
            #![trigger usable[i]]
            0 <= i < usable.len() ==> {
                let r = usable[i];
                &&& r.base + r.length <= u64::MAX
                &&& 0 < offset + r.base
                &&& (offset + r.base) % 4096 == 0
                &&& mem.holds(offset + r.base, r.length as int)
                &&& usable[0].base <= r.base
                &&& r.base + r.length - usable[0].base <= 2176 * 4096
            },
        usable.len() > 0 ==> usable[0].length >= 4096 && (limit matches Some(l) ==> usable[0].base
            + 4096 <= l),
        forall|i: int, j: int|
            0 <= i < j < usable.len() ==> (#[trigger] usable[i]).base + usable[i].length <= (
            #[trigger] usable[j]).base || usable[j].base + usable[j].length <= usable[i].base,
    ensures
        orderly(usable, offset, limit, mem),
{
    assert forall|i: int| 0 <= i < usable.len() implies in_order(usable, offset, limit, mem, i) by {
        let r = usable[i];
        lemma_mapped(r, limit);
        law_mapped_pages(usable[0], limit, 0);
        assert(usable.take(1).drop_last() =~= Seq::empty());
        assert(usable.take(1).last() == usable[0]);
        assert(first_mapped(usable.take(1).drop_last(), limit) is None);
        assert(first_mapped(usable.take(1), limit) == Some(usable[0].base));
        lemma_first_kept(usable, limit, 1, i + 1);
        let bytes = mapped_pages(r, limit) * PAGE_SIZE;
        assert(bytes <= r.length);
        assert(mem.holds(offset + r.base, bytes));
    }
    assert forall|i: int, j: int| 0 <= i < j < usable.len() implies share_nothing(
        #[trigger] usable[i],
        #[trigger] usable[j],
        limit,
    ) by {
        lemma_mapped(usable[i], limit);
        lemma_mapped(usable[j], limit);
    }
}

/// What is registered of the regions is just their whole pages.
pub proof fn law_in_regions(
    usable: Seq<MemoryRegion>,
    offset: u64,
    limit: Option<u64>,
    x: int,
)
    ensures
        in_regions(usable, offset, limit, x) <==> in_some(usable, offset, limit, x),
{
    if in_regions(usable, offset, limit, x) {
        let i = choose|i: int|
            0 <= i < usable.len() && offset + (#[trigger] usable[i]).base <= x < offset
                + usable[i].base + mapped_pages(usable[i], limit) * PAGE_SIZE;
        lemma_whole_page(usable[i], offset, limit, x);
    }
    if in_some(usable, offset, limit, x) {
        let i = choose|i: int|
            0 <= i < usable.len() && in_whole_page(#[trigger] usable[i], offset, limit, x);
        lemma_whole_page(usable[i], offset, limit, x);
    }
}

/// The pool of the heap is 1 MiB, and a kernel whose first usable region has that much mapped
/// gets it.
pub proof fn law_boots(
    usable: Seq<MemoryRegion>,
    offset: u64,
    limit: Option<u64>,
    mem: &Memory,
)
    requires
        orderly(usable, offset, limit, mem),
        usable.len() > 0,
        usable[0].length >= 0x10_0000,
        limit matches Some(l) ==> usable[0].base + 0x10_0000 <= l,
    ensures
        span(TLSF_POOL_ORDER as int) * PAGE_SIZE == 0x10_0000,
        all_addable(BuddyView::empty(), usable, offset, limit, mem),
        with_regions(BuddyView::empty(), usable, offset, limit).can_alloc(TLSF_POOL_ORDER as int),
        with_regions(BuddyView::empty(), usable, offset, limit).has_room(TLSF_POOL_ORDER as int),
{
    vstd::arithmetic::power2::lemma2_to64();
    law_orderly(usable, offset, limit, mem, TLSF_POOL_ORDER as int);
    law_first_region_serves(usable, offset, limit, mem, TLSF_POOL_ORDER as int);
}

/// A kernel whose usable regions are orderly and whose first one has 1 MiB mapped gets its heap;
/// what the page allocator manages is every whole page of the usable regions that is mapped.
pub proof fn law_allocator_init(
    info: &KernelBootInfo,
    limit: Option<u64>,
    buddy: &mut BuddyAllocator,
    heap: &mut TlsfAllocator,
    mem: &mut Memory,
    r: Result<(), &'static str>,
)
    requires
        old(buddy).wf(old(mem)),
        old(buddy)@ == BuddyView::empty(),
        old(heap).wf(old(mem)),
        old(heap)@ == TlsfView::empty(),
        orderly(
            of_kind(info.memory_regions@, MemoryRegionKind::Usable),
            info.hhdm_offset,
            limit,
            old(mem),
        ),
        call_ensures(allocator_init, (info, limit, buddy, heap, mem), r),
    ensures
        ({
            let usable = of_kind(info.memory_regions@, MemoryRegionKind::Usable);
            &&& usable.len() > 0 && usable[0].length >= 0x10_0000 && (limit matches Some(l)
                ==> usable[0].base + 0x10_0000 <= l) ==> r is Ok
            &&& final(buddy)@.stats.total_bytes == page_total(usable, limit) * 4096
            &&& r is Ok ==> final(buddy)@.stats.used_bytes == 0x10_0000
            &&& r is Err ==> final(buddy)@.stats.used_bytes == 0
            &&& r is Ok ==> final(heap)@.size == 0x10_0000 && final(heap)@.has_room(0xf_7000)
        }),
{
    let v = BuddyView::empty();
    let usable = of_kind(info.memory_regions@, MemoryRegionKind::Usable);
    let k = TLSF_POOL_ORDER as int;
    vstd::arithmetic::power2::lemma2_to64();
    law_empty();
    law_orderly(usable, info.hhdm_offset, limit, old(mem), k);
    law_nothing_lost(v, usable, info.hhdm_offset, limit, old(mem));
    let filled = with_regions(v, usable, info.hhdm_offset, limit);
    law_bytes_move(filled, k, 0);
    law_counts(filled, k, 0);
    law_conservation(filled);
    assert(filled.stats.used_bytes == 0) by {
        assert(filled.live == v.live);
        law_conservation(v);
    }
    if usable.len() > 0 && usable[0].length >= 0x10_0000 && (limit matches Some(l)
        ==> usable[0].base + 0x10_0000 <= l) {
        law_boots(usable, info.hhdm_offset, limit, old(mem));
    }
    if r is Ok {
        final(buddy).lemma_wf(final(mem));
        final(heap).lemma_wf(final(mem));
        let w = final(heap)@;
        assert(w.is_free(w.base as u64));
        assert(w.chunks[w.base as u64].size == 0x10_0000 - 64);
        law_room_by_size(w, 0xf_7000);
    }
}

} // verus!
