//! What holds of every buddy allocator, whatever was allocated and given back.

use crate::bitmap::BITMAP_BITS;
use crate::buddy::model::{
    buddy_of, carve_fits, carve_order, carved, fitting_order, free_pages, given_back, inserted,
    lemma_carve_order, lemma_fitting_order, lemma_halves, lemma_largest_order, lemma_pair,
    lemma_pair_monotone, lemma_seq_remove, lemma_span, live_blocks, live_pages, lower_of_pair,
    merged_order, merged_page, merged_rest, pair_of, removed, span, split_down, BuddyView,
};
use crate::framework::{AllocStats, BUDDY_MAX_ORDER, PAGE_SIZE};
use vstd::prelude::*;

verus! {

/// Pages below this index have a bit in the bitmap of every order.
pub const TRACKED_PAGES: u64 = 2176;

impl BuddyView {
    /// No block of less than the largest order is free together with its buddy.
    pub open spec fn coalesced(self) -> bool {
        forall|p: int, k: int| #[trigger]
            self.is_free(p, k) && k < BUDDY_MAX_ORDER - 1 ==> !self.is_free(buddy_of(p, k), k)
    }

    /// Every block lies below page `n`.
    pub open spec fn below(self, n: int) -> bool {
        forall|p: int, k: int| #[trigger] self.is_block(p, k) ==> p + span(k) <= n
    }
}

/// Where the halves of a split block go: one onto the list of each order passed.
pub proof fn lemma_split_lists(lists: Seq<Seq<int>>, p: int, from: int, to: int)
    requires
        lists.len() == BUDDY_MAX_ORDER,
        0 <= to <= from <= BUDDY_MAX_ORDER,
    ensures
        split_down(lists, p, from, to).len() == BUDDY_MAX_ORDER,
        forall|j: int|
            0 <= j < BUDDY_MAX_ORDER ==> #[trigger] split_down(lists, p, from, to)[j] == (if to <= j
                && j < from {
                seq![p + span(j)] + lists[j]
            } else {
                lists[j]
            }),
    decreases from - to,
{
    if from > to {
        lemma_split_lists(inserted(lists, p + span(from - 1), from - 1), p, from - 1, to);
    }
}

/// Splitting an unmanaged block keeps every block in order and leaves its front
/// unmanaged.
proof fn lemma_split_ok(v: BuddyView, p: int, from: int, to: int)
    requires
        v.blocks_ok(),
        v.base > 0,
        0 <= p,
        0 <= to <= from < BUDDY_MAX_ORDER,
        p % span(from) == 0,
        pair_of(p, to) < BITMAP_BITS,
        v.unmanaged(p, span(from)),
    ensures
        v.with_lists(split_down(v.lists, p, from, to)).blocks_ok(),
        v.with_lists(split_down(v.lists, p, from, to)).unmanaged(p, span(to)),
        p % span(to) == 0,
        forall|a: int| #[trigger]
            v.with_lists(split_down(v.lists, p, from, to)).in_free(a) ==> v.in_free(a) || v.addr(p)
                + span(to) * PAGE_SIZE <= a < v.addr(p) + span(from) * PAGE_SIZE,
    decreases from - to,
{
    if from > to {
        let c = from - 1;
        let b = p + span(c);
        lemma_span(c);
        lemma_halves(p, c);
        lemma_pair_monotone(p, to, c);
        v.lemma_inserted(b, c);
        let w = v.with_lists(inserted(v.lists, b, c));
        assert forall|q: int, j: int| #[trigger] w.is_block(q, j) implies q + span(j) <= p || p
            + span(c) <= q by {
            assert(w.is_free(q, j) || w.is_live(q, j));
            if !(q == b && j == c) {
                assert(v.is_block(q, j));
            }
        }
        lemma_split_ok(w, p, c, to);
        let x = v.with_lists(split_down(v.lists, p, from, to));
        assert(x == w.with_lists(split_down(w.lists, p, c, to)));
        lemma_span_order(to, c);
        assert forall|a: int| #[trigger] x.in_free(a) implies v.in_free(a) || v.addr(p) + span(to)
            * PAGE_SIZE <= a < v.addr(p) + span(from) * PAGE_SIZE by {
            if w.in_free(a) {
                let (q, j) = choose|q: int, j: int| #[trigger]
                    w.is_free(q, j) && w.addr(q) <= a < w.addr(q + span(j));
                if !(q == b && j == c) {
                    assert(v.is_free(q, j));
                }
            }
        }
    }
}

/// A larger order has larger blocks.
proof fn lemma_span_order(k: int, j: int)
    requires
        0 <= k <= j < BUDDY_MAX_ORDER,
    ensures
        span(k) <= span(j),
    decreases j - k,
{
    if k < j {
        lemma_span(j - 1);
        lemma_span_order(k, j - 1);
    }
}

/// Merging an unmanaged block keeps every block in order, ends at a block that is
/// aligned and unmanaged, and stops only where no free buddy is left.
proof fn lemma_merge_ok(v: BuddyView, p: int, k: int)
    requires
        v.blocks_ok(),
        v.base > 0,
        0 <= p,
        0 <= k < BUDDY_MAX_ORDER,
        p % span(k) == 0,
        pair_of(p, k) < BITMAP_BITS,
        v.unmanaged(p, span(k)),
    ensures
        k <= merged_order(v.lists, p, k) < BUDDY_MAX_ORDER,
        0 <= merged_page(v.lists, p, k) <= p,
        p + span(k) <= merged_page(v.lists, p, k) + span(merged_order(v.lists, p, k)),
        merged_page(v.lists, p, k) % span(merged_order(v.lists, p, k)) == 0,
        pair_of(merged_page(v.lists, p, k), merged_order(v.lists, p, k)) < BITMAP_BITS,
        v.with_lists(merged_rest(v.lists, p, k)).blocks_ok(),
        v.with_lists(merged_rest(v.lists, p, k)).unmanaged(
            merged_page(v.lists, p, k),
            span(merged_order(v.lists, p, k)),
        ),
        forall|q: int, j: int| #[trigger]
            v.with_lists(merged_rest(v.lists, p, k)).is_free(q, j) ==> v.is_free(q, j),
        merged_order(v.lists, p, k) < BUDDY_MAX_ORDER - 1 ==> !v.with_lists(
            merged_rest(v.lists, p, k),
        ).is_free(
            buddy_of(merged_page(v.lists, p, k), merged_order(v.lists, p, k)),
            merged_order(v.lists, p, k),
        ),
    decreases BUDDY_MAX_ORDER - k,
{
    let b = buddy_of(p, k);
    if k < BUDDY_MAX_ORDER - 1 && v.lists[k].contains(b) {
        lemma_pair(p, k);
        lemma_span(k);
        assert(v.is_free(b, k));
        v.lemma_removed(b, k);
        let w = v.with_lists(removed(v.lists, b, k));
        let low = lower_of_pair(p, k);
        lemma_pair_monotone(low, k, k + 1);
        assert forall|q: int, j: int| #[trigger] w.is_block(q, j) implies q + span(j) <= low || low
            + span(k + 1) <= q by {
            assert(w.is_free(q, j) || w.is_live(q, j));
            assert(v.is_block(q, j));
            lemma_span(j);
        }
        lemma_merge_ok(w, low, k + 1);
        assert(v.with_lists(merged_rest(v.lists, p, k)) == w.with_lists(
            merged_rest(w.lists, low, k + 1),
        ));
        assert forall|q: int, j: int| #[trigger]
            v.with_lists(merged_rest(v.lists, p, k)).is_free(q, j) implies v.is_free(q, j) by {
            assert(w.is_free(q, j));
        }
    } else {
        assert(v.with_lists(v.lists) == v);
    }
}

/// Blocks are judged by the base, the lists and the live sets alone.
proof fn lemma_same_blocks(v: BuddyView, w: BuddyView)
    requires
        v.blocks_ok(),
        w.base == v.base,
        w.lists == v.lists,
        w.live == v.live,
    ensures
        w.blocks_ok(),
{
    assert forall|p: int, k: int| #[trigger] w.is_free(p, k) == v.is_free(p, k) by {}
    assert forall|p: int, k: int| #[trigger] w.is_live(p, k) == v.is_live(p, k) by {}
    assert forall|p: int, k: int| #[trigger] w.is_block(p, k) == v.is_block(p, k) by {}
    assert forall|k: int| 0 <= k < BUDDY_MAX_ORDER implies #[trigger] w.lists[k].no_duplicates() by {
        assert(v.lists[k].no_duplicates());
    }
    assert forall|k: int| 0 <= k < BUDDY_MAX_ORDER implies #[trigger] w.live[k].finite() by {
        assert(v.live[k].finite());
    }
}

/// An allocator that manages nothing is valid, and nothing can be had from it.
pub proof fn law_empty()
    ensures
        BuddyView::empty().valid(),
        BuddyView::empty().base == 0,
        forall|p: int, k: int| !#[trigger] BuddyView::empty().is_block(p, k),
        forall|k: int| 0 <= k < BUDDY_MAX_ORDER ==> !#[trigger] BuddyView::empty().has_room(k),
{
    let v = BuddyView::empty();
    let n = BUDDY_MAX_ORDER as int;
    assert forall|p: int, k: int| !#[trigger] v.is_block(p, k) by {
        if 0 <= k < n {
            assert(v.lists[k] =~= Seq::empty());
            assert(v.live[k] =~= Set::empty());
        }
    }
    assert forall|p: int, k: int| #[trigger] v.is_free(p, k) implies !v.is_live(p, k) by {
        assert(!v.is_block(p, k));
    }
    lemma_empty_pages(n);
    assert forall|k: int| 0 <= k < n implies !#[trigger] v.has_room(k) by {
        lemma_fitting_order(v.lists, k);
        let f = fitting_order(v.lists, k);
        if f < n {
            assert(v.lists[f] =~= Seq::empty());
        }
    }
}

proof fn lemma_empty_pages(k: int)
    requires
        0 <= k <= BUDDY_MAX_ORDER,
    ensures
        free_pages(BuddyView::empty().lists, k) == 0,
        live_pages(BuddyView::empty().live, k) == 0,
        live_blocks(BuddyView::empty().live, k) == 0,
    decreases k,
{
    if k > 0 {
        lemma_empty_pages(k - 1);
        assert(BuddyView::empty().lists[k - 1].len() == 0);
        assert(BuddyView::empty().live[k - 1].len() == 0);
        assert(span(k - 1) * 0 == 0) by (nonlinear_arith);
    }
}

/// An allocation succeeds exactly where a free block of its order or a larger one exists.
pub proof fn law_room(v: BuddyView, k: int)
    requires
        v.valid(),
        0 <= k < BUDDY_MAX_ORDER,
    ensures
        v.has_room(k) <==> exists|p: int, j: int| k <= j && #[trigger] v.is_free(p, j),
{
    lemma_fitting_order(v.lists, k);
    if v.has_room(k) {
        let f = fitting_order(v.lists, k);
        assert(v.lists[f].contains(v.lists[f][0]));
        assert(v.is_free(v.lists[f][0], f));
    }
    if exists|p: int, j: int| k <= j && #[trigger] v.is_free(p, j) {
        let (p, j) = choose|p: int, j: int| k <= j && #[trigger] v.is_free(p, j);
        assert(v.lists[j].len() > 0);
    }
}

/// A block that is handed out starts at a multiple of its own size, counted from the
/// base, and every byte of it was free before.
pub proof fn law_alloc_block(v: BuddyView, k: int)
    requires
        v.valid(),
        0 <= k < BUDDY_MAX_ORDER,
        v.has_room(k),
    ensures
        v.next_page(k) >= 0,
        v.next_page(k) % span(k) == 0,
        v.addr(v.next_page(k)) % (PAGE_SIZE as int) == 0,
        forall|a: int|
            v.addr(v.next_page(k)) <= a < v.addr(v.next_page(k)) + span(k) * PAGE_SIZE
                ==> #[trigger] v.in_free(a),
{
    lemma_fitting_order(v.lists, k);
    let f = fitting_order(v.lists, k);
    let p = v.next_page(k);
    v.lemma_first_removed(f);
    assert(v.is_block(p, f));
    lemma_span_order(k, f);
    lemma_aligned_below(p, k, f);
}

/// A multiple of a larger block size is a multiple of a smaller one.
proof fn lemma_aligned_below(p: int, k: int, f: int)
    requires
        0 <= p,
        0 <= k <= f < BUDDY_MAX_ORDER,
        p % span(f) == 0,
    ensures
        p % span(k) == 0,
    decreases f - k,
{
    if k < f {
        lemma_halves(p, f - 1);
        lemma_aligned_below(p, k, f - 1);
    }
}

/// Allocating keeps the allocator valid.
pub proof fn law_alloc_valid(v: BuddyView, k: int)
    requires
        v.valid(),
        0 <= k < BUDDY_MAX_ORDER,
        v.has_room(k),
        v.can_alloc(k),
    ensures
        v.after_alloc(k).valid(),
        v.after_alloc(k).is_live(v.next_page(k), k),
        forall|a: int| #[trigger] v.after_alloc(k).in_free(a) ==> v.in_free(a),
{
    lemma_fitting_order(v.lists, k);
    let f = fitting_order(v.lists, k);
    let p = v.next_page(k);
    v.lemma_first_removed(f);
    v.lemma_removed(p, f);
    assert(v.is_block(p, f));
    let w = v.with_lists(removed(v.lists, p, f));
    lemma_split_ok(w, p, f, k);
    let x = w.with_lists(split_down(w.lists, p, f, k));
    lemma_span(k);
    x.lemma_made_live(p, k);
    let y = x.with_live(x.live.update(k, x.live[k].insert(p)));
    lemma_same_blocks(y, v.after_alloc(k));
    assert(!v.is_live(p, k)) by {
        assert(!x.is_block(p, k));
        assert(x.is_live(p, k) == v.is_live(p, k));
    }
    v.lemma_alloc_counted(k);
    let z = v.after_alloc(k);
    assert forall|a: int| #[trigger] z.in_free(a) implies v.in_free(a) by {
        let (q, j) = choose|q: int, j: int| #[trigger]
            z.is_free(q, j) && z.addr(q) <= a < z.addr(q + span(j));
        assert(x.is_free(q, j));
        assert(x.in_free(a));
        if w.in_free(a) {
            let (q2, j2) = choose|q2: int, j2: int| #[trigger]
                w.is_free(q2, j2) && w.addr(q2) <= a < w.addr(q2 + span(j2));
            assert(v.is_free(q2, j2));
        } else {
            assert(v.is_free(p, f));
        }
    }
}

/// Giving a live block back keeps the allocator valid.
pub proof fn law_dealloc_valid(v: BuddyView, p: int, k: int)
    requires
        v.valid(),
        v.is_live(p, k),
    ensures
        v.after_dealloc(p, k).valid(),
{
    v.lemma_made_dead(p, k);
    assert(v.is_block(p, k));
    let w = v.with_live(v.live.update(k, v.live[k].remove(p)));
    lemma_merge_ok(w, p, k);
    let x = w.with_lists(merged_rest(w.lists, p, k));
    x.lemma_inserted(merged_page(w.lists, p, k), merged_order(w.lists, p, k));
    let y = x.with_lists(
        inserted(x.lists, merged_page(w.lists, p, k), merged_order(w.lists, p, k)),
    );
    lemma_same_blocks(y, v.after_dealloc(p, k));
    v.lemma_dealloc_counted(p, k);
}

/// Two blocks that are live at once share no byte.
pub proof fn law_live_apart(v: BuddyView, p: int, k: int, q: int, j: int)
    requires
        v.valid(),
        v.is_live(p, k),
        v.is_live(q, j),
        !(p == q && k == j),
    ensures
        v.addr(p) + span(k) * PAGE_SIZE <= v.addr(q) || v.addr(q) + span(j) * PAGE_SIZE <= v.addr(
            p,
        ),
{
    assert(v.is_block(p, k) && v.is_block(q, j));
}

/// No byte of a live block lies in a free one; since operations change bytes of free
/// blocks only, what is stored in a live block stays.
pub proof fn law_live_untouched(v: BuddyView, p: int, k: int, a: int)
    requires
        v.valid(),
        v.is_live(p, k),
        v.addr(p) <= a < v.addr(p) + span(k) * PAGE_SIZE,
    ensures
        !v.in_free(a),
{
    if v.in_free(a) {
        let (q, j) = choose|q: int, j: int| #[trigger]
            v.is_free(q, j) && v.addr(q) <= a < v.addr(q + span(j));
        assert(v.is_block(p, k) && v.is_block(q, j));
    }
}

/// Page `q` lies in a block of one of the lists.
spec fn covered(lists: Seq<Seq<int>>, q: int) -> bool {
    exists|p: int, k: int|
        0 <= k < BUDDY_MAX_ORDER && #[trigger] lists[k].contains(p) && p <= q < p + span(k)
}

proof fn lemma_inserted_cover(lists: Seq<Seq<int>>, p: int, k: int, q: int)
    requires
        lists.len() == BUDDY_MAX_ORDER,
        0 <= k < BUDDY_MAX_ORDER,
    ensures
        covered(inserted(lists, p, k), q) <==> covered(lists, q) || p <= q < p + span(k),
{
    let after = inserted(lists, p, k);
    assert(after[k] =~= seq![p] + lists[k]);
    assert(after[k][0] == p);
    assert(after[k].contains(p));
    assert forall|b: int, j: int|
        0 <= j < BUDDY_MAX_ORDER implies (#[trigger] after[j].contains(b) <==> lists[j].contains(b)
        || j == k && b == p) by {
        if j == k {
            if lists[k].contains(b) {
                let i = lists[k].index_of(b);
                assert(after[k][i + 1] == b);
            }
            if after[k].contains(b) && b != p {
                let i = after[k].index_of(b);
                assert(lists[k][i - 1] == b);
            }
        }
    }
    if covered(lists, q) {
        let (b, j) = choose|b: int, j: int|
            0 <= j < BUDDY_MAX_ORDER && #[trigger] lists[j].contains(b) && b <= q < b + span(j);
        assert(after[j].contains(b));
    }
}

proof fn lemma_carved_cover(lists: Seq<Seq<int>>, at: int, n: int, q: int)
    requires
        lists.len() == BUDDY_MAX_ORDER,
        0 <= at,
    ensures
        covered(carved(lists, at, n), q) <==> covered(lists, q) || at <= q < at + n,
    decreases n,
{
    if n > 0 {
        lemma_carve_order(at, n);
        let k = carve_order(at, n);
        lemma_inserted_cover(lists, at, k, q);
        lemma_carved_cover(inserted(lists, at, k), at + span(k), n - span(k), q);
    }
}

proof fn lemma_covered(v: BuddyView, a: int)
    requires
        a >= v.base,
    ensures
        v.in_free(a) <==> covered(v.lists, v.page(a)),
{
    let q = v.page(a);
    if v.in_free(a) {
        let (p, k) = choose|p: int, k: int| #[trigger]
            v.is_free(p, k) && v.addr(p) <= a < v.addr(p + span(k));
        assert(v.lists[k].contains(p));
        assert(p <= q < p + span(k));
    }
    if covered(v.lists, q) {
        let (p, k) = choose|p: int, k: int|
            0 <= k < BUDDY_MAX_ORDER && #[trigger] v.lists[k].contains(p) && p <= q < p + span(k);
        assert(v.is_free(p, k));
    }
}

/// Registering a region makes its bytes free, and no others.
pub proof fn law_region_bytes(v: BuddyView, virt_base: int, n: int, a: int)
    requires
        v.valid(),
        virt_base > 0,
        virt_base % (PAGE_SIZE as int) == 0,
        v.base_with(virt_base) <= virt_base,
        n >= 0,
    ensures
        v.after_region(virt_base, n).in_free(a) <==> v.in_free(a) || virt_base <= a < virt_base + n
            * PAGE_SIZE,
{
    let w = v.after_region(virt_base, n);
    let at = (virt_base - w.base) / (PAGE_SIZE as int);
    assert(v.base > 0 ==> v.base % (PAGE_SIZE as int) == 0);
    assert(virt_base == w.base + at * PAGE_SIZE);
    if v.base == 0 {
        assert(!v.in_free(a)) by {
            if v.in_free(a) {
                let (p, k) = choose|p: int, k: int| #[trigger]
                    v.is_free(p, k) && v.addr(p) <= a < v.addr(p + span(k));
                assert(v.is_block(p, k));
            }
        }
        assert forall|q: int| !covered(v.lists, q) by {
            if covered(v.lists, q) {
                let (p, k) = choose|p: int, k: int|
                    0 <= k < BUDDY_MAX_ORDER && #[trigger] v.lists[k].contains(p) && p <= q < p
                        + span(k);
                assert(v.is_free(p, k));
                assert(v.is_block(p, k));
            }
        }
    }
    if a >= w.base {
        lemma_covered(w, a);
        lemma_carved_cover(v.lists, at, n, w.page(a));
        if v.base > 0 {
            lemma_covered(v, a);
        }
    } else {
        assert(!w.in_free(a)) by {
            if w.in_free(a) {
                let (p, k) = choose|p: int, k: int| #[trigger]
                    w.is_free(p, k) && w.addr(p) <= a < w.addr(p + span(k));
                assert(p < 0);
                lemma_span(k);
                lemma_carved_cover(v.lists, at, n, p);
                assert(w.lists[k].contains(p));
                assert(covered(w.lists, p));
                assert(covered(v.lists, p));
                let (b, j) = choose|b: int, j: int|
                    0 <= j < BUDDY_MAX_ORDER && #[trigger] v.lists[j].contains(b) && b <= p < b
                        + span(j);
                assert(v.is_free(b, j));
                assert(v.is_block(b, j));
            }
        }
        assert(!v.in_free(a)) by {
            if v.in_free(a) {
                let (p, k) = choose|p: int, k: int| #[trigger]
                    v.is_free(p, k) && v.addr(p) <= a < v.addr(p + span(k));
                assert(v.is_block(p, k));
            }
        }
    }
}

/// Carving unmanaged pages into blocks keeps the blocks in order.
proof fn lemma_carved_ok(v: BuddyView, at: int, n: int)
    requires
        v.blocks_ok(),
        v.base > 0,
        0 <= at,
        v.unmanaged(at, n),
        carve_fits(at, n),
    ensures
        v.with_lists(carved(v.lists, at, n)).blocks_ok(),
    decreases n,
{
    if n > 0 {
        lemma_carve_order(at, n);
        let k = carve_order(at, n);
        assert(v.unmanaged(at, span(k))) by {
            assert forall|p: int, j: int| #[trigger] v.is_block(p, j) implies p + span(j) <= at
                || at + span(k) <= p by {}
        }
        v.lemma_inserted(at, k);
        let w = v.with_lists(inserted(v.lists, at, k));
        assert forall|p: int, j: int| #[trigger] w.is_block(p, j) implies p + span(j) <= at + span(k)
            || at + n <= p by {
            if p == at && j == k {
            } else {
                assert(w.is_free(p, j) || w.is_live(p, j));
                assert(v.is_block(p, j));
            }
        }
        lemma_carved_ok(w, at + span(k), n - span(k));
        assert(w.with_lists(carved(w.lists, at + span(k), n - span(k))) == v.with_lists(
            carved(v.lists, at, n),
        ));
    } else {
        assert(v.with_lists(carved(v.lists, at, n)) == v);
    }
}

/// Registering a region keeps the allocator valid, hands nothing out and takes nothing back,
/// and adds just the pages of the region to what is managed.
pub proof fn law_region_valid(v: BuddyView, virt_base: int, n: int)
    requires
        v.valid(),
        virt_base > 0,
        virt_base % (PAGE_SIZE as int) == 0,
        v.base_with(virt_base) <= virt_base,
        n >= 0,
        v.region_free(virt_base, n),
        (v.total_pages + n) * PAGE_SIZE <= u64::MAX,
    ensures
        v.after_region(virt_base, n).valid(),
        v.after_region(virt_base, n).live == v.live,
        v.after_region(virt_base, n).stats.total_bytes == v.stats.total_bytes + n * 4096,
        v.after_region(virt_base, n).stats.free_bytes == v.stats.free_bytes + n * 4096,
        v.after_region(virt_base, n).stats.used_bytes == v.stats.used_bytes,
        v.after_region(virt_base, n).stats.alloc_count == v.stats.alloc_count,
        v.after_region(virt_base, n).stats.dealloc_count == v.stats.dealloc_count,
        v.base != 0 ==> v.after_region(virt_base, n).base == v.base,
        v.base == 0 ==> v.after_region(virt_base, n).base == virt_base,
{
    let base = v.base_with(virt_base);
    let at = (virt_base - base) / (PAGE_SIZE as int);
    let u = BuddyView { base, ..v };
    let w = v.after_region(virt_base, n);
    if v.base == 0 {
        assert forall|p: int, k: int| !#[trigger] u.is_block(p, k) by {
            assert(!v.is_block(p, k));
            assert(u.is_free(p, k) == v.is_free(p, k));
            assert(u.is_live(p, k) == v.is_live(p, k));
        }
        assert forall|p: int, k: int| #[trigger] u.is_free(p, k) implies false by {
            assert(!u.is_block(p, k));
        }
        assert forall|k: int| 0 <= k < BUDDY_MAX_ORDER implies #[trigger] u.lists[k].no_duplicates() by {
            assert(v.lists[k].no_duplicates());
        }
        assert forall|k: int| 0 <= k < BUDDY_MAX_ORDER implies #[trigger] u.live[k].finite() by {
            assert(v.live[k].finite());
        }
        assert(u.blocks_ok());
    } else {
        assert(u == v);
    }
    assert(u.unmanaged(at, n)) by {
        assert forall|p: int, k: int| #[trigger] u.is_block(p, k) implies p + span(k) <= at || at + n
            <= p by {
            if v.base != 0 {
                assert(v.is_block(p, k));
            }
        }
    }
    lemma_carved_ok(u, at, n);
    lemma_same_blocks(u.with_lists(carved(u.lists, at, n)), w);
    v.lemma_region_counted(virt_base, n);
}

/// Registering a region leaves every free block free.
pub proof fn law_region_keeps_free(v: BuddyView, virt_base: int, n: int, p: int, k: int)
    requires
        v.valid(),
        v.is_free(p, k),
    ensures
        v.after_region(virt_base, n).is_free(p, k),
{
    lemma_carved_keeps(
        v.lists,
        (virt_base - v.base_with(virt_base)) / (PAGE_SIZE as int),
        n,
        p,
        k,
    );
}

/// Two allocations in a row give blocks that share no byte.
pub proof fn law_two_allocs_apart(v: BuddyView, k: int, j: int)
    requires
        v.valid(),
        0 <= k < BUDDY_MAX_ORDER,
        0 <= j < BUDDY_MAX_ORDER,
        v.has_room(k),
        v.can_alloc(k),
        v.after_alloc(k).has_room(j),
        v.after_alloc(k).can_alloc(j),
    ensures
        ({
            let w = v.after_alloc(k);
            let a = v.addr(v.next_page(k));
            let b = w.addr(w.next_page(j));
            a + span(k) * PAGE_SIZE <= b || b + span(j) * PAGE_SIZE <= a
        }),
{
    let w = v.after_alloc(k);
    let p = v.next_page(k);
    let q = w.next_page(j);
    law_alloc_valid(v, k);
    law_alloc_block(w, j);
    lemma_fitting_order(w.lists, j);
    let f = fitting_order(w.lists, j);
    w.lemma_first_removed(f);
    assert(w.is_block(p, k) && w.is_block(q, f));
    assert(!w.is_live(q, f));
    lemma_span_order(j, f);
}

/// Bytes are never lost: what is used and what is free add up to what is managed, what is
/// used are the bytes of the live blocks, and the peak lies between what is used and what is
/// managed. The calls that allocated and those that gave back differ by the live blocks.
pub proof fn law_conservation(v: BuddyView)
    requires
        v.valid(),
    ensures
        v.stats.used_bytes + v.stats.free_bytes == v.stats.total_bytes,
        v.stats.used_bytes == live_pages(v.live, BUDDY_MAX_ORDER as int) * PAGE_SIZE,
        v.stats.used_bytes <= v.stats.peak_bytes <= v.stats.total_bytes,
        v.stats.alloc_count - v.stats.dealloc_count == live_blocks(
            v.live,
            BUDDY_MAX_ORDER as int,
        ),
{
}

/// Allocating moves the bytes of the block from the free ones to the used ones, and giving it
/// back moves them back.
pub proof fn law_bytes_move(v: BuddyView, k: int, p: int)
    requires
        v.valid(),
        0 <= k < BUDDY_MAX_ORDER,
    ensures
        v.has_room(k) ==> {
            &&& v.after_alloc(k).stats.used_bytes == v.stats.used_bytes + span(k) * PAGE_SIZE
            &&& v.after_alloc(k).stats.free_bytes == v.stats.free_bytes - span(k) * PAGE_SIZE
        },
        v.is_live(p, k) ==> {
            &&& v.after_dealloc(p, k).stats.used_bytes == v.stats.used_bytes - span(k) * PAGE_SIZE
            &&& v.after_dealloc(p, k).stats.free_bytes == v.stats.free_bytes + span(k) * PAGE_SIZE
        },
        span(k) > 0,
{
    lemma_span(k);
    if v.has_room(k) {
        assert(!v.is_live(v.next_page(k), k)) by {
            let f = fitting_order(v.lists, k);
            lemma_fitting_order(v.lists, k);
            v.lemma_first_removed(f);
            let q = v.next_page(k);
            assert(v.is_block(q, f));
            if v.is_live(q, k) {
                assert(v.is_block(q, k));
                lemma_span(f);
            }
        }
        v.lemma_alloc_counted(k);
    }
    if v.is_live(p, k) {
        v.lemma_dealloc_counted(p, k);
    }
}

/// The peak never sinks, and no operation but an allocation raises it.
pub proof fn law_peak(v: BuddyView, k: int, p: int, virt_base: int, n: int)
    requires
        v.valid(),
        0 <= k < BUDDY_MAX_ORDER,
    ensures
        v.has_room(k) && v.can_alloc(k) ==> v.after_alloc(k).stats.peak_bytes
            >= v.stats.peak_bytes,
        v.after_dealloc(p, k).stats.peak_bytes == v.stats.peak_bytes,
        v.after_region(virt_base, n).stats.peak_bytes == v.stats.peak_bytes,
{
    if v.has_room(k) && v.can_alloc(k) {
        law_bytes_move(v, k, p);
    }
}

/// Putting the halves of a split block on their lists makes all its pages free but those of
/// its front.
proof fn lemma_split_cover(lists: Seq<Seq<int>>, p: int, from: int, to: int, q: int)
    requires
        lists.len() == BUDDY_MAX_ORDER,
        0 <= to <= from < BUDDY_MAX_ORDER,
    ensures
        covered(split_down(lists, p, from, to), q) <==> covered(lists, q) || p + span(to) <= q < p
            + span(from),
    decreases from - to,
{
    if from > to {
        let c = from - 1;
        lemma_span(c);
        lemma_span_order(to, c);
        lemma_inserted_cover(lists, p + span(c), c, q);
        lemma_split_cover(inserted(lists, p + span(c), c), p, c, to, q);
    }
}

/// The pages of a block that is taken off its list are those that were free on its account.
proof fn lemma_removed_cover(lists: Seq<Seq<int>>, p: int, k: int, q: int)
    requires
        lists.len() == BUDDY_MAX_ORDER,
        0 <= k < BUDDY_MAX_ORDER,
        lists[k].contains(p),
        lists[k].no_duplicates(),
    ensures
        covered(removed(lists, p, k), q) || p <= q < p + span(k) <==> covered(lists, q),
        removed(lists, p, k)[k].no_duplicates(),
{
    let after = removed(lists, p, k);
    lemma_seq_remove(lists[k], p);
    if covered(after, q) {
        let (b, j) = choose|b: int, j: int|
            0 <= j < BUDDY_MAX_ORDER && #[trigger] after[j].contains(b) && b <= q < b + span(j);
        assert(lists[j].contains(b));
    }
    if covered(lists, q) {
        let (b, j) = choose|b: int, j: int|
            0 <= j < BUDDY_MAX_ORDER && #[trigger] lists[j].contains(b) && b <= q < b + span(j);
        if !(b == p && j == k) {
            assert(after[j].contains(b));
        }
    }
}

/// Giving a block back makes its pages free, and no others, however far it merges.
proof fn lemma_given_back_cover(lists: Seq<Seq<int>>, p: int, k: int, q: int)
    requires
        lists.len() == BUDDY_MAX_ORDER,
        0 <= k < BUDDY_MAX_ORDER,
        0 <= p,
        p % span(k) == 0,
        forall|j: int| 0 <= j < BUDDY_MAX_ORDER ==> #[trigger] lists[j].no_duplicates(),
    ensures
        covered(given_back(lists, p, k), q) <==> covered(lists, q) || p <= q < p + span(k),
    decreases BUDDY_MAX_ORDER - k,
{
    let b = buddy_of(p, k);
    if k < BUDDY_MAX_ORDER - 1 && lists[k].contains(b) {
        lemma_pair(p, k);
        lemma_span(k);
        let low = lower_of_pair(p, k);
        assert(lists[k].no_duplicates());
        lemma_removed_cover(lists, b, k, q);
        let rest = removed(lists, b, k);
        assert forall|j: int| 0 <= j < BUDDY_MAX_ORDER implies #[trigger] rest[j].no_duplicates() by {
            assert(lists[j].no_duplicates());
        }
        lemma_given_back_cover(rest, low, k + 1, q);
        assert(given_back(lists, p, k) == given_back(rest, low, k + 1));
    } else {
        lemma_inserted_cover(lists, p, k, q);
    }
}

/// Bytes below the base are never free.
proof fn lemma_none_below(v: BuddyView, a: int)
    requires
        v.blocks_ok(),
        a < v.base,
    ensures
        !v.in_free(a),
{
    if v.in_free(a) {
        let (p, k) = choose|p: int, k: int| #[trigger]
            v.is_free(p, k) && v.addr(p) <= a < v.addr(p + span(k));
        assert(v.is_block(p, k));
    }
}

/// Giving a live block back makes its bytes free, and no others.
pub proof fn law_bytes_given_back(v: BuddyView, p: int, k: int, a: int)
    requires
        v.valid(),
        v.is_live(p, k),
    ensures
        v.after_dealloc(p, k).in_free(a) <==> v.in_free(a) || v.addr(p) <= a < v.addr(p) + span(k)
            * PAGE_SIZE,
{
    let w = v.after_dealloc(p, k);
    law_dealloc_valid(v, p, k);
    assert(v.is_block(p, k));
    if a < v.base {
        lemma_none_below(v, a);
        lemma_none_below(w, a);
    } else {
        lemma_covered(v, a);
        lemma_covered(w, a);
        lemma_given_back_cover(v.lists, p, k, v.page(a));
    }
}

/// Giving back at once what was allocated makes the same bytes free again, in every state,
/// and restores the live blocks and all counters but those of calls and the peak.
pub proof fn law_round_trip(v: BuddyView, k: int, a: int)
    requires
        v.valid(),
        0 <= k < BUDDY_MAX_ORDER,
        v.has_room(k),
        v.can_alloc(k),
    ensures
        ({
            let w = v.after_alloc(k).after_dealloc(v.next_page(k), k);
            &&& w.in_free(a) <==> v.in_free(a)
            &&& w.live == v.live
            &&& w.stats == (AllocStats {
                alloc_count: (v.stats.alloc_count + 1) as u64,
                dealloc_count: (v.stats.dealloc_count + 1) as u64,
                peak_bytes: v.stats.peak_with(v.stats.used_bytes + span(k) * PAGE_SIZE) as u64,
                ..v.stats
            })
        }),
{
    let w = v.after_alloc(k);
    let p = v.next_page(k);
    law_alloc_valid(v, k);
    law_alloc_block(v, k);
    law_bytes_given_back(w, p, k, a);
    lemma_live_restored(v, k);
    law_bytes_move(v, k, p);
    if a < v.base {
        lemma_none_below(v, a);
        lemma_none_below(w, a);
    } else {
        let f = fitting_order(v.lists, k);
        let q = v.page(a);
        lemma_fitting_order(v.lists, k);
        v.lemma_first_removed(f);
        lemma_covered(v, a);
        lemma_covered(w, a);
        assert(v.lists[f].no_duplicates());
        lemma_removed_cover(v.lists, p, f, q);
        lemma_split_cover(removed(v.lists, p, f), p, f, k, q);
        lemma_span_order(k, f);
        lemma_span(k);
    }
}

/// A block that is given back is merged with its free buddy, order after order: the free
/// block that then holds it has the largest order or no free buddy.
pub proof fn law_merged(v: BuddyView, p: int, k: int)
    requires
        v.valid(),
        v.is_live(p, k),
    ensures
        ({
            let w = v.after_dealloc(p, k);
            &&& exists|q: int, j: int| #[trigger]
                w.is_free(q, j) && q <= p && p + span(k) <= q + span(j)
            &&& forall|q: int, j: int| #[trigger]
                w.is_free(q, j) && q <= p < q + span(j) ==> j == BUDDY_MAX_ORDER - 1 || !w.is_free(
                    buddy_of(q, j),
                    j,
                )
        }),
{
    let w = v.after_dealloc(p, k);
    law_dealloc_valid(v, p, k);
    v.lemma_made_dead(p, k);
    assert(v.is_block(p, k));
    let d = v.with_live(v.live.update(k, v.live[k].remove(p)));
    lemma_merge_ok(d, p, k);
    let mp = merged_page(d.lists, p, k);
    let mo = merged_order(d.lists, p, k);
    let x = d.with_lists(merged_rest(d.lists, p, k));
    x.lemma_inserted(mp, mo);
    let y = x.with_lists(inserted(x.lists, mp, mo));
    assert(w.lists == y.lists);
    assert(y.is_free(mp, mo));
    assert(w.is_free(mp, mo));
    lemma_span(k);
    lemma_span(mo);
    assert forall|q: int, j: int| #[trigger] w.is_free(q, j) && q <= p < q + span(j) implies j
        == BUDDY_MAX_ORDER - 1 || !w.is_free(buddy_of(q, j), j) by {
        assert(w.is_block(q, j) && w.is_block(mp, mo));
        assert(q == mp && j == mo);
        if mo < BUDDY_MAX_ORDER - 1 && w.is_free(buddy_of(mp, mo), mo) {
            assert(y.is_free(buddy_of(mp, mo), mo));
            assert(x.is_free(buddy_of(mp, mo), mo));
        }
    }
}

/// Giving back at once what was allocated restores the free lists, in order, unless the
/// block that was cut is itself one of two free buddies.
pub proof fn law_alloc_dealloc(v: BuddyView, k: int)
    requires
        v.valid(),
        0 <= k < BUDDY_MAX_ORDER,
        v.has_room(k),
        v.can_alloc(k),
        ({
            let f = fitting_order(v.lists, k);
            f < BUDDY_MAX_ORDER - 1 ==> !v.is_free(buddy_of(v.next_page(k), f), f)
        }),
    ensures
        v.after_alloc(k).after_dealloc(v.next_page(k), k).lists == v.lists,
        v.after_alloc(k).after_dealloc(v.next_page(k), k).live == v.live,
        v.after_alloc(k).after_dealloc(v.next_page(k), k).stats == (AllocStats {
            alloc_count: (v.stats.alloc_count + 1) as u64,
            dealloc_count: (v.stats.dealloc_count + 1) as u64,
            peak_bytes: v.stats.peak_with(v.stats.used_bytes + span(k) * PAGE_SIZE) as u64,
            ..v.stats
        }),
{
    lemma_lists_restored(v, k);
    lemma_live_restored(v, k);
    v.lemma_alloc_counted(k);
}

/// The free lists are as they were when a block is given back at once.
proof fn lemma_lists_restored(v: BuddyView, k: int)
    requires
        v.valid(),
        0 <= k < BUDDY_MAX_ORDER,
        v.has_room(k),
        ({
            let f = fitting_order(v.lists, k);
            f < BUDDY_MAX_ORDER - 1 ==> !v.is_free(buddy_of(v.next_page(k), f), f)
        }),
    ensures
        v.after_alloc(k).after_dealloc(v.next_page(k), k).lists == v.lists,
{
    lemma_fitting_order(v.lists, k);
    let f = fitting_order(v.lists, k);
    let p = v.next_page(k);
    v.lemma_first_removed(f);
    v.lemma_removed(p, f);
    assert(v.is_block(p, f));
    let taken = removed(v.lists, p, f);
    lemma_split_lists(taken, p, f, k);
    law_alloc_block(v, k);
    assert(taken[f] == v.lists[f].remove(0));
    lemma_give_back_split(taken, p, f, k);
    assert(given_back(split_down(taken, p, f, k), p, k) == inserted(taken, p, f));
    assert(inserted(taken, p, f) =~= v.lists) by {
        assert(seq![p] + v.lists[f].remove(0) =~= v.lists[f]);
    }
}

/// The live blocks are as they were when a block is given back at once.
proof fn lemma_live_restored(v: BuddyView, k: int)
    requires
        v.valid(),
        0 <= k < BUDDY_MAX_ORDER,
        v.has_room(k),
    ensures
        v.after_alloc(k).after_dealloc(v.next_page(k), k).live == v.live,
{
    lemma_fitting_order(v.lists, k);
    let f = fitting_order(v.lists, k);
    let p = v.next_page(k);
    assert(v.lists[f].contains(v.lists[f][0]));
    assert(v.is_free(p, f));
    assert(v.is_block(p, f));
    let w = v.after_alloc(k);
    assert(!v.is_live(p, k)) by {
        if v.is_live(p, k) {
            assert(v.is_block(p, k));
            lemma_span(k);
            lemma_span(f);
        }
    }
    assert(w.live.update(k, w.live[k].remove(p)) =~= v.live) by {
        assert(v.live[k].insert(p).remove(p) =~= v.live[k]);
    }
}

/// Giving back the front of a block that was split merges all the halves again.
proof fn lemma_give_back_split(lists: Seq<Seq<int>>, p: int, f: int, k: int)
    requires
        lists.len() == BUDDY_MAX_ORDER,
        0 <= k <= f < BUDDY_MAX_ORDER,
        0 <= p,
        p % span(f) == 0,
        forall|j: int| k <= j < f ==> (#[trigger] lists[j]).len() == 0,
        f < BUDDY_MAX_ORDER - 1 ==> !lists[f].contains(buddy_of(p, f)),
    ensures
        given_back(split_down(lists, p, f, k), p, k) == inserted(lists, p, f),
    decreases f - k,
{
    let s = split_down(lists, p, f, k);
    lemma_split_lists(lists, p, f, k);
    if k < f {
        lemma_aligned_below(p, k + 1, f);
        lemma_halves(p, k);
        lemma_span(k);
        let b = p + span(k);
        assert(s[k] =~= seq![b]);
        assert(s[k][0] == b);
        assert(s[k].contains(b));
        assert(lower_of_pair(p, k) == p);
        let t = removed(s, b, k);
        assert(s[k].index_of(b) == 0);
        assert(t[k] =~= Seq::<int>::empty());
        lemma_split_lists(lists, p, f, k + 1);
        assert(t =~= split_down(lists, p, f, k + 1)) by {
            assert forall|j: int| 0 <= j < BUDDY_MAX_ORDER implies t[j] == split_down(
                lists,
                p,
                f,
                k + 1,
            )[j] by {
                if j == k {
                    assert(lists[k] =~= Seq::<int>::empty());
                }
            }
        }
        lemma_give_back_split(lists, p, f, k + 1);
        assert(merged_rest(s, p, k) == merged_rest(t, p, k + 1));
        assert(merged_page(s, p, k) == merged_page(t, p, k + 1));
        assert(merged_order(s, p, k) == merged_order(t, p, k + 1));
    } else {
        assert(s == lists);
    }
}

/// Pages from a multiple of a block size on, fewer than such a block has, are carved into
/// blocks of different sizes.
proof fn lemma_carve_distinct(lists: Seq<Seq<int>>, at: int, n: int, k: int)
    requires
        lists.len() == BUDDY_MAX_ORDER,
        0 <= k < BUDDY_MAX_ORDER,
        0 <= at,
        at % span(k) == 0,
        n < span(k),
        forall|j: int| 0 <= j < k ==> (#[trigger] lists[j]).len() == 0,
    ensures
        carved(lists, at, n).len() == BUDDY_MAX_ORDER,
        forall|j: int| 0 <= j < k ==> (#[trigger] carved(lists, at, n)[j]).len() <= 1,
        forall|j: int|
            k <= j < BUDDY_MAX_ORDER ==> #[trigger] carved(lists, at, n)[j] == lists[j],
    decreases n,
{
    if n > 0 {
        lemma_largest_order(at, n, BUDDY_MAX_ORDER - 1);
        let c = carve_order(at, n);
        lemma_span(c);
        if c >= k {
            lemma_span_order(k, c);
        }
        let next = inserted(lists, at, c);
        lemma_aligned_below(at, c + 1, k);
        assert(span(c + 1) > n);
        assert((at + span(c)) % span(c) == 0) by {
            vstd::arithmetic::div_mod::lemma_mod_add_multiples_vanish(at, span(c));
        }
        assert forall|j: int| 0 <= j < c implies (#[trigger] next[j]).len() == 0 by {
            assert(lists[j].len() == 0);
        }
        lemma_carve_distinct(next, at + span(c), n - span(c), c);
        let after = carved(lists, at, n);
        assert(after == carved(next, at + span(c), n - span(c)));
        assert forall|j: int| 0 <= j < k implies (#[trigger] after[j]).len() <= 1 by {
            assert(lists[j].len() == 0);
            if j >= c {
                assert(after[j] == next[j]);
            }
        }
        assert forall|j: int| k <= j < BUDDY_MAX_ORDER implies #[trigger] after[j] == lists[j] by {
            assert(after[j] == next[j]);
        }
    }
}

/// Pages from a multiple of the largest block size on are carved into blocks of that size
/// and blocks of different smaller sizes.
proof fn lemma_carve_first(lists: Seq<Seq<int>>, at: int, n: int)
    requires
        lists.len() == BUDDY_MAX_ORDER,
        0 <= at,
        at % span(BUDDY_MAX_ORDER - 1) == 0,
        forall|j: int| 0 <= j < BUDDY_MAX_ORDER - 1 ==> (#[trigger] lists[j]).len() == 0,
    ensures
        carved(lists, at, n).len() == BUDDY_MAX_ORDER,
        forall|j: int|
            0 <= j < BUDDY_MAX_ORDER - 1 ==> (#[trigger] carved(lists, at, n)[j]).len() <= 1,
    decreases n,
{
    let top = BUDDY_MAX_ORDER - 1;
    lemma_span(top);
    if n < span(top) {
        lemma_carve_distinct(lists, at, n, top);
    } else {
        assert(carve_order(at, n) == top);
        let next = inserted(lists, at, top);
        assert forall|j: int| 0 <= j < top implies (#[trigger] next[j]).len() == 0 by {
            assert(lists[j].len() == 0);
        }
        assert((at + span(top)) % span(top) == 0) by {
            vstd::arithmetic::div_mod::lemma_mod_add_multiples_vanish(at, span(top));
        }
        lemma_carve_first(next, at + span(top), n - span(top));
    }
}

/// Carving puts blocks on the lists and takes none off.
proof fn lemma_carved_keeps(lists: Seq<Seq<int>>, at: int, n: int, p: int, k: int)
    requires
        lists.len() == BUDDY_MAX_ORDER,
        0 <= k < BUDDY_MAX_ORDER,
        lists[k].contains(p),
    ensures
        carved(lists, at, n)[k].contains(p),
    decreases n,
{
    if n > 0 {
        lemma_carve_order(at, n);
        let c = carve_order(at, n);
        let next = inserted(lists, at, c);
        if c == k {
            let i = lists[k].index_of(p);
            assert(next[k] =~= seq![at] + lists[k]);
            assert(next[k][i + 1] == p);
        }
        lemma_carved_keeps(next, at + span(c), n - span(c), p, k);
    }
}

/// The first region that is registered leaves no two buddies free together, and a block of
/// order `k` can be had from it exactly if it has that many pages.
pub proof fn law_first_region(v: BuddyView, virt_base: int, n: int, k: int)
    requires
        v.valid(),
        v.base == 0,
        n >= 0,
        0 <= k < BUDDY_MAX_ORDER,
    ensures
        v.after_region(virt_base, n).coalesced(),
        v.after_region(virt_base, n).has_room(k) <==> span(k) <= n,
{
    let w = v.after_region(virt_base, n);
    lemma_first_coalesced(v, virt_base, n);
    lemma_fitting_order(w.lists, k);
    lemma_span(k);
    if span(k) <= n {
        lemma_largest_order(0, n, BUDDY_MAX_ORDER - 1);
        let c = carve_order(0, n);
        assert(c >= k);
        let next = inserted(v.lists, 0, c);
        assert(next[c][0] == 0);
        assert(next[c].contains(0));
        lemma_carved_keeps(next, span(c), n - span(c), 0, c);
        assert(w.lists == carved(next, span(c), n - span(c)));
        assert(w.lists[c].len() > 0);
    } else if w.has_room(k) {
        let f = fitting_order(w.lists, k);
        let p = w.lists[f][0];
        lemma_span(f);
        lemma_span_order(k, f);
        assert(w.lists[f].contains(p));
        assert forall|q: int| !covered(v.lists, q) by {
            if covered(v.lists, q) {
                let (b, j) = choose|b: int, j: int|
                    0 <= j < BUDDY_MAX_ORDER && #[trigger] v.lists[j].contains(b) && b <= q < b
                        + span(j);
                assert(v.is_free(b, j));
                assert(v.is_block(b, j));
            }
        }
        lemma_carved_cover(v.lists, 0, n, p);
        lemma_carved_cover(v.lists, 0, n, p + span(f) - 1);
        assert(covered(w.lists, p) && covered(w.lists, p + span(f) - 1));
    }
}

proof fn lemma_first_coalesced(v: BuddyView, virt_base: int, n: int)
    requires
        v.valid(),
        v.base == 0,
        n >= 0,
    ensures
        v.after_region(virt_base, n).coalesced(),
{
    let w = v.after_region(virt_base, n);
    assert forall|j: int| 0 <= j < BUDDY_MAX_ORDER implies (#[trigger] v.lists[j]).len() == 0 by {
        if v.lists[j].len() > 0 {
            assert(v.lists[j].contains(v.lists[j][0]));
            assert(v.is_free(v.lists[j][0], j));
            assert(v.is_block(v.lists[j][0], j));
        }
    }
    lemma_span(BUDDY_MAX_ORDER - 1);
    lemma_carve_first(v.lists, 0, n);
    assert forall|p: int, k: int| #[trigger]
        w.is_free(p, k) && k < BUDDY_MAX_ORDER - 1 implies !w.is_free(buddy_of(p, k), k) by {
        lemma_span(k);
        if w.is_free(buddy_of(p, k), k) {
            let i = w.lists[k].index_of(p);
            let j = w.lists[k].index_of(buddy_of(p, k));
            assert(w.lists[k].len() <= 1);
            assert(i == 0 && j == 0);
        }
    }
}

/// Once no two buddies are free together, as after the first region, allocating and giving
/// back keep it so: every free block is merged as far as it goes.
pub proof fn law_coalesced(v: BuddyView, p: int, k: int)
    requires
        v.valid(),
        v.coalesced(),
        0 <= k < BUDDY_MAX_ORDER,
    ensures
        v.has_room(k) && v.can_alloc(k) ==> v.after_alloc(k).coalesced(),
        v.is_live(p, k) ==> v.after_dealloc(p, k).coalesced(),
{
    if v.has_room(k) && v.can_alloc(k) {
        lemma_alloc_coalesced(v, k);
    }
    if v.is_live(p, k) {
        lemma_dealloc_coalesced(v, p, k);
    }
}

proof fn lemma_alloc_coalesced(v: BuddyView, k: int)
    requires
        v.valid(),
        v.coalesced(),
        0 <= k < BUDDY_MAX_ORDER,
        v.has_room(k),
        v.can_alloc(k),
    ensures
        v.after_alloc(k).coalesced(),
{
    lemma_fitting_order(v.lists, k);
    let f = fitting_order(v.lists, k);
    let p = v.next_page(k);
    v.lemma_first_removed(f);
    v.lemma_removed(p, f);
    let taken = removed(v.lists, p, f);
    let t = v.with_lists(taken);
    lemma_split_lists(taken, p, f, k);
    let w = v.after_alloc(k);
    assert forall|q: int, j: int| #[trigger]
        w.is_free(q, j) && j < BUDDY_MAX_ORDER - 1 implies !w.is_free(buddy_of(q, j), j) by {
        lemma_span(j);
        if k <= j < f {
            assert(v.lists[j].len() == 0);
            assert(taken[j] == v.lists[j]);
            assert(w.lists[j] =~= seq![p + span(j)]);
        } else {
            assert(w.lists[j] == taken[j]);
            assert(t.is_free(q, j));
            assert(v.is_free(q, j));
            if w.is_free(buddy_of(q, j), j) {
                assert(t.is_free(buddy_of(q, j), j));
            }
        }
    }
}

proof fn lemma_dealloc_coalesced(v: BuddyView, p: int, k: int)
    requires
        v.valid(),
        v.coalesced(),
        v.is_live(p, k),
    ensures
        v.after_dealloc(p, k).coalesced(),
{
    v.lemma_made_dead(p, k);
    assert(v.is_block(p, k));
    let w = v.with_live(v.live.update(k, v.live[k].remove(p)));
    lemma_merge_ok(w, p, k);
    let mp = merged_page(w.lists, p, k);
    let mo = merged_order(w.lists, p, k);
    let x = w.with_lists(merged_rest(w.lists, p, k));
    x.lemma_inserted(mp, mo);
    let y = x.with_lists(inserted(x.lists, mp, mo));
    let z = v.after_dealloc(p, k);
    assert(z.lists == y.lists);
    lemma_pair(mp, mo);
    assert forall|q: int, j: int| #[trigger]
        z.is_free(q, j) && j < BUDDY_MAX_ORDER - 1 implies !z.is_free(buddy_of(q, j), j) by {
        assert(y.is_free(q, j));
        lemma_span(j);
        if z.is_free(buddy_of(q, j), j) {
            let b = buddy_of(q, j);
            assert(y.is_free(b, j));
            if q == mp && j == mo {
                assert(x.is_free(b, j));
            } else if b == mp && j == mo {
                assert(x.is_free(q, j));
                assert(x.is_block(q, j));
                lemma_pair(q, j);
                assert(buddy_of(b, j) == q);
            } else {
                assert(x.is_free(q, j) && x.is_free(b, j));
                assert(w.is_free(q, j) && w.is_free(b, j));
                assert(v.is_free(q, j) && v.is_free(b, j));
            }
        }
    }
}

/// An allocator whose blocks all lie among the first [`TRACKED_PAGES`] pages never runs
/// out of bitmap, and a region that ends there can always be registered.
pub proof fn law_tracked(v: BuddyView, k: int, at: int, n: int)
    requires
        v.valid(),
        0 <= k < BUDDY_MAX_ORDER,
        v.below(TRACKED_PAGES as int),
        v.stats.alloc_count < u64::MAX,
        0 <= at,
        0 <= n,
        at + n <= TRACKED_PAGES,
    ensures
        v.can_alloc(k),
        carve_fits(at, n),
{
    if v.has_room(k) {
        lemma_fitting_order(v.lists, k);
        let f = fitting_order(v.lists, k);
        v.lemma_first_removed(f);
        let p = v.next_page(k);
        assert(v.is_block(p, f));
        lemma_span(f);
        lemma_tracked_pair(p, k);
    }
    lemma_carve_tracked(at, n);
}

/// A block among the first [`TRACKED_PAGES`] pages has a bit, whatever its order.
pub proof fn lemma_tracked_pair(p: int, k: int)
    requires
        0 <= k < BUDDY_MAX_ORDER,
        0 <= p < TRACKED_PAGES,
    ensures
        pair_of(p, k) < BITMAP_BITS,
{
    lemma_pair_monotone(p, 0, k);
    lemma_span(0);
    assert(pair_of(p, 0) == p / 2);
}

/// Blocks carved out of the first [`TRACKED_PAGES`] pages all have their bit.
pub proof fn lemma_carve_tracked(at: int, n: int)
    requires
        0 <= at,
        at + n <= TRACKED_PAGES,
    ensures
        carve_fits(at, n),
    decreases n,
{
    if n > 0 {
        lemma_carve_order(at, n);
        let k = carve_order(at, n);
        lemma_tracked_pair(at, k);
        lemma_carve_tracked(at + span(k), n - span(k));
    }
}

/// An allocation hands out the block that it gives and no other; giving a block back takes
/// that one and no other; and what was registered stays where it is.
pub proof fn law_one_block(v: BuddyView, k: int, p: int, q: int, j: int)
    requires
        v.valid(),
        0 <= k < BUDDY_MAX_ORDER,
    ensures
        v.has_room(k) ==> (v.after_alloc(k).is_live(q, j) <==> v.is_live(q, j) || q == v.next_page(
            k,
        ) && j == k),
        v.has_room(k) ==> v.after_alloc(k).base == v.base && v.after_alloc(k).total_pages
            == v.total_pages,
        v.is_live(p, k) ==> (v.after_dealloc(p, k).is_live(q, j) <==> v.is_live(q, j) && !(q == p && j
            == k)),
        v.is_live(p, k) ==> v.after_dealloc(p, k).base == v.base && v.after_dealloc(
            p,
            k,
        ).total_pages == v.total_pages,
{
}

/// Blocks are carved as large as they can be: every aligned block among the pages that are
/// carved lies in one that is at least as large.
proof fn lemma_carved_serves(lists: Seq<Seq<int>>, at: int, n: int, q: int, k: int)
    requires
        lists.len() == BUDDY_MAX_ORDER,
        0 <= at <= q,
        0 <= k < BUDDY_MAX_ORDER,
        q + span(k) <= at + n,
        q % span(k) == 0,
    ensures
        exists|p: int, j: int|
            k <= j < BUDDY_MAX_ORDER && #[trigger] carved(lists, at, n)[j].contains(p) && p <= q && q
                + span(k) <= p + span(j),
    decreases n,
{
    lemma_span(k);
    lemma_carve_order(at, n);
    lemma_largest_order(at, n, BUDDY_MAX_ORDER - 1);
    let c = carve_order(at, n);
    let next = inserted(lists, at, c);
    lemma_span(c);
    assert(carved(lists, at, n) == carved(next, at + span(c), n - span(c)));
    if q >= at + span(c) {
        lemma_carved_serves(next, at + span(c), n - span(c), q, k);
    } else {
        if c < k {
            lemma_aligned_below(q, c, k);
            let m = span(c);
            assert(q == at) by (nonlinear_arith)
                requires
                    at <= q < at + m,
                    q % m == 0,
                    at % m == 0,
                    m >= 1,
            ;
            assert(false);
        }
        lemma_aligned_below(at, k, c);
        let m = span(k);
        let big = span(c);
        assert(big % big == 0) by (nonlinear_arith)
            requires
                big >= 1,
        ;
        lemma_aligned_below(big, k, c);
        let (x, y, z) = (at / m, q / m, big / m);
        vstd::arithmetic::div_mod::lemma_fundamental_div_mod(at, m);
        vstd::arithmetic::div_mod::lemma_fundamental_div_mod(q, m);
        vstd::arithmetic::div_mod::lemma_fundamental_div_mod(big, m);
        assert(y < x + z) by (nonlinear_arith)
            requires
                m * y < m * x + m * z,
                m >= 1,
        ;
        assert(m * y + m <= m * x + m * z) by (nonlinear_arith)
            requires
                y + 1 <= x + z,
                m >= 1,
        ;
        assert(next[c][0] == at);
        assert(next[c].contains(at));
        lemma_carved_keeps(next, at + span(c), n - span(c), at, c);
        assert(carved(lists, at, n)[c].contains(at));
    }
}

/// Registering a region makes its pages free in blocks as large as can be: every block that
/// lies in the region and starts at a multiple of its size, counted from the base, can be had
/// from a free one at least as large.
pub proof fn law_region_serves(v: BuddyView, virt_base: int, n: int, q: int, k: int)
    requires
        v.valid(),
        virt_base > 0,
        virt_base % (PAGE_SIZE as int) == 0,
        v.base_with(virt_base) <= virt_base,
        v.region_free(virt_base, n),
        (v.total_pages + n) * PAGE_SIZE <= u64::MAX,
        n >= 0,
        0 <= k < BUDDY_MAX_ORDER,
        q % span(k) == 0,
        virt_base <= v.after_region(virt_base, n).addr(q),
        v.after_region(virt_base, n).addr(q + span(k)) <= virt_base + n * 4096,
    ensures
        exists|p: int, j: int|
            k <= j && #[trigger] v.after_region(virt_base, n).is_free(p, j) && p <= q && q + span(k)
                <= p + span(j),
        v.after_region(virt_base, n).has_room(k),
{
    let w = v.after_region(virt_base, n);
    let at = (virt_base - w.base) / (PAGE_SIZE as int);
    assert(virt_base == w.base + at * PAGE_SIZE);
    law_region_valid(v, virt_base, n);
    lemma_carved_serves(v.lists, at, n, q, k);
    let (p, j) = choose|p: int, j: int|
        k <= j < BUDDY_MAX_ORDER && #[trigger] carved(v.lists, at, n)[j].contains(p) && p <= q && q
            + span(k) <= p + span(j);
    assert(w.is_free(p, j));
    law_room(w, k);
}

/// An allocation takes its block from the smallest free blocks that are large enough.
pub proof fn law_smallest(v: BuddyView, k: int, p: int, j: int)
    requires
        v.valid(),
        0 <= k <= j,
        v.is_free(p, j),
    ensures
        v.has_room(k),
        exists|f: int| k <= f <= j && #[trigger] v.is_free(v.next_page(k), f),
{
    lemma_fitting_order(v.lists, k);
    let f = fitting_order(v.lists, k);
    assert(v.lists[j].len() > 0);
    assert(v.lists[f].contains(v.lists[f][0]));
    assert(v.is_free(v.next_page(k), f));
}

/// An allocation counts as one and raises the peak just as far as what is used goes beyond it;
/// giving back counts as one and leaves the peak.
pub proof fn law_counts(v: BuddyView, k: int, p: int)
    requires
        v.valid(),
        0 <= k < BUDDY_MAX_ORDER,
    ensures
        v.has_room(k) && v.can_alloc(k) ==> ({
            let s = v.after_alloc(k).stats;
            &&& s.alloc_count == v.stats.alloc_count + 1
            &&& s.dealloc_count == v.stats.dealloc_count
            &&& s.total_bytes == v.stats.total_bytes
            &&& s.used_bytes > v.stats.peak_bytes ==> s.peak_bytes == s.used_bytes
            &&& s.used_bytes <= v.stats.peak_bytes ==> s.peak_bytes == v.stats.peak_bytes
        }),
        v.is_live(p, k) ==> ({
            let s = v.after_dealloc(p, k).stats;
            &&& s.alloc_count == v.stats.alloc_count
            &&& s.dealloc_count == v.stats.dealloc_count + 1
            &&& s.total_bytes == v.stats.total_bytes
            &&& s.peak_bytes == v.stats.peak_bytes
        }),
{
    law_bytes_move(v, k, p);
    if v.is_live(p, k) {
        v.lemma_dealloc_counted(p, k);
    }
}

} // verus!
