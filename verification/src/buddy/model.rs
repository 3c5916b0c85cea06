//! The state of a buddy allocator, page by page, and what each operation makes of it.

use crate::bitmap::BITMAP_BITS;
use crate::framework::{AllocStats, BUDDY_MAX_ORDER, PAGE_SIZE};
use vstd::arithmetic::power2::pow2;
use vstd::prelude::*;

verus! {

/// Pages in a block of order `k`.
pub open spec fn span(k: int) -> int {
    pow2(k as nat) as int
}

/// The facts about block sizes that the proofs use.
pub proof fn lemma_span(k: int)
    requires
        0 <= k <= BUDDY_MAX_ORDER,
    ensures
        1 <= span(k) <= 2048,
        span(k + 1) == 2 * span(k),
        span(0) == 1,
        span(10) == 1024,
{
    vstd::arithmetic::power2::lemma2_to64();
    vstd::arithmetic::power2::lemma_pow2_unfold((k + 1) as nat);
    vstd::arithmetic::power2::lemma_pow2_pos(k as nat);
    if k < 11 {
        vstd::arithmetic::power2::lemma_pow2_strictly_increases(k as nat, 11);
    }
}

/// The block of order `k` that block `p` merges with.
pub open spec fn buddy_of(p: int, k: int) -> int {
    if p % span(k + 1) == 0 {
        p + span(k)
    } else {
        p - span(k)
    }
}

/// The bit that stands for the pair of block `p`.
pub open spec fn pair_of(p: int, k: int) -> int {
    p / span(k + 1)
}

/// The free lists after block `p` was put in front of the list of order `k`.
pub open spec fn inserted(lists: Seq<Seq<int>>, p: int, k: int) -> Seq<Seq<int>> {
    lists.update(k, seq![p] + lists[k])
}

/// The free lists after block `p` was taken off the list of order `k`.
pub open spec fn removed(lists: Seq<Seq<int>>, p: int, k: int) -> Seq<Seq<int>> {
    lists.update(k, lists[k].remove(lists[k].index_of(p)))
}

/// The least order from `k` on whose list is not empty; [`BUDDY_MAX_ORDER`] if none is.
pub open spec fn fitting_order(lists: Seq<Seq<int>>, k: int) -> int
    decreases BUDDY_MAX_ORDER - k,
{
    if k >= BUDDY_MAX_ORDER {
        BUDDY_MAX_ORDER as int
    } else if lists[k].len() > 0 {
        k
    } else {
        fitting_order(lists, k + 1)
    }
}

/// The free lists after block `p` of order `from`, already off its list, was halved down
/// to order `to`: the upper half of every split went onto the list of its order.
pub open spec fn split_down(lists: Seq<Seq<int>>, p: int, from: int, to: int) -> Seq<Seq<int>>
    decreases from - to,
{
    if from <= to {
        lists
    } else {
        split_down(inserted(lists, p + span(from - 1), from - 1), p, from - 1, to)
    }
}

/// The order that block `p` of order `k` reaches by merging with free buddies.
pub open spec fn merged_order(lists: Seq<Seq<int>>, p: int, k: int) -> int
    decreases BUDDY_MAX_ORDER - k,
{
    if 0 <= k < BUDDY_MAX_ORDER - 1 && lists[k].contains(buddy_of(p, k)) {
        merged_order(removed(lists, buddy_of(p, k), k), lower_of_pair(p, k), k + 1)
    } else {
        k
    }
}

/// The first page of the block that `p` reaches by merging with free buddies.
pub open spec fn merged_page(lists: Seq<Seq<int>>, p: int, k: int) -> int
    decreases BUDDY_MAX_ORDER - k,
{
    if 0 <= k < BUDDY_MAX_ORDER - 1 && lists[k].contains(buddy_of(p, k)) {
        merged_page(removed(lists, buddy_of(p, k), k), lower_of_pair(p, k), k + 1)
    } else {
        p
    }
}

/// The free lists after the buddies that `p` merges with were taken off.
pub open spec fn merged_rest(lists: Seq<Seq<int>>, p: int, k: int) -> Seq<Seq<int>>
    decreases BUDDY_MAX_ORDER - k,
{
    if 0 <= k < BUDDY_MAX_ORDER - 1 && lists[k].contains(buddy_of(p, k)) {
        merged_rest(removed(lists, buddy_of(p, k), k), lower_of_pair(p, k), k + 1)
    } else {
        lists
    }
}

/// The lower of a block and its buddy.
pub open spec fn lower_of_pair(p: int, k: int) -> int {
    if buddy_of(p, k) < p {
        buddy_of(p, k)
    } else {
        p
    }
}

/// The free lists after block `p` of order `k` came back and was merged as far as it goes.
pub open spec fn given_back(lists: Seq<Seq<int>>, p: int, k: int) -> Seq<Seq<int>> {
    inserted(merged_rest(lists, p, k), merged_page(lists, p, k), merged_order(lists, p, k))
}

/// The largest order up to `k` whose blocks have no more than `n` pages and may start at page
/// `at`; zero if none has.
pub open spec fn largest_order(at: int, n: int, k: int) -> int
    decreases k,
{
    if k <= 0 || (span(k) <= n && at % span(k) == 0) {
        k
    } else {
        largest_order(at, n, k - 1)
    }
}

/// The order of the block that is carved at page `at` where `n` pages are left: the largest
/// that is aligned and fits.
pub open spec fn carve_order(at: int, n: int) -> int {
    largest_order(at, n, BUDDY_MAX_ORDER - 1)
}

/// The largest order is in range, fits and is aligned, and a larger one does not or is not.
pub proof fn lemma_largest_order(at: int, n: int, k: int)
    requires
        n > 0,
        0 <= k < BUDDY_MAX_ORDER,
    ensures
        0 <= largest_order(at, n, k) <= k,
        1 <= span(largest_order(at, n, k)) <= n,
        at % span(largest_order(at, n, k)) == 0,
        forall|j: int|
            largest_order(at, n, k) < j <= k ==> #[trigger] span(j) > n || at % span(j) != 0,
    decreases k,
{
    lemma_span(0);
    lemma_span(k);
    if k > 0 && !(span(k) <= n && at % span(k) == 0) {
        lemma_largest_order(at, n, k - 1);
    }
}

/// A carved block is aligned and takes no more than the pages that are left.
pub proof fn lemma_carve_order(at: int, n: int)
    requires
        n > 0,
    ensures
        0 <= carve_order(at, n) < BUDDY_MAX_ORDER,
        1 <= span(carve_order(at, n)) <= n,
        at % span(carve_order(at, n)) == 0,
{
    lemma_largest_order(at, n, BUDDY_MAX_ORDER - 1);
}

/// The free lists after the `n` pages from `at` on were carved into blocks.
pub open spec fn carved(lists: Seq<Seq<int>>, at: int, n: int) -> Seq<Seq<int>>
    decreases n,
{
    if n <= 0 {
        lists
    } else {
        proof {
            lemma_carve_order(at, n);
        }
        let k = carve_order(at, n);
        carved(inserted(lists, at, k), at + span(k), n - span(k))
    }
}

/// Every block carved out of the `n` pages from `at` on has a bit in the bitmap of its
/// order.
pub open spec fn carve_fits(at: int, n: int) -> bool
    decreases n,
{
    if n <= 0 {
        true
    } else {
        proof {
            lemma_carve_order(at, n);
        }
        let k = carve_order(at, n);
        pair_of(at, k) < BITMAP_BITS && carve_fits(at + span(k), n - span(k))
    }
}

/// Pages in the blocks of the orders below `k`, by the length of each list.
pub open spec fn free_pages(lists: Seq<Seq<int>>, k: int) -> int
    decreases k,
{
    if k <= 0 {
        0
    } else {
        free_pages(lists, k - 1) + span(k - 1) * lists[k - 1].len()
    }
}

/// Pages in the blocks of the orders below `k`, by the size of each set.
pub open spec fn live_pages(live: Seq<Set<int>>, k: int) -> int
    decreases k,
{
    if k <= 0 {
        0
    } else {
        live_pages(live, k - 1) + span(k - 1) * live[k - 1].len()
    }
}

/// Blocks of the orders below `k`.
pub open spec fn live_blocks(live: Seq<Set<int>>, k: int) -> int
    decreases k,
{
    if k <= 0 {
        0
    } else {
        live_blocks(live, k - 1) + live[k - 1].len()
    }
}

/// What a buddy allocator manages, page by page.
#[verifier::ext_equal]
pub struct BuddyView {
    /// Address of page 0; zero until the first region is registered.
    pub base: int,
    /// Pages registered so far.
    pub total_pages: int,
    /// For each order, the first pages of its free blocks, in list order.
    pub lists: Seq<Seq<int>>,
    /// For each order, the first pages of the blocks that are handed out.
    pub live: Seq<Set<int>>,
    /// The counters.
    pub stats: AllocStats,
}

impl BuddyView {
    /// An allocator that manages nothing.
    pub open spec fn empty() -> BuddyView {
        BuddyView {
            base: 0,
            total_pages: 0,
            lists: Seq::new(BUDDY_MAX_ORDER as nat, |k: int| Seq::empty()),
            live: Seq::new(BUDDY_MAX_ORDER as nat, |k: int| Set::empty()),
            stats: AllocStats::zero(),
        }
    }

    /// Block `p` of order `k` is on a free list.
    pub open spec fn is_free(self, p: int, k: int) -> bool {
        0 <= k < BUDDY_MAX_ORDER && self.lists[k].contains(p)
    }

    /// Block `p` of order `k` is handed out.
    pub open spec fn is_live(self, p: int, k: int) -> bool {
        0 <= k < BUDDY_MAX_ORDER && self.live[k].contains(p)
    }

    /// Block `p` of order `k` is managed.
    pub open spec fn is_block(self, p: int, k: int) -> bool {
        self.is_free(p, k) || self.is_live(p, k)
    }

    /// Address of page `p`.
    pub open spec fn addr(self, p: int) -> int {
        self.base + p * PAGE_SIZE
    }

    /// Page of address `a`.
    pub open spec fn page(self, a: int) -> int {
        (a - self.base) / (PAGE_SIZE as int)
    }

    /// `a` lies in a free block.
    pub open spec fn in_free(self, a: int) -> bool {
        exists|p: int, k: int|
            #[trigger] self.is_free(p, k) && self.addr(p) <= a < self.addr(p + span(k))
    }

    /// None of the `n` pages from `at` on is managed.
    pub open spec fn unmanaged(self, at: int, n: int) -> bool {
        forall|p: int, k: int| #[trigger]
            self.is_block(p, k) ==> p + span(k) <= at || at + n <= p
    }

    /// Every block starts at a multiple of its size, has a bit in the bitmap of its order
    /// and shares no page with another; no block is listed twice or both free and live.
    pub open spec fn blocks_ok(self) -> bool {
        &&& self.lists.len() == BUDDY_MAX_ORDER
        &&& self.live.len() == BUDDY_MAX_ORDER
        &&& self.base >= 0
        &&& self.base % (PAGE_SIZE as int) == 0
        &&& forall|p: int, k: int| #[trigger]
            self.is_block(p, k) ==> {
                &&& self.base > 0
                &&& 0 <= p
                &&& p % span(k) == 0
                &&& pair_of(p, k) < BITMAP_BITS
            }
        &&& forall|p: int, k: int, q: int, j: int|
            #![trigger self.is_block(p, k), self.is_block(q, j)]
            self.is_block(p, k) && self.is_block(q, j) && !(p == q && k == j) ==> p + span(k) <= q
                || q + span(j) <= p
        &&& forall|p: int, k: int| #[trigger] self.is_free(p, k) ==> !self.is_live(p, k)
        &&& forall|k: int|
            0 <= k < BUDDY_MAX_ORDER ==> #[trigger] self.lists[k].no_duplicates()
        &&& forall|k: int| 0 <= k < BUDDY_MAX_ORDER ==> #[trigger] self.live[k].finite()
    }

    /// The counters agree with the blocks.
    pub open spec fn counted(self) -> bool {
        let free = free_pages(self.lists, BUDDY_MAX_ORDER as int);
        let used = live_pages(self.live, BUDDY_MAX_ORDER as int);
        &&& self.total_pages == free + used
        &&& self.stats.total_bytes == self.total_pages * PAGE_SIZE
        &&& self.stats.used_bytes == used * PAGE_SIZE
        &&& self.stats.free_bytes == free * PAGE_SIZE
        &&& self.stats.used_bytes <= self.stats.peak_bytes <= self.stats.total_bytes
        &&& self.stats.alloc_count == self.stats.dealloc_count + live_blocks(
            self.live,
            BUDDY_MAX_ORDER as int,
        )
    }

    /// The state of an allocator between two operations.
    pub open spec fn valid(self) -> bool {
        self.blocks_ok() && self.counted()
    }

    /// The address that page 0 gets when a region at `virt_base` is registered.
    pub open spec fn base_with(self, virt_base: int) -> int {
        if self.base == 0 {
            virt_base
        } else {
            self.base
        }
    }

    /// The allocator after the `n` pages at address `virt_base` were registered.
    pub open spec fn after_region(self, virt_base: int, n: int) -> BuddyView {
        let base = self.base_with(virt_base);
        let total = (self.total_pages + n) * PAGE_SIZE;
        BuddyView {
            base,
            total_pages: self.total_pages + n,
            lists: carved(self.lists, (virt_base - base) / (PAGE_SIZE as int), n),
            live: self.live,
            stats: AllocStats {
                total_bytes: total as u64,
                free_bytes: (total - self.stats.used_bytes) as u64,
                ..self.stats
            },
        }
    }

    /// None of the `n` pages at address `virt_base` is managed, and every block that they
    /// are carved into has a bit in the bitmap of its order.
    pub open spec fn region_free(self, virt_base: int, n: int) -> bool {
        let at = (virt_base - self.base_with(virt_base)) / (PAGE_SIZE as int);
        self.unmanaged(at, n) && carve_fits(at, n)
    }

    /// A block of order `k` or larger is free.
    pub open spec fn has_room(self, k: int) -> bool {
        fitting_order(self.lists, k) < BUDDY_MAX_ORDER
    }

    /// The first page of the block that the next allocation of order `k` is cut from.
    pub open spec fn next_page(self, k: int) -> int {
        self.lists[fitting_order(self.lists, k)][0]
    }

    /// An allocation of order `k` runs into no limit: the block that it hands out, if any,
    /// has a bit in the bitmap of its order, and the counter has room.
    pub open spec fn can_alloc(self, k: int) -> bool {
        self.has_room(k) ==> pair_of(self.next_page(k), k) < BITMAP_BITS && self.stats.alloc_count
            < u64::MAX
    }

    /// `a` is the address of a live block of order `k`.
    pub open spec fn handed_out(self, a: int, k: int) -> bool {
        &&& a >= self.base
        &&& (a - self.base) % (PAGE_SIZE as int) == 0
        &&& self.is_live(self.page(a), k)
    }

    /// The allocator after a block of order `k` was handed out.
    pub open spec fn after_alloc(self, k: int) -> BuddyView {
        let from = fitting_order(self.lists, k);
        let p = self.next_page(k);
        let bytes = span(k) * PAGE_SIZE;
        BuddyView {
            lists: split_down(self.lists.update(from, self.lists[from].remove(0)), p, from, k),
            live: self.live.update(k, self.live[k].insert(p)),
            stats: AllocStats {
                used_bytes: (self.stats.used_bytes + bytes) as u64,
                free_bytes: (self.stats.free_bytes - bytes) as u64,
                alloc_count: (self.stats.alloc_count + 1) as u64,
                peak_bytes: self.stats.peak_with(self.stats.used_bytes + bytes) as u64,
                ..self.stats
            },
            ..self
        }
    }

    /// The allocator after block `p` of order `k` was given back.
    pub open spec fn after_dealloc(self, p: int, k: int) -> BuddyView {
        let bytes = span(k) * PAGE_SIZE;
        BuddyView {
            lists: given_back(self.lists, p, k),
            live: self.live.update(k, self.live[k].remove(p)),
            stats: AllocStats {
                used_bytes: (self.stats.used_bytes - bytes) as u64,
                free_bytes: (self.stats.free_bytes + bytes) as u64,
                dealloc_count: (self.stats.dealloc_count + 1) as u64,
                ..self.stats
            },
            ..self
        }
    }
}

// ---------------------------------------------------------------------------
// Pages and pairs
// ---------------------------------------------------------------------------

/// A block is one of the two of its pair, and its buddy is the other one.
pub proof fn lemma_pair(p: int, k: int)
    requires
        0 <= k < BUDDY_MAX_ORDER,
        0 <= p,
        p % span(k) == 0,
    ensures
        0 <= pair_of(p, k),
        p % span(k + 1) == 0 ==> p == pair_of(p, k) * span(k + 1),
        p % span(k + 1) != 0 ==> p == pair_of(p, k) * span(k + 1) + span(k),
        0 <= buddy_of(p, k),
        buddy_of(p, k) % span(k) == 0,
        pair_of(buddy_of(p, k), k) == pair_of(p, k),
        buddy_of(buddy_of(p, k), k) == p,
        lower_of_pair(p, k) == pair_of(p, k) * span(k + 1),
        lower_of_pair(p, k) % span(k + 1) == 0,
        0 <= lower_of_pair(p, k),
{
    lemma_span(k);
    let m = span(k);
    let q = p / m;
    let i = p / (2 * m);
    assert(p == q * m) by (nonlinear_arith)
        requires
            q == p / m,
            p % m == 0,
            m > 0,
    ;
    let h = q / 2;
    let r = q % 2;
    assert(q == 2 * h + r);
    assert(p == h * (2 * m) + r * m) by (nonlinear_arith)
        requires
            p == q * m,
            q == 2 * h + r,
    ;
    assert(0 <= r * m < 2 * m && (r == 0 ==> r * m == 0) && (r == 1 ==> r * m == m))
        by (nonlinear_arith)
        requires
            0 <= r < 2,
            m > 0,
    ;
    vstd::arithmetic::div_mod::lemma_fundamental_div_mod_converse(p, 2 * m, h, r * m);
    assert(i == h && p % (2 * m) == r * m);
    assert(h >= 0) by (nonlinear_arith)
        requires
            h == p / (2 * m),
            p >= 0,
            m > 0,
    ;
    let b = buddy_of(p, k);
    let s = 1 - r;
    assert(b == h * (2 * m) + s * m) by (nonlinear_arith)
        requires
            p == h * (2 * m) + r * m,
            s == 1 - r,
            r == 0 ==> b == p + m,
            r == 1 ==> b == p - m,
            r == 0 || r == 1,
    ;
    assert(0 <= s * m < 2 * m && (s == 0 ==> s * m == 0) && (s == 1 ==> s * m == m))
        by (nonlinear_arith)
        requires
            0 <= s < 2,
            m > 0,
    ;
    vstd::arithmetic::div_mod::lemma_fundamental_div_mod_converse(b, 2 * m, h, s * m);
    let q2 = 2 * h + s;
    assert(b == q2 * m + 0) by (nonlinear_arith)
        requires
            b == h * (2 * m) + s * m,
            q2 == 2 * h + s,
    ;
    vstd::arithmetic::div_mod::lemma_fundamental_div_mod_converse(b, m, q2, 0);
    assert(b >= 0) by (nonlinear_arith)
        requires
            b == q2 * m + 0,
            q2 >= 0,
            m > 0,
    ;
    let l = lower_of_pair(p, k);
    assert(l == h * (2 * m));
    assert(l == h * (2 * m) + 0);
    vstd::arithmetic::div_mod::lemma_fundamental_div_mod_converse(l, 2 * m, h, 0);
    assert(l >= 0) by (nonlinear_arith)
        requires
            l == h * (2 * m),
            h >= 0,
            m > 0,
    ;
}

/// The two blocks of pair `i`, and no other block, have `i` as their pair.
pub proof fn lemma_pair_members(i: int, k: int)
    requires
        0 <= k < BUDDY_MAX_ORDER,
        0 <= i,
    ensures
        pair_of(i * span(k + 1), k) == i,
        pair_of(i * span(k + 1) + span(k), k) == i,
{
    lemma_span(k);
    let m = span(k);
    vstd::arithmetic::div_mod::lemma_fundamental_div_mod_converse(i * (2 * m), 2 * m, i, 0);
    vstd::arithmetic::div_mod::lemma_fundamental_div_mod_converse(i * (2 * m) + m, 2 * m, i, m);
}

/// The halves of an aligned block are aligned, and the upper half is the buddy of the
/// lower.
pub proof fn lemma_halves(p: int, k: int)
    requires
        0 <= k < BUDDY_MAX_ORDER,
        0 <= p,
        p % span(k + 1) == 0,
    ensures
        p % span(k) == 0,
        (p + span(k)) % span(k) == 0,
        pair_of(p + span(k), k) == pair_of(p, k),
        buddy_of(p, k) == p + span(k),
        buddy_of(p + span(k), k) == p,
{
    lemma_span(k);
    let m = span(k);
    let h = p / (2 * m);
    assert(p == (2 * h) * m + 0) by (nonlinear_arith)
        requires
            h == p / (2 * m),
            p % (2 * m) == 0,
            m > 0,
    ;
    vstd::arithmetic::div_mod::lemma_fundamental_div_mod_converse(p, m, 2 * h, 0);
    lemma_pair(p, k);
}

/// A block has no greater pair number at a larger order.
pub proof fn lemma_pair_monotone(p: int, k: int, j: int)
    requires
        0 <= k <= j < BUDDY_MAX_ORDER,
        0 <= p,
    ensures
        pair_of(p, j) <= pair_of(p, k),
    decreases j - k,
{
    if k < j {
        lemma_pair_monotone(p, k, j - 1);
        lemma_span(j - 1);
        lemma_span(j);
        let m = span(j);
        assert(p / (2 * m) <= p / m) by (nonlinear_arith)
            requires
                p >= 0,
                m >= 1,
        ;
    }
}

// ---------------------------------------------------------------------------
// Putting blocks on lists and taking them off
// ---------------------------------------------------------------------------

/// Taking a listed block off leaves the others, in order and without duplicates.
pub proof fn lemma_seq_remove(s: Seq<int>, p: int)
    requires
        s.no_duplicates(),
        s.contains(p),
    ensures
        0 <= s.index_of(p) < s.len(),
        s[s.index_of(p)] == p,
        s.remove(s.index_of(p)).no_duplicates(),
        s.remove(s.index_of(p)).len() == s.len() - 1,
        forall|q: int| #[trigger]
            s.remove(s.index_of(p)).contains(q) <==> s.contains(q) && q != p,
{
    let at = s.index_of(p);
    let r = s.remove(at);
    assert forall|q: int| #[trigger] r.contains(q) <==> s.contains(q) && q != p by {
        if r.contains(q) {
            let i = choose|i: int| 0 <= i < r.len() && r[i] == q;
            let j = if i < at {
                i
            } else {
                i + 1
            };
            assert(s[j] == q);
        }
        if s.contains(q) && q != p {
            let i = choose|i: int| 0 <= i < s.len() && s[i] == q;
            let j = if i < at {
                i
            } else {
                i - 1
            };
            assert(r[j] == q);
        }
    }
}

impl BuddyView {
    /// The same allocator with other free lists.
    pub open spec fn with_lists(self, lists: Seq<Seq<int>>) -> BuddyView {
        BuddyView { lists, ..self }
    }

    /// An unmanaged, aligned block can be put on the list of its order.
    pub proof fn lemma_inserted(self, p: int, k: int)
        requires
            self.blocks_ok(),
            self.base > 0,
            0 <= k < BUDDY_MAX_ORDER,
            0 <= p,
            p % span(k) == 0,
            pair_of(p, k) < BITMAP_BITS,
            self.unmanaged(p, span(k)),
        ensures
            self.with_lists(inserted(self.lists, p, k)).blocks_ok(),
            forall|q: int, j: int| #[trigger]
                self.with_lists(inserted(self.lists, p, k)).is_free(q, j) <==> self.is_free(q, j)
                    || (q == p && j == k),
            forall|q: int, j: int| #[trigger]
                self.with_lists(inserted(self.lists, p, k)).is_live(q, j) <==> self.is_live(q, j),
            !self.is_block(p, k),
    {
        let v = self.with_lists(inserted(self.lists, p, k));
        lemma_span(k);
        let l = seq![p] + self.lists[k];
        assert(!self.is_block(p, k));
        assert forall|q: int| #[trigger] l.contains(q) <==> self.lists[k].contains(q) || q == p by {
            if self.lists[k].contains(q) {
                let i = choose|i: int| 0 <= i < self.lists[k].len() && self.lists[k][i] == q;
                assert(l[i + 1] == q);
            }
            if q == p {
                assert(l[0] == p);
            }
        }
        assert(l.no_duplicates()) by {
            assert(!self.is_free(p, k));
            assert forall|i: int, j: int| 0 <= i < l.len() && 0 <= j < l.len() && i
                != j implies l[i] != l[j] by {
                assert(self.lists[k].no_duplicates());
                if i > 0 {
                    assert(self.lists[k][i - 1] == l[i]);
                    assert(self.lists[k].contains(l[i]));
                }
                if j > 0 {
                    assert(self.lists[k][j - 1] == l[j]);
                    assert(self.lists[k].contains(l[j]));
                }
            }
        }
        assert forall|q: int, j: int| #[trigger] v.is_free(q, j) <==> self.is_free(q, j) || (q == p
            && j == k) by {
            if 0 <= j < BUDDY_MAX_ORDER && j == k {
                assert(v.lists[j] == l);
            }
        }
        assert forall|q: int, j: int| #[trigger] v.is_block(q, j) implies self.is_block(q, j) || (q
            == p && j == k) by {
            assert(v.is_free(q, j) || v.is_live(q, j));
        }
        assert forall|j: int| 0 <= j < BUDDY_MAX_ORDER implies #[trigger] v.lists[j].no_duplicates()
            by {
            if j != k {
                assert(v.lists[j] == self.lists[j]);
                assert(self.lists[j].no_duplicates());
            }
        }
        assert forall|q: int, j: int, q2: int, j2: int|
            #![trigger v.is_block(q, j), v.is_block(q2, j2)]
            v.is_block(q, j) && v.is_block(q2, j2) && !(q == q2 && j == j2) implies q + span(j)
            <= q2 || q2 + span(j2) <= q by {
            if self.is_block(q, j) && self.is_block(q2, j2) {
            } else if self.is_block(q, j) {
            } else if self.is_block(q2, j2) {
            }
        }
    }

    /// A free block can be taken off its list; its pages are then unmanaged.
    pub proof fn lemma_removed(self, p: int, k: int)
        requires
            self.blocks_ok(),
            self.is_free(p, k),
        ensures
            self.with_lists(removed(self.lists, p, k)).blocks_ok(),
            forall|q: int, j: int| #[trigger]
                self.with_lists(removed(self.lists, p, k)).is_free(q, j) <==> self.is_free(q, j)
                    && !(q == p && j == k),
            forall|q: int, j: int| #[trigger]
                self.with_lists(removed(self.lists, p, k)).is_live(q, j) <==> self.is_live(q, j),
            self.with_lists(removed(self.lists, p, k)).unmanaged(p, span(k)),
    {
        let v = self.with_lists(removed(self.lists, p, k));
        assert(self.lists[k].no_duplicates());
        lemma_seq_remove(self.lists[k], p);
        assert forall|q: int, j: int| #[trigger] v.is_free(q, j) <==> self.is_free(q, j) && !(q == p
            && j == k) by {
            if 0 <= j < BUDDY_MAX_ORDER && j != k {
                assert(v.lists[j] == self.lists[j]);
            }
        }
        assert forall|q: int, j: int| #[trigger] v.is_block(q, j) implies self.is_block(q, j) by {
            assert(v.is_free(q, j) || v.is_live(q, j));
        }
        assert forall|j: int| 0 <= j < BUDDY_MAX_ORDER implies #[trigger] v.lists[j].no_duplicates()
            by {
            if j != k {
                assert(v.lists[j] == self.lists[j]);
                assert(self.lists[j].no_duplicates());
            }
        }
        assert forall|q: int, j: int| #[trigger] v.is_block(q, j) implies q + span(j) <= p || p
            + span(k) <= q by {
            assert(self.is_block(p, k));
            assert(self.is_block(q, j));
            assert(v.is_free(q, j) || v.is_live(q, j));
            assert(self.is_free(p, k) ==> !self.is_live(p, k));
        }
        assert forall|q: int, j: int, q2: int, j2: int|
            #![trigger v.is_block(q, j), v.is_block(q2, j2)]
            v.is_block(q, j) && v.is_block(q2, j2) && !(q == q2 && j == j2) implies q + span(j)
            <= q2 || q2 + span(j2) <= q by {
            assert(self.is_block(q, j) && self.is_block(q2, j2));
        }
    }

    /// An allocator that manages nothing has no pages on any list.
    pub proof fn lemma_empty_counts()
        ensures
            free_pages(Self::empty().lists, BUDDY_MAX_ORDER as int) == 0,
            live_pages(Self::empty().live, BUDDY_MAX_ORDER as int) == 0,
            live_blocks(Self::empty().live, BUDDY_MAX_ORDER as int) == 0,
    {
        lemma_none_free(Self::empty().lists, BUDDY_MAX_ORDER as int);
        lemma_none_live(Self::empty().live, BUDDY_MAX_ORDER as int);
    }
}

/// Empty lists hold no pages.
pub proof fn lemma_none_free(lists: Seq<Seq<int>>, n: int)
    requires
        forall|k: int| 0 <= k < n ==> (#[trigger] lists[k]).len() == 0,
    ensures
        free_pages(lists, n) == 0,
    decreases n,
{
    if n > 0 {
        lemma_none_free(lists, n - 1);
        assert(lists[n - 1].len() == 0);
        assert(span(n - 1) * 0 == 0);
    }
}

/// Empty sets hold no pages.
pub proof fn lemma_none_live(live: Seq<Set<int>>, n: int)
    requires
        forall|k: int| 0 <= k < n ==> (#[trigger] live[k]).len() == 0,
    ensures
        live_pages(live, n) == 0,
        live_blocks(live, n) == 0,
    decreases n,
{
    if n > 0 {
        lemma_none_live(live, n - 1);
        assert(live[n - 1].len() == 0);
        assert(span(n - 1) * 0 == 0);
    }
}

// ---------------------------------------------------------------------------
// Counting pages
// ---------------------------------------------------------------------------

/// Lists hold no fewer than zero pages.
pub proof fn lemma_free_nonneg(lists: Seq<Seq<int>>, n: int)
    requires
        n <= BUDDY_MAX_ORDER,
    ensures
        free_pages(lists, n) >= 0,
    decreases n,
{
    if n > 0 {
        lemma_free_nonneg(lists, n - 1);
        lemma_span(n - 1);
        let l = lists[n - 1].len();
        let m = span(n - 1);
        assert(m * l >= 0) by (nonlinear_arith)
            requires
                m >= 1,
                l >= 0,
        ;
    }
}

/// Sets hold no fewer than zero pages, and no fewer than any one block among them.
pub proof fn lemma_live_nonneg(live: Seq<Set<int>>, n: int)
    requires
        n <= BUDDY_MAX_ORDER,
    ensures
        live_pages(live, n) >= 0,
    decreases n,
{
    if n > 0 {
        lemma_live_nonneg(live, n - 1);
        lemma_span(n - 1);
        let l = live[n - 1].len();
        let m = span(n - 1);
        assert(m * l >= 0) by (nonlinear_arith)
            requires
                m >= 1,
                l >= 0,
        ;
    }
}

/// Replacing one list changes the count by the pages that the list gained or lost.
pub proof fn lemma_free_update(lists: Seq<Seq<int>>, k: int, s: Seq<int>, n: int)
    requires
        0 <= k < lists.len(),
        0 <= n <= lists.len(),
    ensures
        free_pages(lists.update(k, s), n) == free_pages(lists, n) + (if k < n {
            span(k) * (s.len() - lists[k].len())
        } else {
            0
        }),
    decreases n,
{
    if n > 0 {
        lemma_free_update(lists, k, s, n - 1);
        if n - 1 == k {
            let m = span(k);
            let a = s.len() as int;
            let b = lists[k].len() as int;
            assert(m * a == m * b + m * (a - b)) by (nonlinear_arith);
        }
    }
}

/// Replacing one set changes the count by the pages that the set gained or lost.
pub proof fn lemma_live_update(live: Seq<Set<int>>, k: int, s: Set<int>, n: int)
    requires
        0 <= k < live.len(),
        0 <= n <= live.len(),
    ensures
        live_pages(live.update(k, s), n) == live_pages(live, n) + (if k < n {
            span(k) * (s.len() - live[k].len())
        } else {
            0
        }),
    decreases n,
{
    if n > 0 {
        lemma_live_update(live, k, s, n - 1);
        if n - 1 == k {
            let m = span(k);
            let a = s.len() as int;
            let b = live[k].len() as int;
            assert(m * a == m * b + m * (a - b)) by (nonlinear_arith);
        }
    }
}

/// Replacing one set changes the number of blocks by those that the set gained or lost.
pub proof fn lemma_blocks_update(live: Seq<Set<int>>, k: int, s: Set<int>, n: int)
    requires
        0 <= k < live.len(),
        0 <= n <= live.len(),
    ensures
        live_blocks(live.update(k, s), n) == live_blocks(live, n) + (if k < n {
            s.len() - live[k].len()
        } else {
            0
        }),
    decreases n,
{
    if n > 0 {
        lemma_blocks_update(live, k, s, n - 1);
    }
}

/// There are no fewer than zero blocks.
pub proof fn lemma_blocks_nonneg(live: Seq<Set<int>>, n: int)
    ensures
        live_blocks(live, n) >= 0,
    decreases n,
{
    if n > 0 {
        lemma_blocks_nonneg(live, n - 1);
    }
}

/// A listed block adds its pages.
pub proof fn lemma_free_inserted(lists: Seq<Seq<int>>, p: int, k: int)
    requires
        lists.len() == BUDDY_MAX_ORDER,
        0 <= k < BUDDY_MAX_ORDER,
    ensures
        inserted(lists, p, k).len() == BUDDY_MAX_ORDER,
        free_pages(inserted(lists, p, k), BUDDY_MAX_ORDER as int) == free_pages(
            lists,
            BUDDY_MAX_ORDER as int,
        ) + span(k),
{
    lemma_free_update(lists, k, seq![p] + lists[k], BUDDY_MAX_ORDER as int);
    assert(span(k) * 1 == span(k));
}

/// A block taken off its list takes its pages with it.
pub proof fn lemma_free_removed(lists: Seq<Seq<int>>, p: int, k: int)
    requires
        lists.len() == BUDDY_MAX_ORDER,
        0 <= k < BUDDY_MAX_ORDER,
        lists[k].contains(p),
    ensures
        removed(lists, p, k).len() == BUDDY_MAX_ORDER,
        free_pages(removed(lists, p, k), BUDDY_MAX_ORDER as int) == free_pages(
            lists,
            BUDDY_MAX_ORDER as int,
        ) - span(k),
{
    let at = lists[k].index_of(p);
    lemma_free_update(lists, k, lists[k].remove(at), BUDDY_MAX_ORDER as int);
    assert(span(k) * (-1) == -span(k)) by (nonlinear_arith);
}

/// Splitting gives every page but those of the block that is kept back to the lists.
pub proof fn lemma_free_split(lists: Seq<Seq<int>>, p: int, from: int, to: int)
    requires
        lists.len() == BUDDY_MAX_ORDER,
        0 <= to <= from <= BUDDY_MAX_ORDER,
    ensures
        split_down(lists, p, from, to).len() == BUDDY_MAX_ORDER,
        free_pages(split_down(lists, p, from, to), BUDDY_MAX_ORDER as int) == free_pages(
            lists,
            BUDDY_MAX_ORDER as int,
        ) + span(from) - span(to),
    decreases from - to,
{
    if from > to {
        lemma_span(from - 1);
        lemma_free_inserted(lists, p + span(from - 1), from - 1);
        lemma_free_split(inserted(lists, p + span(from - 1), from - 1), p, from - 1, to);
    }
}

/// Giving a block back adds its pages, however far it merges.
pub proof fn lemma_free_given_back(lists: Seq<Seq<int>>, p: int, k: int)
    requires
        lists.len() == BUDDY_MAX_ORDER,
        0 <= k < BUDDY_MAX_ORDER,
    ensures
        given_back(lists, p, k).len() == BUDDY_MAX_ORDER,
        free_pages(given_back(lists, p, k), BUDDY_MAX_ORDER as int) == free_pages(
            lists,
            BUDDY_MAX_ORDER as int,
        ) + span(k),
    decreases BUDDY_MAX_ORDER - k,
{
    if k < BUDDY_MAX_ORDER - 1 && lists[k].contains(buddy_of(p, k)) {
        lemma_span(k);
        lemma_free_removed(lists, buddy_of(p, k), k);
        lemma_free_given_back(removed(lists, buddy_of(p, k), k), lower_of_pair(p, k), k + 1);
    } else {
        lemma_free_inserted(lists, p, k);
    }
}

/// Carving adds every page of the region.
pub proof fn lemma_free_carved(lists: Seq<Seq<int>>, at: int, n: int)
    requires
        lists.len() == BUDDY_MAX_ORDER,
        n >= 0,
    ensures
        carved(lists, at, n).len() == BUDDY_MAX_ORDER,
        free_pages(carved(lists, at, n), BUDDY_MAX_ORDER as int) == free_pages(
            lists,
            BUDDY_MAX_ORDER as int,
        ) + n,
    decreases n,
{
    if n > 0 {
        lemma_carve_order(at, n);
        let k = carve_order(at, n);
        lemma_free_inserted(lists, at, k);
        lemma_free_carved(inserted(lists, at, k), at + span(k), n - span(k));
    }
}

/// The least fitting order is in range, its list has a block, and smaller ones have none.
pub proof fn lemma_fitting_order(lists: Seq<Seq<int>>, k: int)
    requires
        0 <= k <= BUDDY_MAX_ORDER,
    ensures
        k <= fitting_order(lists, k) <= BUDDY_MAX_ORDER,
        fitting_order(lists, k) < BUDDY_MAX_ORDER ==> lists[fitting_order(lists, k)].len() > 0,
        forall|j: int| k <= j < fitting_order(lists, k) ==> (#[trigger] lists[j]).len() == 0,
    decreases BUDDY_MAX_ORDER - k,
{
    if k < BUDDY_MAX_ORDER && lists[k].len() == 0 {
        lemma_fitting_order(lists, k + 1);
    }
}

impl BuddyView {
    /// The same allocator with other live blocks.
    pub open spec fn with_live(self, live: Seq<Set<int>>) -> BuddyView {
        BuddyView { live, ..self }
    }

    /// An unmanaged, aligned block can be handed out.
    pub proof fn lemma_made_live(self, p: int, k: int)
        requires
            self.blocks_ok(),
            self.base > 0,
            0 <= k < BUDDY_MAX_ORDER,
            0 <= p,
            p % span(k) == 0,
            pair_of(p, k) < BITMAP_BITS,
            self.unmanaged(p, span(k)),
        ensures
            self.with_live(self.live.update(k, self.live[k].insert(p))).blocks_ok(),
            forall|q: int, j: int| #[trigger]
                self.with_live(self.live.update(k, self.live[k].insert(p))).is_free(q, j)
                    <==> self.is_free(q, j),
            forall|q: int, j: int| #[trigger]
                self.with_live(self.live.update(k, self.live[k].insert(p))).is_live(q, j)
                    <==> self.is_live(q, j) || (q == p && j == k),
            !self.is_block(p, k),
    {
        let v = self.with_live(self.live.update(k, self.live[k].insert(p)));
        lemma_span(k);
        assert(!self.is_block(p, k));
        assert forall|q: int, j: int| #[trigger] v.is_block(q, j) implies self.is_block(q, j) || (q
            == p && j == k) by {
            assert(v.is_free(q, j) || v.is_live(q, j));
        }
        assert forall|q: int, j: int, q2: int, j2: int|
            #![trigger v.is_block(q, j), v.is_block(q2, j2)]
            v.is_block(q, j) && v.is_block(q2, j2) && !(q == q2 && j == j2) implies q + span(j)
            <= q2 || q2 + span(j2) <= q by {
            if self.is_block(q, j) && self.is_block(q2, j2) {
            } else if self.is_block(q, j) {
            } else if self.is_block(q2, j2) {
            }
        }
        assert forall|j: int| 0 <= j < BUDDY_MAX_ORDER implies #[trigger] v.live[j].finite() by {
            assert(self.live[j].finite());
        }
        assert forall|q: int, j: int| #[trigger] v.is_free(q, j) implies !v.is_live(q, j) by {
            assert(self.is_free(q, j));
            assert(self.is_block(q, j));
        }
    }

    /// A live block can be taken back; its pages are then unmanaged.
    pub proof fn lemma_made_dead(self, p: int, k: int)
        requires
            self.blocks_ok(),
            self.is_live(p, k),
        ensures
            self.with_live(self.live.update(k, self.live[k].remove(p))).blocks_ok(),
            forall|q: int, j: int| #[trigger]
                self.with_live(self.live.update(k, self.live[k].remove(p))).is_free(q, j)
                    <==> self.is_free(q, j),
            forall|q: int, j: int| #[trigger]
                self.with_live(self.live.update(k, self.live[k].remove(p))).is_live(q, j)
                    <==> self.is_live(q, j) && !(q == p && j == k),
            self.with_live(self.live.update(k, self.live[k].remove(p))).unmanaged(p, span(k)),
    {
        let v = self.with_live(self.live.update(k, self.live[k].remove(p)));
        assert forall|q: int, j: int| #[trigger] v.is_block(q, j) implies self.is_block(q, j) by {
            assert(v.is_free(q, j) || v.is_live(q, j));
        }
        assert forall|j: int| 0 <= j < BUDDY_MAX_ORDER implies #[trigger] v.live[j].finite() by {
            assert(self.live[j].finite());
        }
        assert forall|q: int, j: int| #[trigger] v.is_block(q, j) implies q + span(j) <= p || p
            + span(k) <= q by {
            assert(self.is_block(p, k));
            assert(self.is_block(q, j));
            assert(v.is_free(q, j) || v.is_live(q, j));
            if q == p && j == k {
                assert(self.is_free(q, j));
            }
        }
        assert forall|q: int, j: int, q2: int, j2: int|
            #![trigger v.is_block(q, j), v.is_block(q2, j2)]
            v.is_block(q, j) && v.is_block(q2, j2) && !(q == q2 && j == j2) implies q + span(j)
            <= q2 || q2 + span(j2) <= q by {
            assert(self.is_block(q, j) && self.is_block(q2, j2));
        }
        assert forall|q: int, j: int| #[trigger] v.is_free(q, j) implies !v.is_live(q, j) by {
            assert(self.is_free(q, j));
        }
    }

    /// Taking the first block of a list off by position is taking it off by page.
    pub proof fn lemma_first_removed(self, k: int)
        requires
            self.blocks_ok(),
            0 <= k < BUDDY_MAX_ORDER,
            self.lists[k].len() > 0,
        ensures
            self.lists.update(k, self.lists[k].remove(0)) == removed(
                self.lists,
                self.lists[k][0],
                k,
            ),
            self.is_free(self.lists[k][0], k),
    {
        let s = self.lists[k];
        assert(s.no_duplicates());
        assert(s.contains(s[0]));
        lemma_seq_remove(s, s[0]);
        assert(s.index_of(s[0]) == 0);
    }

    /// Allocating keeps the counters right.
    pub proof fn lemma_alloc_counted(self, k: int)
        requires
            self.valid(),
            0 <= k < BUDDY_MAX_ORDER,
            self.has_room(k),
            !self.live[k].contains(self.next_page(k)),
        ensures
            self.stats.alloc_count < u64::MAX ==> self.after_alloc(k).counted(),
            self.stats.used_bytes + span(k) * PAGE_SIZE <= u64::MAX,
            span(k) * PAGE_SIZE <= self.stats.free_bytes,
    {
        let n = BUDDY_MAX_ORDER as int;
        let from = fitting_order(self.lists, k);
        let p = self.next_page(k);
        lemma_fitting_order(self.lists, k);
        self.lemma_first_removed(from);
        lemma_free_removed(self.lists, p, from);
        lemma_free_split(removed(self.lists, p, from), p, from, k);
        lemma_free_nonneg(self.after_alloc(k).lists, n);
        lemma_span(k);
        assert(self.live[k].finite());
        lemma_live_update(self.live, k, self.live[k].insert(p), n);
        lemma_blocks_update(self.live, k, self.live[k].insert(p), n);
        assert(span(k) * 1 == span(k));
        lemma_live_nonneg(self.live, n);
    }

    /// Deallocating keeps the counters right.
    pub proof fn lemma_dealloc_counted(self, p: int, k: int)
        requires
            self.valid(),
            self.is_live(p, k),
        ensures
            self.after_dealloc(p, k).counted(),
            span(k) * PAGE_SIZE <= self.stats.used_bytes,
            self.stats.free_bytes + span(k) * PAGE_SIZE <= u64::MAX,
            self.stats.dealloc_count < self.stats.alloc_count,
    {
        let n = BUDDY_MAX_ORDER as int;
        lemma_span(k);
        lemma_free_given_back(self.lists, p, k);
        assert(self.live[k].finite());
        lemma_live_update(self.live, k, self.live[k].remove(p), n);
        lemma_blocks_update(self.live, k, self.live[k].remove(p), n);
        lemma_blocks_nonneg(self.after_dealloc(p, k).live, n);
        assert(span(k) * (-1) == -span(k)) by (nonlinear_arith);
        lemma_live_nonneg(self.after_dealloc(p, k).live, n);
        lemma_free_nonneg(self.lists, n);
    }

    /// Registering a region keeps the counters right.
    pub proof fn lemma_region_counted(self, virt_base: int, n: int)
        requires
            self.valid(),
            n >= 0,
            (self.total_pages + n) * PAGE_SIZE <= u64::MAX,
        ensures
            self.after_region(virt_base, n).counted(),
            self.stats.used_bytes <= (self.total_pages + n) * PAGE_SIZE,
    {
        let base = self.base_with(virt_base);
        lemma_free_carved(self.lists, (virt_base - base) / (PAGE_SIZE as int), n);
        lemma_live_nonneg(self.live, BUDDY_MAX_ORDER as int);
        lemma_free_nonneg(self.lists, BUDDY_MAX_ORDER as int);
    }
}

} // verus!
