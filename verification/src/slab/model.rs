//! The state of a slab cache, slot by slot, and what each operation makes of it.

use crate::buddy::model::{lemma_live_nonneg, lemma_span, live_pages, span, BuddyView};
use crate::framework::{AllocStats, BUDDY_MAX_ORDER, PAGE_SIZE};
use crate::memory::Memory;
use vstd::prelude::*;

verus! {

/// Bytes of the header behind the slots of a slab.
pub const SLAB_HEADER: u64 = 24;

/// Ends a chain of free slots.
pub const NO_SLOT: u16 = 0xffff;

/// The slot at position `i` of a chain, or [`NO_SLOT`] behind its end.
pub open spec fn chain_at(chain: Seq<u16>, i: int) -> u16 {
    if 0 <= i < chain.len() {
        chain[i]
    } else {
        NO_SLOT
    }
}

/// Free slots of all slabs.
pub open spec fn free_slots(slabs: Map<u64, Seq<u16>>) -> int
    decreases slabs.dom().len(),
{
    if slabs.dom().finite() && slabs.dom().len() > 0 {
        let b = slabs.dom().choose();
        slabs[b].len() + free_slots(slabs.remove(b))
    } else {
        0
    }
}

/// The free slots are those of one slab and those of the others.
pub proof fn lemma_free_slots(slabs: Map<u64, Seq<u16>>, b: u64)
    requires
        slabs.dom().finite(),
        slabs.dom().contains(b),
    ensures
        free_slots(slabs) == slabs[b].len() + free_slots(slabs.remove(b)),
        slabs.dom().len() == slabs.remove(b).dom().len() + 1,
    decreases slabs.dom().len(),
{
    let c = slabs.dom().choose();
    assert(slabs.dom().contains(c));
    assert(slabs.remove(b).dom() =~= slabs.dom().remove(b));
    assert(slabs.remove(c).dom() =~= slabs.dom().remove(c));
    if b != c {
        let rest = slabs.remove(c);
        lemma_free_slots(rest, b);
        let other = slabs.remove(b);
        lemma_free_slots(other, c);
        assert(rest.remove(b) =~= other.remove(c));
    }
}

/// Slabs with at most `cap` free slots each have at most so many times their number.
pub proof fn lemma_free_slots_bound(slabs: Map<u64, Seq<u16>>, cap: int)
    requires
        slabs.dom().finite(),
        forall|b: u64| #[trigger] slabs.dom().contains(b) ==> slabs[b].len() <= cap,
        cap >= 0,
    ensures
        0 <= free_slots(slabs) <= cap * slabs.dom().len(),
    decreases slabs.dom().len(),
{
    let n = slabs.dom().len() as int;
    if n > 0 {
        let b = slabs.dom().choose();
        assert(slabs.dom().contains(b));
        let rest = slabs.remove(b);
        assert(rest.dom() =~= slabs.dom().remove(b));
        lemma_free_slots_bound(rest, cap);
        assert(cap * n == cap * (n - 1) + cap) by (nonlinear_arith);
    } else {
        assert(cap * 0 == 0);
    }
}

/// What a slab cache holds.
#[verifier::ext_equal]
pub struct SlabView {
    /// Bytes of an object.
    pub size: int,
    /// Slots of a slab.
    pub cap: int,
    /// Order of the page block that makes a slab.
    pub order: int,
    /// The slabs by their address, each with its free slots in chain order.
    pub slabs: Map<u64, Seq<u16>>,
    /// The slabs with a free slot, in list order.
    pub partial: Seq<u64>,
    /// The counters.
    pub stats: AllocStats,
}

impl SlabView {
    /// Bytes of a slab.
    pub open spec fn bytes(self) -> int {
        span(self.order) * PAGE_SIZE
    }

    /// A slab lies at `b`.
    pub open spec fn is_slab(self, b: u64) -> bool {
        self.slabs.dom().contains(b)
    }

    /// Address of the header of the slab at `b`.
    pub open spec fn header(self, b: u64) -> int {
        b + self.cap * self.size
    }

    /// Address of slot `i` of the slab at `b`.
    pub open spec fn slot(self, b: u64, i: int) -> int {
        b + i * self.size
    }

    /// Slot `i` of the slab at `b` is handed out.
    pub open spec fn is_live(self, b: u64, i: int) -> bool {
        self.is_slab(b) && 0 <= i < self.cap && !self.slabs[b].contains(i as u16)
    }

    /// The slab of address `a`, if its page block is aligned to its own size.
    pub open spec fn slab_of(self, a: int) -> u64 {
        (a / self.bytes() * self.bytes()) as u64
    }

    /// The slot of address `a`.
    pub open spec fn slot_of(self, a: int) -> int {
        (a - self.slab_of(a)) / self.size
    }

    /// `a` is the address of a slot that is handed out.
    pub open spec fn handed_out(self, a: int) -> bool {
        &&& a >= 0
        &&& self.is_live(self.slab_of(a), self.slot_of(a))
        &&& a == self.slot(self.slab_of(a), self.slot_of(a))
    }

    /// `x` is a byte of the object in slot `i` of the slab at `b`.
    pub open spec fn in_slot(self, b: u64, i: int, x: int) -> bool {
        self.slot(b, i) <= x < self.slot(b, i) + self.size
    }

    /// `x` lies in the slab at `b`.
    pub open spec fn in_slab(self, b: u64, x: int) -> bool {
        b <= x < b + self.bytes()
    }

    /// The slots and the header fit in a slab, and slots can be numbered and chained.
    pub open spec fn sized(self) -> bool {
        &&& 0 <= self.order < BUDDY_MAX_ORDER
        &&& 2 <= self.size
        &&& 1 <= self.cap <= NO_SLOT
        &&& self.cap * self.size + SLAB_HEADER <= self.bytes()
    }

    /// The chain of the slab at `b` holds slots of the slab, none twice.
    pub open spec fn chain_ok(self, b: u64) -> bool {
        let chain = self.slabs[b];
        &&& chain.len() <= self.cap
        &&& chain.no_duplicates()
        &&& forall|i: int| 0 <= i < chain.len() ==> #[trigger] chain[i] < self.cap
    }

    /// Chains and the list of slabs with a free slot are in order.
    pub open spec fn chained(self) -> bool {
        &&& self.slabs.dom().finite()
        &&& forall|b: u64| #[trigger] self.is_slab(b) ==> self.chain_ok(b)
        &&& self.partial.no_duplicates()
        &&& forall|b: u64| #[trigger]
            self.partial.contains(b) <==> self.is_slab(b) && self.slabs[b].len() > 0
    }

    /// The counters agree with the slabs.
    pub open spec fn counted(self) -> bool {
        let n = self.slabs.dom().len() as int;
        let free = free_slots(self.slabs);
        &&& self.stats.total_bytes == n * self.bytes()
        &&& self.stats.free_bytes == free * self.size
        &&& self.stats.used_bytes == (self.cap * n - free) * self.size
        &&& self.stats.used_bytes <= self.stats.peak_bytes
    }

    /// No slab without a live object is kept.
    pub open spec fn none_empty(self) -> bool {
        forall|b: u64| #[trigger] self.is_slab(b) ==> self.slabs[b].len() < self.cap
    }

    /// Every slab is a block that `buddy` handed out, aligned to its own size.
    pub open spec fn placed(self, buddy: BuddyView) -> bool {
        forall|b: u64| #[trigger]
            self.is_slab(b) ==> {
                &&& b > 0
                &&& b as int % self.bytes() == 0
                &&& buddy.handed_out(b as int, self.order)
            }
    }

    /// The state of a cache between two operations.
    pub open spec fn valid(self) -> bool {
        self.sized() && self.chained() && self.counted() && self.none_empty()
    }

    /// A cache of objects of `size` bytes, `cap` to a slab, without a slab.
    pub open spec fn empty(size: int, cap: int, order: int) -> SlabView {
        SlabView {
            size,
            cap,
            order,
            slabs: Map::empty(),
            partial: Seq::empty(),
            stats: AllocStats::zero(),
        }
    }

    /// The chain of a fresh slab: all its slots in order.
    pub open spec fn fresh(self) -> Seq<u16> {
        Seq::new(self.cap as nat, |i: int| i as u16)
    }

    /// The cache with a fresh slab at `b`.
    pub open spec fn grown(self, b: u64) -> SlabView {
        SlabView {
            slabs: self.slabs.insert(b, self.fresh()),
            partial: seq![b] + self.partial,
            stats: AllocStats {
                total_bytes: (self.stats.total_bytes + self.bytes()) as u64,
                free_bytes: (self.stats.free_bytes + self.cap * self.size) as u64,
                ..self.stats
            },
            ..self
        }
    }

    /// The slot that the next allocation takes from the first slab with a free one.
    pub open spec fn next_slot(self) -> u16 {
        self.slabs[self.partial[0]][0]
    }

    /// The cache with that slot handed out.
    pub open spec fn popped(self) -> SlabView {
        let b = self.partial[0];
        let chain = self.slabs[b].remove(0);
        let used = self.stats.used_bytes + self.size;
        SlabView {
            slabs: self.slabs.insert(b, chain),
            partial: if chain.len() == 0 {
                self.partial.remove(0)
            } else {
                self.partial
            },
            stats: AllocStats {
                used_bytes: used as u64,
                free_bytes: (self.stats.free_bytes - self.size) as u64,
                alloc_count: (self.stats.alloc_count + 1) as u64,
                peak_bytes: self.stats.peak_with(used) as u64,
                ..self.stats
            },
            ..self
        }
    }

    /// An allocation takes a new slab.
    pub open spec fn grows(self) -> bool {
        self.partial.len() == 0
    }

    /// An allocation succeeds where a slot is free or the buddy allocator has a block.
    pub open spec fn has_room(self, buddy: BuddyView) -> bool {
        !self.grows() || buddy.has_room(self.order)
    }

    /// An allocation runs into no limit: the counter has room, and where a fresh slab is
    /// needed, `buddy` can be asked for one and its base is aligned to slabs.
    pub open spec fn can_alloc(self, buddy: BuddyView) -> bool {
        &&& self.stats.alloc_count < u64::MAX
        &&& self.grows() ==> buddy.can_alloc(self.order) && buddy.base % self.bytes() == 0
    }

    /// The slab that an allocation takes its slot from.
    pub open spec fn source(self, buddy: BuddyView) -> u64 {
        if self.grows() {
            buddy.addr(buddy.next_page(self.order)) as u64
        } else {
            self.partial[0]
        }
    }

    /// The cache before the slot is taken.
    pub open spec fn readied(self, buddy: BuddyView) -> SlabView {
        if self.grows() {
            self.grown(self.source(buddy))
        } else {
            self
        }
    }

    /// The cache after an allocation that succeeds.
    pub open spec fn after_alloc(self, buddy: BuddyView) -> SlabView {
        self.readied(buddy).popped()
    }

    /// The buddy allocator after an allocation that succeeds.
    pub open spec fn buddy_after_alloc(self, buddy: BuddyView) -> BuddyView {
        if self.grows() {
            buddy.after_alloc(self.order)
        } else {
            buddy
        }
    }

    /// The address that an allocation gives.
    pub open spec fn next_addr(self, buddy: BuddyView) -> int {
        let v = self.readied(buddy);
        v.slot(v.partial[0], v.next_slot() as int)
    }

    /// Giving back one object leaves the slab at `b` without any.
    pub open spec fn empties(self, b: u64) -> bool {
        self.slabs[b].len() + 1 == self.cap
    }

    /// The list of slabs with a free slot, without the one at `b`.
    pub open spec fn partial_without(self, b: u64) -> Seq<u64> {
        if self.partial.contains(b) {
            self.partial.remove(self.partial.index_of(b))
        } else {
            self.partial
        }
    }

    /// The cache after slot `i` of the slab at `b` was given back: the slot heads the chain
    /// of its slab, and a slab left without an object is gone.
    pub open spec fn after_dealloc(self, b: u64, i: int) -> SlabView {
        let chain = seq![i as u16] + self.slabs[b];
        let gone = self.empties(b);
        SlabView {
            slabs: if gone {
                self.slabs.remove(b)
            } else {
                self.slabs.insert(b, chain)
            },
            partial: if gone {
                self.partial_without(b)
            } else if self.slabs[b].len() == 0 {
                seq![b] + self.partial
            } else {
                self.partial
            },
            stats: AllocStats {
                total_bytes: (self.stats.total_bytes - (if gone {
                    self.bytes()
                } else {
                    0
                })) as u64,
                used_bytes: (self.stats.used_bytes - self.size) as u64,
                free_bytes: (self.stats.free_bytes + self.size - (if gone {
                    self.cap * self.size
                } else {
                    0
                })) as u64,
                dealloc_count: (self.stats.dealloc_count + 1) as u64,
                ..self.stats
            },
            ..self
        }
    }

    /// The buddy allocator after an object of the slab at `b` was given back.
    pub open spec fn buddy_after_dealloc(self, buddy: BuddyView, b: u64) -> BuddyView {
        if self.empties(b) {
            buddy.after_dealloc(buddy.page(b as int), self.order)
        } else {
            buddy
        }
    }

    /// The header and the chained slots of the slab at `b` say what is known of it.
    pub open spec fn slab_ok(self, mem: &Memory, b: u64) -> bool {
        let chain = self.slabs[b];
        let h = self.header(b);
        &&& mem.half(h) == chain_at(chain, 0)
        &&& mem.half(h + 2) == self.cap - chain.len()
        &&& mem.half(h + 4) == self.cap
        &&& forall|i: int|
            0 <= i < chain.len() ==> #[trigger] self.slot_ok(mem, b, i)
    }

    /// The slot at position `i` of a chain holds the number of the next one.
    pub open spec fn slot_ok(self, mem: &Memory, b: u64, i: int) -> bool {
        mem.half(self.slot(b, self.slabs[b][i] as int)) == chain_at(self.slabs[b], i + 1)
    }

    /// `x` is a byte that the cache keeps its own records in: of a header, or of the number
    /// in a free slot.
    pub open spec fn in_records(self, x: int) -> bool {
        exists|b: u64|
            #[trigger] self.is_slab(b) && (self.header(b) <= x < self.header(b) + SLAB_HEADER
                || self.in_chain(b, x))
    }

    /// `x` is a byte of the number in a free slot of the slab at `b`.
    pub open spec fn in_chain(self, b: u64, x: int) -> bool {
        exists|i: int|
            0 <= i < self.slabs[b].len() && self.slot(b, #[trigger] self.slabs[b][i] as int) <= x
                < self.slot(b, self.slabs[b][i] as int) + 2
    }
}

/// Different slots of a slab share no byte, nor does a slot reach into the header.
pub proof fn lemma_slots_apart(v: SlabView, b: u64, i: int, j: int)
    requires
        v.sized(),
        0 <= i < v.cap,
        0 <= j <= v.cap,
        i < j,
    ensures
        v.slot(b, i) + v.size <= v.slot(b, j),
        v.slot(b, v.cap) == v.header(b),
        b <= v.slot(b, i),
        v.slot(b, i) + v.size <= v.header(b),
        v.header(b) + SLAB_HEADER <= b + v.bytes(),
{
    let s = v.size;
    let cap = v.cap;
    assert(i * s + s <= j * s) by (nonlinear_arith)
        requires
            i + 1 <= j,
            s >= 0,
    ;
    assert(0 <= i * s && i * s + s <= cap * s) by (nonlinear_arith)
        requires
            0 <= i,
            i + 1 <= cap,
            s >= 0,
    ;
}

/// The slabs take no more bytes than the buddy allocator handed out.
pub proof fn lemma_total_bounded(v: SlabView, buddy: BuddyView)
    requires
        v.sized(),
        v.chained(),
        v.placed(buddy),
        buddy.valid(),
    ensures
        v.slabs.dom().len() * v.bytes() <= buddy.stats.used_bytes,
{
    let k = v.order;
    let dom = v.slabs.dom();
    let f = |b: u64| buddy.page(b as int);
    let pages = dom.map(f);
    assert(vstd::relations::injective_on(f, dom)) by {
        assert forall|x: u64, y: u64|
            dom.contains(x) && dom.contains(y) && #[trigger] f(x) == #[trigger] f(y) implies x
            == y by {
            assert(v.is_slab(x) && v.is_slab(y));
        }
    }
    vstd::set_lib::lemma_map_size(dom, pages, f);
    assert(pages.subset_of(buddy.live[k])) by {
        assert forall|p: int| #[trigger] pages.contains(p) implies buddy.live[k].contains(p) by {
            let b = choose|b: u64| dom.contains(b) && f(b) == p;
            assert(v.is_slab(b));
        }
    }
    assert(buddy.live[k].finite());
    vstd::set_lib::lemma_len_subset(pages, buddy.live[k]);
    lemma_live_at_least(buddy.live, k, BUDDY_MAX_ORDER as int);
    let n = dom.len() as int;
    let m = span(k);
    let l = buddy.live[k].len() as int;
    assert(m * n <= m * l) by (nonlinear_arith)
        requires
            n <= l,
            m >= 1,
    {
    }
    assert(n * (m * 4096) == (m * n) * 4096) by (nonlinear_arith);
}

/// All live blocks take at least the pages of those of one order.
proof fn lemma_live_at_least(live: Seq<Set<int>>, k: int, n: int)
    requires
        0 <= k < n <= BUDDY_MAX_ORDER,
        live.len() == BUDDY_MAX_ORDER,
    ensures
        span(k) * live[k].len() <= live_pages(live, n),
        span(k) >= 1,
    decreases n,
{
    lemma_span(k);
    if n - 1 == k {
        lemma_live_nonneg(live, n - 1);
    } else {
        lemma_live_at_least(live, k, n - 1);
        lemma_span(n - 1);
        let m = span(n - 1);
        let l = live[n - 1].len() as int;
        assert(m * l >= 0) by (nonlinear_arith)
            requires
                m >= 1,
                l >= 0,
        ;
    }
}

/// Slots and headers of so many slabs fit in their bytes.
proof fn lemma_slab_bytes(v: SlabView, n: int)
    requires
        v.sized(),
        n >= 0,
    ensures
        0 <= v.cap * n * v.size <= n * v.bytes(),
        (v.cap * n) * v.size == (v.cap * v.size) * n,
{
    let c = v.cap;
    let s = v.size;
    let b = v.bytes();
    assert((c * n) * s == (c * s) * n) by (nonlinear_arith);
    assert(0 <= c * s) by (nonlinear_arith)
        requires
            c >= 1,
            s >= 2,
    ;
    let cs = c * s;
    assert(0 <= cs * n <= n * b) by (nonlinear_arith)
        requires
            0 <= cs <= b,
            n >= 0,
    ;
}

/// A chain of fresh slots is in order.
proof fn lemma_fresh(v: SlabView)
    requires
        v.sized(),
    ensures
        v.fresh().len() == v.cap,
        v.fresh().no_duplicates(),
        forall|i: int| 0 <= i < v.cap ==> #[trigger] v.fresh()[i] == i,
{
}

/// Adding a fresh slab keeps chains, list and counters right.
pub proof fn lemma_grown(v: SlabView, b: u64)
    requires
        v.sized(),
        v.chained(),
        !v.is_slab(b),
    ensures
        v.grown(b).chained(),
        v.grown(b).slabs.dom().len() == v.slabs.dom().len() + 1,
        forall|c: u64| #[trigger] v.grown(b).is_slab(c) <==> v.is_slab(c) || c == b,
        !v.partial.contains(b),
        v.counted() && (v.slabs.dom().len() + 1) * v.bytes() <= u64::MAX ==> {
            &&& v.grown(b).counted()
            &&& v.stats.total_bytes + v.bytes() <= u64::MAX
            &&& v.stats.free_bytes + v.cap * v.size <= u64::MAX
        },
{
    let w = v.grown(b);
    let n = v.slabs.dom().len() as int;
    lemma_fresh(v);
    assert(w.slabs.dom() =~= v.slabs.dom().insert(b));
    assert(w.slabs.remove(b) =~= v.slabs);
    lemma_free_slots(w.slabs, b);
    assert forall|c: u64| #[trigger] w.is_slab(c) implies w.chain_ok(c) by {
        if c != b {
            assert(v.is_slab(c));
            assert(v.chain_ok(c));
        } else {
            let chain = w.slabs[b];
            assert forall|i: int| 0 <= i < chain.len() implies #[trigger] chain[i] < w.cap by {}
        }
    }
    assert(!v.partial.contains(b));
    assert forall|c: u64| #[trigger] w.partial.contains(c) <==> w.is_slab(c) && w.slabs[c].len()
        > 0 by {
        if v.partial.contains(c) {
            let i = choose|i: int| 0 <= i < v.partial.len() && v.partial[i] == c;
            assert(w.partial[i + 1] == c);
        }
        assert(w.partial[0] == b);
        if w.partial.contains(c) && c != b {
            let i = choose|i: int| 0 <= i < w.partial.len() && w.partial[i] == c;
            assert(v.partial[i - 1] == c);
        }
    }
    assert forall|i: int, j: int|
        0 <= i < w.partial.len() && 0 <= j < w.partial.len() && i != j implies w.partial[i]
        != w.partial[j] by {
        if i > 0 {
            assert(v.partial[i - 1] == w.partial[i]);
        }
        if j > 0 {
            assert(v.partial[j - 1] == w.partial[j]);
        }
    }
    if v.counted() && (n + 1) * v.bytes() <= u64::MAX {
        let f = free_slots(v.slabs);
        assert forall|c: u64| #[trigger] v.slabs.dom().contains(c) implies v.slabs[c].len()
            <= v.cap by {
            assert(v.is_slab(c));
        }
        lemma_free_slots_bound(v.slabs, v.cap);
        lemma_slab_bytes(v, n);
        lemma_slab_bytes(v, n + 1);
        let c = v.cap;
        let s = v.size;
        let bytes = v.bytes();
        assert((n + 1) * bytes == n * bytes + bytes) by (nonlinear_arith);
        assert((f + c) * s == f * s + c * s) by (nonlinear_arith);
        assert(c * (n + 1) == c * n + c) by (nonlinear_arith);
        assert(c * (n + 1) - (f + c) == c * n - f);
        assert((f + c) * s <= (c * (n + 1)) * s) by (nonlinear_arith)
            requires
                f + c <= c * (n + 1),
                s >= 2,
        ;
    }
}

/// Handing out a slot keeps chains, list and counters right.
pub proof fn lemma_popped(v: SlabView)
    requires
        v.sized(),
        v.chained(),
        v.counted(),
        v.partial.len() > 0,
    ensures
        v.is_slab(v.partial[0]),
        v.slabs[v.partial[0]].len() > 0,
        v.popped().chained(),
        v.popped().counted(),
        v.stats.used_bytes + v.size <= u64::MAX,
        v.size <= v.stats.free_bytes,
        forall|c: u64| #[trigger] v.popped().is_slab(c) <==> v.is_slab(c),
{
    let b = v.partial[0];
    assert(v.partial.contains(b));
    assert(v.chain_ok(b));
    let w = v.popped();
    let n = v.slabs.dom().len() as int;
    let chain = v.slabs[b];
    let rest = chain.remove(0);
    assert(w.slabs.dom() =~= v.slabs.dom());
    assert(w.slabs.remove(b) =~= v.slabs.remove(b));
    lemma_free_slots(v.slabs, b);
    lemma_free_slots(w.slabs, b);
    assert forall|c: u64| #[trigger] w.is_slab(c) implies w.chain_ok(c) by {
        assert(v.is_slab(c));
        assert(v.chain_ok(c));
        if c == b {
            assert forall|i: int| 0 <= i < rest.len() implies #[trigger] rest[i] < w.cap by {
                assert(rest[i] == chain[i + 1]);
            }
        }
    }
    if rest.len() == 0 {
        lemma_partial_removed(v.partial, 0);
    }
    assert forall|c: u64| #[trigger] w.partial.contains(c) <==> w.is_slab(c) && w.slabs[c].len()
        > 0 by {
        assert(v.partial.contains(c) <==> v.is_slab(c) && v.slabs[c].len() > 0);
    }
    let f = free_slots(v.slabs);
    let cap = v.cap;
    let s = v.size;
    assert forall|c: u64| #[trigger] w.slabs.dom().contains(c) implies w.slabs[c].len() <= v.cap by {
        assert(w.is_slab(c));
        assert(w.chain_ok(c));
    }
    lemma_free_slots_bound(w.slabs, cap);
    lemma_slab_bytes(v, n);
    assert((f - 1) * s == f * s - s) by (nonlinear_arith);
    assert((cap * n - (f - 1)) * s == (cap * n - f) * s + s) by (nonlinear_arith);
    assert((f - 1) * s >= 0) by (nonlinear_arith)
        requires
            f - 1 >= 0,
            s >= 2,
    ;
    assert((cap * n - (f - 1)) * s <= (cap * n) * s) by (nonlinear_arith)
        requires
            f - 1 >= 0,
            s >= 2,
    ;
}

/// Taking one element out of a list without duplicates leaves the others.
pub proof fn lemma_partial_removed(l: Seq<u64>, at: int)
    requires
        l.no_duplicates(),
        0 <= at < l.len(),
    ensures
        l.remove(at).no_duplicates(),
        forall|c: u64| #[trigger] l.remove(at).contains(c) <==> l.contains(c) && c != l[at],
{
    let r = l.remove(at);
    assert forall|c: u64| #[trigger] r.contains(c) <==> l.contains(c) && c != l[at] by {
        if r.contains(c) {
            let i = choose|i: int| 0 <= i < r.len() && r[i] == c;
            let k = if i < at {
                i
            } else {
                i + 1
            };
            assert(l[k] == c);
        }
        if l.contains(c) && c != l[at] {
            let i = choose|i: int| 0 <= i < l.len() && l[i] == c;
            let k = if i < at {
                i
            } else {
                i - 1
            };
            assert(r[k] == c);
        }
    }
}

/// Giving an object back keeps the cache valid.
pub proof fn lemma_returned(v: SlabView, b: u64, i: int)
    requires
        v.valid(),
        v.is_live(b, i),
    ensures
        v.after_dealloc(b, i).valid(),
        v.size <= v.stats.used_bytes,
        v.stats.free_bytes + v.size <= u64::MAX,
        v.empties(b) ==> v.bytes() <= v.stats.total_bytes && v.cap * v.size <= v.stats.free_bytes
            + v.size,
        forall|c: u64| #[trigger]
            v.after_dealloc(b, i).is_slab(c) <==> v.is_slab(c) && !(c == b && v.empties(b)),
{
    let w = v.after_dealloc(b, i);
    let chain = v.slabs[b];
    let longer = seq![i as u16] + chain;
    let n = v.slabs.dom().len() as int;
    let f = free_slots(v.slabs);
    let cap = v.cap;
    let s = v.size;
    let bytes = v.bytes();
    assert(v.chain_ok(b));
    lemma_free_slots(v.slabs, b);
    let others = v.slabs.remove(b);
    assert(others.dom() =~= v.slabs.dom().remove(b));
    assert forall|c: u64| #[trigger] others.dom().contains(c) implies others[c].len() <= cap by {
        assert(v.is_slab(c));
    }
    lemma_free_slots_bound(others, cap);
    assert(cap * n == cap * (n - 1) + cap) by (nonlinear_arith);
    lemma_slab_bytes(v, n);
    assert(n * bytes == (n - 1) * bytes + bytes) by (nonlinear_arith);
    assert((n - 1) * bytes >= 0) by (nonlinear_arith)
        requires
            n >= 1,
            bytes >= 0,
    ;
    assert((f + 1) * s == f * s + s) by (nonlinear_arith);
    assert((cap * n - f) * s - s == (cap * n - (f + 1)) * s) by (nonlinear_arith);
    assert((cap * n - (f + 1)) * s >= 0) by (nonlinear_arith)
        requires
            f + 1 <= cap * n,
            s >= 2,
    ;
    assert((f + 1) * s <= (cap * n) * s) by (nonlinear_arith)
        requires
            f + 1 <= cap * n,
            s >= 2,
    ;
    assert(longer.no_duplicates()) by {
        assert forall|x: int, y: int|
            0 <= x < longer.len() && 0 <= y < longer.len() && x != y implies longer[x]
            != longer[y] by {
            if x > 0 {
                assert(chain[x - 1] == longer[x]);
                assert(chain.contains(longer[x]));
            }
            if y > 0 {
                assert(chain[y - 1] == longer[y]);
                assert(chain.contains(longer[y]));
            }
        }
    }
    if v.empties(b) {
        assert(w.slabs == others);
        assert((f + 1 - cap) * s == f * s + s - cap * s) by (nonlinear_arith);
        assert((f + 1 - cap) * s >= 0) by (nonlinear_arith)
            requires
                f + 1 - cap >= 0,
                s >= 2,
        ;
        assert(cap * (n - 1) - (f + 1 - cap) == cap * n - (f + 1));
        if v.partial.contains(b) {
            lemma_partial_removed(v.partial, v.partial.index_of(b));
        }
        assert forall|c: u64| #[trigger] w.is_slab(c) implies w.chain_ok(c) by {
            assert(v.is_slab(c));
            assert(v.chain_ok(c));
        }
        assert forall|c: u64| #[trigger] w.partial.contains(c) <==> w.is_slab(c)
            && w.slabs[c].len() > 0 by {
            assert(v.partial.contains(c) <==> v.is_slab(c) && v.slabs[c].len() > 0);
        }
    } else {
        assert(w.slabs.dom() =~= v.slabs.dom());
        assert(w.slabs.remove(b) =~= others);
        lemma_free_slots(w.slabs, b);
        assert forall|c: u64| #[trigger] w.is_slab(c) implies w.chain_ok(c) by {
            assert(v.is_slab(c));
            assert(v.chain_ok(c));
            if c == b {
                assert forall|x: int| 0 <= x < longer.len() implies #[trigger] longer[x] < w.cap by {
                    if x > 0 {
                        assert(longer[x] == chain[x - 1]);
                    }
                }
            }
        }
        if chain.len() == 0 {
            assert(!v.partial.contains(b));
            assert forall|x: int, y: int|
                0 <= x < w.partial.len() && 0 <= y < w.partial.len() && x != y implies w.partial[x]
                != w.partial[y] by {
                if x > 0 {
                    assert(v.partial[x - 1] == w.partial[x]);
                    assert(v.partial.contains(w.partial[x]));
                }
                if y > 0 {
                    assert(v.partial[y - 1] == w.partial[y]);
                    assert(v.partial.contains(w.partial[y]));
                }
            }
            assert forall|c: u64| #[trigger] w.partial.contains(c) <==> w.is_slab(c)
                && w.slabs[c].len() > 0 by {
                assert(v.partial.contains(c) <==> v.is_slab(c) && v.slabs[c].len() > 0);
                if v.partial.contains(c) {
                    let k = choose|k: int| 0 <= k < v.partial.len() && v.partial[k] == c;
                    assert(w.partial[k + 1] == c);
                }
                assert(w.partial[0] == b);
                if w.partial.contains(c) && c != b {
                    let k = choose|k: int| 0 <= k < w.partial.len() && w.partial[k] == c;
                    assert(v.partial[k - 1] == c);
                }
            }
        } else {
            assert forall|c: u64| #[trigger] w.partial.contains(c) <==> w.is_slab(c)
                && w.slabs[c].len() > 0 by {
                assert(v.partial.contains(c) <==> v.is_slab(c) && v.slabs[c].len() > 0);
            }
        }
    }
    assert forall|c: u64| #[trigger] w.is_slab(c) implies w.slabs[c].len() < w.cap by {
        assert(v.is_slab(c) && v.is_slab(b));
    }
}

} // verus!
