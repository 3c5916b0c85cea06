//! What holds of every slab cache, whatever was allocated and given back.

use crate::buddy::laws as buddy_laws;
use crate::buddy::model::{lemma_span, span, BuddyView};
use crate::framework::AllocStats;
use crate::slab::model::{
    lemma_grown, lemma_popped, lemma_returned, lemma_slots_apart,
    lemma_total_bounded, SlabView,
};
use vstd::prelude::*;

verus! {

/// Two objects that are handed out share no byte.
pub proof fn law_objects_apart(v: SlabView, buddy: BuddyView, b: u64, i: int, c: u64, j: int)
    requires
        v.valid(),
        v.placed(buddy),
        buddy.valid(),
        v.is_live(b, i),
        v.is_live(c, j),
        !(b == c && i == j),
    ensures
        v.slot(b, i) + v.size <= v.slot(c, j) || v.slot(c, j) + v.size <= v.slot(b, i),
{
    if b == c {
        if i < j {
            lemma_slots_apart(v, b, i, j);
        } else {
            lemma_slots_apart(v, b, j, i);
        }
    } else {
        lemma_slots_apart(v, b, i, v.cap);
        lemma_slots_apart(v, c, j, v.cap);
        let k = v.order;
        assert(v.is_slab(b) && v.is_slab(c));
        let p = buddy.page(b as int);
        let q = buddy.page(c as int);
        assert(buddy.addr(p) == b && buddy.addr(q) == c);
        buddy_laws::law_live_apart(buddy, p, k, q, k);
    }
}

/// No byte of an object that is handed out belongs to the records of the cache or to the
/// free space of the buddy allocator; since allocating changes only those, what is stored
/// in the object stays.
pub proof fn law_object_untouched(v: SlabView, buddy: BuddyView, b: u64, i: int, x: int)
    requires
        v.valid(),
        v.placed(buddy),
        buddy.valid(),
        v.is_live(b, i),
        v.in_slot(b, i, x),
    ensures
        !v.in_records(x),
        !buddy.in_free(x),
{
    let k = v.order;
    lemma_slots_apart(v, b, i, v.cap);
    assert(v.is_slab(b));
    let p = buddy.page(b as int);
    assert(buddy.addr(p) == b);
    buddy_laws::law_live_untouched(buddy, p, k, x);
    if v.in_records(x) {
        let c = choose|c: u64|
            #[trigger] v.is_slab(c) && (v.header(c) <= x < v.header(c) + 24 || v.in_chain(c, x));
        assert(v.chain_ok(c));
        lemma_slots_apart(v, c, 0, v.cap);
        let q = buddy.page(c as int);
        assert(buddy.addr(q) == c);
        if v.in_chain(c, x) {
            let n = choose|n: int|
                0 <= n < v.slabs[c].len() && v.slot(c, #[trigger] v.slabs[c][n] as int) <= x
                    < v.slot(c, v.slabs[c][n] as int) + 2;
            let f = v.slabs[c][n] as int;
            lemma_slots_apart(v, c, f, v.cap);
            if c == b {
                assert(v.slabs[c].contains(v.slabs[c][n]));
                if f < i {
                    lemma_slots_apart(v, b, f, i);
                } else if i < f {
                    lemma_slots_apart(v, b, i, f);
                }
            }
        }
        if c != b {
            buddy_laws::law_live_apart(buddy, p, k, q, k);
        }
    }
}

/// The address of an object that is handed out tells its slab and its slot, so that it can
/// be given back.
pub proof fn law_handed_out(v: SlabView, buddy: BuddyView, b: u64, i: int)
    requires
        v.valid(),
        v.placed(buddy),
        v.is_live(b, i),
    ensures
        v.slab_of(v.slot(b, i)) == b,
        v.slot_of(v.slot(b, i)) == i,
        v.handed_out(v.slot(b, i)),
{
    let a = v.slot(b, i);
    let bytes = v.bytes();
    let q = b as int / bytes;
    assert(v.is_slab(b));
    lemma_slots_apart(v, b, i, v.cap);
    lemma_span(v.order);
    assert(0 <= i * v.size) by (nonlinear_arith)
        requires
            0 <= i,
            2 <= v.size,
    ;
    vstd::arithmetic::div_mod::lemma_fundamental_div_mod(b as int, bytes);
    assert(a == q * bytes + (a - b)) by (nonlinear_arith)
        requires
            b as int == bytes * q + 0,
    ;
    assert(0 <= a - b < bytes);
    vstd::arithmetic::div_mod::lemma_fundamental_div_mod_converse(a, bytes, q, a - b);
    assert(q * bytes == bytes * q) by (nonlinear_arith);
    vstd::arithmetic::div_mod::lemma_div_by_multiple(i, v.size);
}

/// An allocation succeeds exactly if some slab has a free slot or the buddy allocator has a
/// free block of the order of a slab or a larger one.
pub proof fn law_room(v: SlabView, buddy: BuddyView)
    requires
        v.valid(),
        buddy.valid(),
    ensures
        v.grows() <==> !exists|b: u64| #[trigger] v.is_slab(b) && v.slabs[b].len() > 0,
        v.has_room(buddy) <==> (exists|b: u64| #[trigger] v.is_slab(b) && v.slabs[b].len() > 0) || (
        exists|p: int, j: int| v.order <= j && #[trigger] buddy.is_free(p, j)),
{
    buddy_laws::law_room(buddy, v.order);
    if !v.grows() {
        assert(v.partial.contains(v.partial[0]));
        assert(v.is_slab(v.partial[0]));
    }
    if exists|b: u64| #[trigger] v.is_slab(b) && v.slabs[b].len() > 0 {
        let b = choose|b: u64| #[trigger] v.is_slab(b) && v.slabs[b].len() > 0;
        assert(v.partial.contains(b));
    }
}

/// Allocating keeps the cache valid, and its slabs stay blocks that are handed out.
pub proof fn law_alloc_valid(v: SlabView, buddy: BuddyView)
    requires
        v.valid(),
        v.placed(buddy),
        buddy.valid(),
        v.has_room(buddy),
        v.can_alloc(buddy),
        v.grows() ==> 0 < buddy.addr(buddy.next_page(v.order)) <= u64::MAX,
    ensures
        v.after_alloc(buddy).valid(),
        v.after_alloc(buddy).is_live(
            v.readied(buddy).partial[0],
            v.readied(buddy).next_slot() as int,
        ),
{
    let w = v.readied(buddy);
    let base = v.source(buddy);
    if v.grows() {
        let k = v.order;
        let p = buddy.next_page(k);
        buddy_laws::law_alloc_block(buddy, k);
        buddy_laws::law_alloc_valid(buddy, k);
        lemma_span(k);
        let after = buddy.after_alloc(k);
        if v.is_slab(base) {
            let q = buddy.page(base as int);
            assert(buddy.addr(q) == base);
            buddy_laws::law_live_untouched(buddy, q, k, base as int);
            assert(buddy.in_free(base as int));
        }
        lemma_grown(v, base);
        let n = v.slabs.dom().len() as int;
        assert((n + 1) * v.bytes() <= u64::MAX) by {
            lemma_total_bounded(v, buddy);
            assert((n + 1) * v.bytes() == n * v.bytes() + v.bytes()) by (nonlinear_arith);
            assert(!buddy.is_live(p, k)) by {
                if buddy.is_live(p, k) {
                    buddy_laws::law_live_untouched(buddy, p, k, base as int);
                    assert(buddy.in_free(base as int));
                }
            }
            buddy.lemma_alloc_counted(k);
        }
    }
    lemma_popped(w);
    let x = v.after_alloc(buddy);
    let b = w.partial[0];
    assert(w.chain_ok(b));
    assert forall|c: u64| #[trigger] x.is_slab(c) implies x.slabs[c].len() < x.cap by {
        assert(w.is_slab(c));
        assert(w.chain_ok(c));
        if c != b {
            assert(v.is_slab(c));
        }
    }
    let chain = w.slabs[b];
    assert(!chain.remove(0).contains(chain[0])) by {
        if chain.remove(0).contains(chain[0]) {
            let i = choose|i: int|
                0 <= i < chain.remove(0).len() && chain.remove(0)[i] == chain[0];
            assert(chain[i + 1] == chain[0]);
        }
    }
    assert(x.is_slab(b));
}

/// Giving an object back keeps the cache valid; in particular every slab that is kept has
/// an object, so that an empty one is never held back.
pub proof fn law_dealloc_valid(v: SlabView, b: u64, i: int)
    requires
        v.valid(),
        v.is_live(b, i),
    ensures
        v.after_dealloc(b, i).valid(),
        !v.after_dealloc(b, i).is_live(b, i),
{
    lemma_returned(v, b, i);
    let w = v.after_dealloc(b, i);
    if !v.empties(b) {
        assert(w.slabs[b][0] == i as u16);
        assert(w.slabs[b].contains(i as u16));
    }
}

/// Giving back at once what was allocated restores the slabs, their chains and the list of
/// slabs with a free slot, in order, and all counters but those of calls and the peak.
pub proof fn law_alloc_dealloc(v: SlabView, buddy: BuddyView)
    requires
        v.valid(),
        v.placed(buddy),
        buddy.valid(),
        v.has_room(buddy),
        v.can_alloc(buddy),
        v.grows() ==> 0 < buddy.addr(buddy.next_page(v.order)) <= u64::MAX,
    ensures
        ({
            let b = v.readied(buddy).partial[0];
            let i = v.readied(buddy).next_slot() as int;
            let w = v.after_alloc(buddy).after_dealloc(b, i);
            &&& w.slabs == v.slabs
            &&& w.partial == v.partial
            &&& w.stats == (AllocStats {
                alloc_count: (v.stats.alloc_count + 1) as u64,
                dealloc_count: (v.stats.dealloc_count + 1) as u64,
                peak_bytes: v.stats.peak_with(v.stats.used_bytes + v.size) as u64,
                ..v.stats
            })
        }),
{
    law_alloc_valid(v, buddy);
    let r = v.readied(buddy);
    let b = r.partial[0];
    let i = r.next_slot() as int;
    let x = v.after_alloc(buddy);
    let chain = r.slabs[b];
    if v.grows() {
        let base = v.source(buddy);
        assert(b == base);
        assert(!v.is_slab(base)) by {
            if v.is_slab(base) {
                let k = v.order;
                lemma_span(k);
                buddy_laws::law_alloc_block(buddy, k);
                let q = buddy.page(base as int);
                assert(buddy.addr(q) == base);
                buddy_laws::law_live_untouched(buddy, q, k, base as int);
                assert(buddy.in_free(base as int));
            }
        }
        lemma_grown(v, base);
    } else {
        assert(v.partial.contains(b));
        assert(v.is_slab(b));
    }
    assert(r.chained() && r.counted()) by {
        if v.grows() {
            let n = v.slabs.dom().len() as int;
            let k = v.order;
            let p = buddy.next_page(k);
            lemma_total_bounded(v, buddy);
            assert((n + 1) * v.bytes() == n * v.bytes() + v.bytes()) by (nonlinear_arith);
            buddy_laws::law_alloc_block(buddy, k);
            lemma_span(k);
            assert(!buddy.is_live(p, k)) by {
                if buddy.is_live(p, k) {
                    buddy_laws::law_live_untouched(buddy, p, k, buddy.addr(p));
                    assert(buddy.in_free(buddy.addr(p)));
                }
            }
            buddy.lemma_alloc_counted(k);
        }
    }
    lemma_popped(r);
    assert(r.chain_ok(b));
    assert(r.is_slab(b));
    lemma_returned(x, b, i);
    let w = x.after_dealloc(b, i);
    let rest = chain.remove(0);
    assert(seq![chain[0]] + rest =~= chain);
    assert(i as u16 == chain[0]);
    if v.grows() {
        assert(x.empties(b));
        assert(w.slabs =~= v.slabs);
        assert(v.partial =~= Seq::<u64>::empty());
        if rest.len() == 0 {
            assert(x.partial =~= Seq::<u64>::empty());
            assert(!x.partial.contains(b));
        } else {
            assert(x.partial =~= seq![b]);
            assert(x.partial[0] == b);
            assert(x.partial.contains(b));
            assert(x.partial.index_of(b) == 0);
        }
        assert(w.partial =~= v.partial);
    } else {
        assert(chain.len() < v.cap);
        assert(!x.empties(b));
        assert(w.slabs =~= v.slabs);
        if rest.len() == 0 {
            assert(seq![b] + v.partial.remove(0) =~= v.partial);
        }
        assert(w.partial =~= v.partial);
    }
    let s = v.size;
    assert(w.stats.used_bytes == v.stats.used_bytes);
    assert(w.stats.free_bytes == v.stats.free_bytes);
    assert(w.stats.total_bytes == v.stats.total_bytes);
}

/// An allocation hands out one slot more, which was not handed out, at the address that it
/// gives; and whatever was handed out still is.
pub proof fn law_alloc_one_more(v: SlabView, buddy: BuddyView, c: u64, j: int)
    requires
        v.valid(),
        v.placed(buddy),
        buddy.valid(),
        v.has_room(buddy),
        v.can_alloc(buddy),
        v.grows() ==> 0 < buddy.addr(buddy.next_page(v.order)) <= u64::MAX,
    ensures
        ({
            let b = v.source(buddy);
            let i = v.readied(buddy).next_slot() as int;
            let w = v.after_alloc(buddy);
            &&& v.next_addr(buddy) == b + i * v.size
            &&& !v.is_live(b, i)
            &&& w.is_live(c, j) <==> v.is_live(c, j) || c == b && j == i
            &&& w.size == v.size && w.cap == v.cap && w.order == v.order
        }),
{
    law_alloc_valid(v, buddy);
    let r = v.readied(buddy);
    let b = v.source(buddy);
    let i = r.next_slot() as int;
    let w = v.after_alloc(buddy);
    let chain = r.slabs[b];
    if v.grows() {
        assert(!v.is_slab(b)) by {
            if v.is_slab(b) {
                let k = v.order;
                lemma_span(k);
                buddy_laws::law_alloc_block(buddy, k);
                let q = buddy.page(b as int);
                assert(buddy.addr(q) == b);
                buddy_laws::law_live_untouched(buddy, q, k, b as int);
                assert(buddy.in_free(b as int));
            }
        }
        lemma_grown(v, b);
    } else {
        assert(v.partial.contains(b));
        assert(v.is_slab(b));
        assert(chain[0] == i as u16);
        assert(chain.contains(i as u16));
    }
    assert(r.partial[0] == b);
    assert(r.chain_ok(b)) by {
        if !v.grows() {
            assert(v.chain_ok(b));
        }
    }
    let rest = chain.remove(0);
    assert(w.slabs[b] == rest);
    assert forall|x: u16| #[trigger] chain.contains(x) <==> rest.contains(x) || x == chain[0] by {
        if chain.contains(x) && x != chain[0] {
            let n = choose|n: int| 0 <= n < chain.len() && chain[n] == x;
            assert(rest[n - 1] == x);
        }
        if rest.contains(x) {
            let n = choose|n: int| 0 <= n < rest.len() && rest[n] == x;
            assert(chain[n + 1] == x);
        }
        assert(chain.contains(chain[0])) by {
            assert(chain[0] == chain[0]);
        }
    }
    if c == b {
        assert(w.is_slab(b));
        if 0 <= j < v.cap {
            if v.grows() {
                assert(chain[j] == j as u16);
                assert(chain.contains(j as u16));
                assert(!v.is_live(b, j));
            }
            if j as u16 == chain[0] {
                assert(j == i);
                assert(w.is_live(b, i));
            }
        }
    } else {
        assert(w.is_slab(c) <==> v.is_slab(c));
        if v.is_slab(c) {
            assert(w.slabs[c] == v.slabs[c]);
        }
    }
}

/// Giving an object back takes that one slot and no other; its slab goes back to the buddy
/// allocator exactly if no other object is in it.
pub proof fn law_dealloc_one_less(v: SlabView, b: u64, i: int, c: u64, j: int)
    requires
        v.valid(),
        v.is_live(b, i),
    ensures
        v.after_dealloc(b, i).is_live(c, j) <==> v.is_live(c, j) && !(c == b && j == i),
        v.empties(b) <==> forall|k: int| #[trigger] v.is_live(b, k) ==> k == i,
        v.empties(b) <==> !v.after_dealloc(b, i).is_slab(b),
        c != b ==> (v.after_dealloc(b, i).is_slab(c) <==> v.is_slab(c)),
{
    let w = v.after_dealloc(b, i);
    let chain = v.slabs[b];
    assert(v.chain_ok(b));
    lemma_only_one(v, b, i);
    if !v.empties(b) {
        let longer = seq![i as u16] + chain;
        assert(w.slabs[b] == longer);
        assert forall|x: u16| #[trigger] longer.contains(x) <==> chain.contains(x) || x == i as u16 by {
            if chain.contains(x) {
                let n = choose|n: int| 0 <= n < chain.len() && chain[n] == x;
                assert(longer[n + 1] == x);
            }
            assert(longer[0] == i as u16);
            if longer.contains(x) && x != i as u16 {
                let n = choose|n: int| 0 <= n < longer.len() && longer[n] == x;
                assert(chain[n - 1] == x);
            }
        }
        if c == b && 0 <= j < v.cap {
            assert((j as u16 == i as u16) == (j == i));
        }
    } else if c == b {
        assert(!w.is_live(c, j));
    }
}

/// A slab has but one object exactly if its chain holds all slots but one.
proof fn lemma_only_one(v: SlabView, b: u64, i: int)
    requires
        v.valid(),
        v.is_live(b, i),
    ensures
        v.empties(b) <==> forall|k: int| #[trigger] v.is_live(b, k) ==> k == i,
{
    let chain = v.slabs[b];
    assert(v.chain_ok(b));
    let slots = Set::new(|k: u16| k < v.cap);
    let free = chain.to_set();
    let all = vstd::set_lib::set_int_range(0, v.cap);
    let taken = free.map(|k: u16| k as int);
    chain.unique_seq_to_set();
    vstd::set_lib::lemma_int_range(0, v.cap);
    assert(vstd::relations::injective_on(|k: u16| k as int, free));
    vstd::set_lib::lemma_map_size(free, taken, |k: u16| k as int);
    assert(taken.subset_of(all)) by {
        assert forall|k: int| #[trigger] taken.contains(k) implies all.contains(k) by {
            let x = choose|x: u16| free.contains(x) && x as int == k;
            assert(chain.contains(x));
        }
    }
    assert forall|k: int| 0 <= k < v.cap implies (#[trigger] taken.contains(k) <==> chain.contains(
        k as u16,
    )) by {
        if chain.contains(k as u16) {
            assert(free.contains(k as u16));
            assert((k as u16) as int == k);
        }
    }
    let rest = all.remove(i);
    assert(!taken.contains(i));
    assert(taken.subset_of(rest));
    assert(rest.len() == v.cap - 1);
    if v.empties(b) {
        vstd::set_lib::lemma_subset_equality(taken, rest);
        assert forall|k: int| #[trigger] v.is_live(b, k) implies k == i by {
            if k != i {
                assert(rest.contains(k));
                assert(taken.contains(k));
            }
        }
    }
    if forall|k: int| #[trigger] v.is_live(b, k) ==> k == i {
        assert forall|k: int| #[trigger] rest.contains(k) implies taken.contains(k) by {
            assert(!v.is_live(b, k));
        }
        assert(taken =~= rest);
    }
}

/// A cache can allocate unless its counter is full or, where it has to grow, the buddy
/// allocator cannot be asked or does not start at a multiple of the size of a slab.
pub proof fn law_can_alloc(v: SlabView, buddy: BuddyView)
    requires
        v.valid(),
        buddy.valid(),
        v.stats.alloc_count < u64::MAX,
        buddy.below(buddy_laws::TRACKED_PAGES as int),
        buddy.stats.alloc_count < u64::MAX,
        buddy.base % (span(v.order) * 4096) == 0,
    ensures
        v.can_alloc(buddy),
{
    buddy_laws::law_tracked(buddy, v.order, 0, 0);
}

/// A fresh cache has no slab and nothing counted, and is made for objects as it was told.
pub proof fn law_empty(size: int, cap: int, order: int)
    ensures
        ({
            let v = SlabView::empty(size, cap, order);
            &&& v.size == size
            &&& v.cap == cap
            &&& v.order == order
            &&& forall|b: u64| !#[trigger] v.is_slab(b)
            &&& forall|b: u64, i: int| !#[trigger] v.is_live(b, i)
            &&& v.grows()
            &&& v.stats.total_bytes == 0
            &&& v.stats.used_bytes == 0
            &&& v.stats.free_bytes == 0
            &&& v.stats.alloc_count == 0
            &&& v.stats.dealloc_count == 0
            &&& v.stats.peak_bytes == 0
        }),
{
}

/// What a cache is before its slot is taken.
proof fn lemma_readied(v: SlabView, buddy: BuddyView)
    requires
        v.valid(),
        v.placed(buddy),
        buddy.valid(),
        v.has_room(buddy),
        v.can_alloc(buddy),
        v.grows() ==> 0 < buddy.addr(buddy.next_page(v.order)) <= u64::MAX,
    ensures
        v.readied(buddy).sized(),
        v.readied(buddy).chained(),
        v.readied(buddy).counted(),
        v.readied(buddy).partial.len() > 0,
        v.grows() ==> v.stats.total_bytes + v.bytes() <= u64::MAX,
{
    if v.grows() {
        let base = v.source(buddy);
        let k = v.order;
        let n = v.slabs.dom().len() as int;
        let p = buddy.next_page(k);
        lemma_span(k);
        buddy_laws::law_alloc_block(buddy, k);
        if v.is_slab(base) {
            let q = buddy.page(base as int);
            assert(buddy.addr(q) == base);
            buddy_laws::law_live_untouched(buddy, q, k, base as int);
            assert(buddy.in_free(base as int));
        }
        lemma_grown(v, base);
        lemma_total_bounded(v, buddy);
        assert((n + 1) * v.bytes() == n * v.bytes() + v.bytes()) by (nonlinear_arith);
        assert(!buddy.is_live(p, k)) by {
            if buddy.is_live(p, k) {
                buddy_laws::law_live_untouched(buddy, p, k, buddy.addr(p));
                assert(buddy.in_free(buddy.addr(p)));
            }
        }
        buddy.lemma_alloc_counted(k);
    }
}

/// An allocation counts as one and takes the bytes of one object, after a slab was added where
/// it had to grow; giving an object back counts as one and gives its bytes back.
pub proof fn law_counts(v: SlabView, buddy: BuddyView, b: u64, i: int)
    requires
        v.valid(),
        v.placed(buddy),
        buddy.valid(),
    ensures
        v.has_room(buddy) && v.can_alloc(buddy) && (v.grows() ==> 0 < buddy.addr(
            buddy.next_page(v.order),
        ) <= u64::MAX) ==> ({
            let s = v.after_alloc(buddy).stats;
            &&& s.alloc_count == v.stats.alloc_count + 1
            &&& s.dealloc_count == v.stats.dealloc_count
            &&& s.used_bytes == v.stats.used_bytes + v.size
            &&& s.used_bytes > v.stats.peak_bytes ==> s.peak_bytes == s.used_bytes
            &&& s.used_bytes <= v.stats.peak_bytes ==> s.peak_bytes == v.stats.peak_bytes
            &&& !v.grows() ==> s.total_bytes == v.stats.total_bytes
            &&& v.grows() ==> s.total_bytes == v.stats.total_bytes + span(v.order) * 4096
        }),
        v.is_live(b, i) && v.stats.dealloc_count < u64::MAX ==> ({
            let s = v.after_dealloc(b, i).stats;
            &&& s.alloc_count == v.stats.alloc_count
            &&& s.dealloc_count == v.stats.dealloc_count + 1
            &&& s.used_bytes == v.stats.used_bytes - v.size
            &&& s.peak_bytes == v.stats.peak_bytes
        }),
{
    if v.has_room(buddy) && v.can_alloc(buddy) && (v.grows() ==> 0 < buddy.addr(
        buddy.next_page(v.order),
    ) <= u64::MAX) {
        lemma_readied(v, buddy);
        lemma_popped(v.readied(buddy));
    }
    if v.is_live(b, i) {
        lemma_returned(v, b, i);
    }
}

/// A cache takes pages only where no slab has a free slot, and then one block of its order,
/// which it keeps until the last object in it was given back.
pub proof fn law_pages(v: SlabView, buddy: BuddyView, b: u64, i: int)
    requires
        v.valid(),
        v.placed(buddy),
        buddy.valid(),
    ensures
        !v.grows() ==> v.buddy_after_alloc(buddy) == buddy,
        v.grows() && v.has_room(buddy) ==> v.buddy_after_alloc(buddy).is_live(
            buddy.next_page(v.order),
            v.order,
        ) && !buddy.is_live(buddy.next_page(v.order), v.order),
        v.grows() && buddy.addr(buddy.next_page(v.order)) <= u64::MAX && v.has_room(buddy)
            ==> v.source(buddy) == buddy.addr(buddy.next_page(v.order)),
        v.is_live(b, i) && (exists|j: int| j != i && #[trigger] v.is_live(b, j))
            ==> v.buddy_after_dealloc(buddy, b) == buddy,
        v.is_live(b, i) && (forall|j: int| #[trigger] v.is_live(b, j) ==> j == i)
            ==> !v.buddy_after_dealloc(buddy, b).is_live(buddy.page(b as int), v.order)
            && buddy.is_live(buddy.page(b as int), v.order),
{
    if v.grows() && v.has_room(buddy) {
        let k = v.order;
        let p = buddy.next_page(k);
        lemma_span(k);
        buddy_laws::law_alloc_block(buddy, k);
        if buddy.is_live(p, k) {
            buddy_laws::law_live_untouched(buddy, p, k, buddy.addr(p));
            assert(buddy.in_free(buddy.addr(p)));
        }
        buddy_laws::law_one_block(buddy, k, p, p, k);
    }
    if v.is_live(b, i) {
        lemma_only_one(v, b, i);
        assert(v.is_slab(b));
        let q = buddy.page(b as int);
        buddy_laws::law_one_block(buddy, v.order, q, q, v.order);
    }
}

} // verus!
