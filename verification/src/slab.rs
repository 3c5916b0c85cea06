//! Typed slab caches on top of the buddy allocator.
//!
//! A cache holds slabs, each of them one page block cut into equal slots. The free slots of
//! a slab are chained by number, each free slot holding the number of the next one; the
//! header stands behind the slots, so that the slots keep the alignment of the block. Slabs
//! with a free slot are linked in a list. A slab that is left without an object goes back
//! to the buddy allocator at once.

pub mod laws;
pub mod model;

use crate::buddy::laws::{self as buddy_laws, law_alloc_block, law_live_untouched};
use crate::buddy::model::{lemma_span, span, BuddyView};
use crate::buddy::BuddyAllocator;
use crate::framework::{AllocStats, BUDDY_MAX_ORDER, PAGE_SIZE};
use crate::links::{self, apart, linked, node_at, node_linked, Links};
use crate::memory::Memory;
use crate::slab::laws as slab_laws;
use crate::slab::model::{
    chain_at, lemma_grown, lemma_popped, lemma_returned, lemma_slots_apart,
    lemma_total_bounded, SlabView, NO_SLOT, SLAB_HEADER,
};
use core::marker::PhantomData;
use vstd::prelude::*;

verus! {

/// Where a slab header keeps its links.
spec fn header_links_spec() -> Links {
    Links { prev: 8, next: 16, size: 24 }
}

/// Where a slab header keeps its links.
#[verifier::when_used_as_spec(header_links_spec)]
fn header_links() -> (l: Links)
    ensures
        l == header_links_spec(),
{
    Links { prev: 8, next: 16, size: 24 }
}

/// The headers of the slabs in `partial`.
pub open spec fn headers(v: SlabView, partial: Seq<u64>) -> Seq<u64> {
    Seq::new(partial.len(), |i: int| v.header(partial[i]) as u64)
}

/// A cache of equal slots, whatever they hold.
pub struct SlabCacheInner {
    slab_order: usize,
    obj_size: u64,
    objs_per_slab: u64,
    partial: u64,
    stats: AllocStats,
    slabs: Ghost<Map<u64, Seq<u16>>>,
    partial_list: Ghost<Seq<u64>>,
}

impl View for SlabCacheInner {
    type V = SlabView;

    closed spec fn view(&self) -> SlabView {
        SlabView {
            size: self.obj_size as int,
            cap: self.objs_per_slab as int,
            order: self.slab_order as int,
            slabs: self.slabs@,
            partial: self.partial_list@,
            stats: self.stats,
        }
    }
}

impl SlabCacheInner {
    /// The headers of the slabs with a free slot.
    spec fn nodes(&self) -> Seq<u64> {
        headers(self@, self@.partial)
    }

    /// Headers, chains and the list agree with the slabs.
    spec fn shape(&self, buddy: BuddyView, mem: &Memory) -> bool {
        let v = self@;
        &&& mem.wf()
        &&& v.sized()
        &&& v.chained()
        &&& v.counted()
        &&& v.placed(buddy)
        &&& forall|b: u64| #[trigger]
            v.is_slab(b) ==> v.slab_ok(mem, b) && mem.holds(b as int, v.bytes())
        &&& self.partial == node_at(self.nodes(), 0)
        &&& linked(mem, header_links(), self.nodes())
    }

    /// The cache is consistent, and its slabs are blocks of `buddy` in `mem`.
    pub closed spec fn wf(&self, buddy: BuddyView, mem: &Memory) -> bool {
        self.shape(buddy, mem) && self@.none_empty()
    }

    /// What a consistent cache promises.
    pub proof fn lemma_wf(&self, buddy: BuddyView, mem: &Memory)
        requires
            self.wf(buddy, mem),
        ensures
            mem.wf(),
            self@.valid(),
            self@.placed(buddy),
    {
    }

    /// The records of one slab stay good where its bytes stay.
    proof fn lemma_slab_kept(v: SlabView, before: &Memory, after: &Memory, b: u64)
        requires
            v.sized(),
            v.chain_ok(b),
            v.slab_ok(before, b),
            forall|x: int|
                #![trigger after.at(x)]
                v.header(b) <= x < v.header(b) + 8 || v.in_chain(b, x) ==> after.at(x)
                    == before.at(x),
        ensures
            v.slab_ok(after, b),
    {
        let h = v.header(b);
        let chain = v.slabs[b];
        assert(after.agrees(before, h, h + 8));
        after.lemma_agrees(before, h, h + 8);
        assert forall|i: int| 0 <= i < chain.len() implies #[trigger] v.slot_ok(after, b, i) by {
            assert(v.slot_ok(before, b, i));
            let a = v.slot(b, chain[i] as int);
            assert forall|x: int| a <= x < a + 2 implies #[trigger] after.at(x) == before.at(x) by {
                assert(v.in_chain(b, x));
            }
            after.lemma_agrees(before, a, a + 2);
        }
    }

    /// Two slabs share no byte, and none of a slab is free page space.
    proof fn lemma_slabs_apart(v: SlabView, buddy: BuddyView, b: u64, c: u64)
        requires
            v.sized(),
            v.placed(buddy),
            buddy.valid(),
            v.is_slab(b),
            v.is_slab(c),
        ensures
            b != c ==> b + v.bytes() <= c || c + v.bytes() <= b,
            forall|x: int| #[trigger] v.in_slab(b, x) ==> !buddy.in_free(x),
    {
        let k = v.order;
        let p = buddy.page(b as int);
        let q = buddy.page(c as int);
        assert(buddy.is_block(p, k) && buddy.is_block(q, k));
        assert(buddy.addr(p) == b);
        assert(buddy.addr(q) == c);
        assert forall|x: int| #[trigger] v.in_slab(b, x) implies !buddy.in_free(x) by {
            law_live_untouched(buddy, p, k, x);
        }
    }

    /// A cache stays consistent where its records stay and its blocks stay handed out.
    proof fn lemma_shape_frame(
        &self,
        buddy: BuddyView,
        buddy_after: BuddyView,
        before: &Memory,
        after: &Memory,
    )
        requires
            self.shape(buddy, before),
            self@.placed(buddy_after),
            after.wf(),
            after.same_range(before),
            forall|x: int|
                #![trigger after.at(x)]
                self@.in_records(x) ==> after.at(x) == before.at(x),
        ensures
            self.shape(buddy_after, after),
    {
        let v = self@;
        assert forall|b: u64| #[trigger] v.is_slab(b) implies v.slab_ok(after, b) by {
            assert forall|x: int|
                #![trigger after.at(x)]
                v.header(b) <= x < v.header(b) + 8 || v.in_chain(b, x) implies after.at(x)
                == before.at(x) by {
                assert(v.in_records(x));
            }
            Self::lemma_slab_kept(v, before, after, b);
        }
        let nodes = self.nodes();
        assert forall|i: int, x: int|
            #![trigger nodes[i], after.at(x)]
            0 <= i < nodes.len() && header_links().covers(nodes[i], x) implies after.at(x)
            == before.at(x) by {
            let b = v.partial[i];
            assert(v.partial.contains(b));
            assert(v.is_slab(b));
            assert(node_linked(before, header_links(), nodes, i));
            self.lemma_node(buddy, before, i);
            assert(v.in_records(x));
        }
        links::lemma_linked_frame(before, after, header_links(), nodes);
    }

    /// A node of the list is the header of its slab.
    proof fn lemma_node(&self, buddy: BuddyView, mem: &Memory, i: int)
        requires
            self.shape(buddy, mem),
            0 <= i < self@.partial.len(),
        ensures
            self@.is_slab(self@.partial[i]),
            self@.slabs[self@.partial[i]].len() > 0,
            self.nodes()[i] == self@.header(self@.partial[i]),
            mem.holds(self.nodes()[i] as int, 24),
            self.nodes()[i] > 0,
    {
        let v = self@;
        let b = v.partial[i];
        assert(v.partial.contains(b));
        assert(node_linked(mem, header_links(), self.nodes(), i));
        lemma_slots_apart(v, b, 0, v.cap);
    }

    /// A consistent cache stays so while its records stay and its blocks stay handed out.
    pub proof fn lemma_frame(
        &self,
        buddy: BuddyView,
        buddy_after: BuddyView,
        before: &Memory,
        after: &Memory,
    )
        requires
            self.wf(buddy, before),
            self@.placed(buddy_after),
            after.wf(),
            after.same_range(before),
            forall|x: int|
                #![trigger after.at(x)]
                self@.in_records(x) ==> after.at(x) == before.at(x),
        ensures
            self.wf(buddy_after, after),
    {
        self.lemma_shape_frame(buddy, buddy_after, before, after);
    }

    /// A cache of objects of `obj_size` bytes, `objs_per_slab` to a slab, without a slab.
    pub fn new(slab_order: usize, obj_size: u64, objs_per_slab: u64) -> (c: Self)
        requires
            SlabView::empty(obj_size as int, objs_per_slab as int, slab_order as int).sized(),
        ensures
            c@ == SlabView::empty(obj_size as int, objs_per_slab as int, slab_order as int),
            forall|buddy: BuddyView, mem: Memory| mem.wf() ==> #[trigger] c.wf(buddy, &mem),
    {
        let c = SlabCacheInner {
            slab_order,
            obj_size,
            objs_per_slab,
            partial: 0,
            stats: AllocStats {
                total_bytes: 0,
                used_bytes: 0,
                free_bytes: 0,
                alloc_count: 0,
                dealloc_count: 0,
                peak_bytes: 0,
            },
            slabs: Ghost(Map::empty()),
            partial_list: Ghost(Seq::empty()),
        };
        proof {
            assert(c@ =~= SlabView::empty(
                obj_size as int,
                objs_per_slab as int,
                slab_order as int,
            ));
            assert(c@.counted()) by {
                assert(0 * c@.bytes() == 0);
                assert(0 * c@.size == 0);
                assert(c@.cap * 0 == 0);
            }
        }
        c
    }

    /// A block that was free is no slab yet.
    proof fn lemma_new_block(v: SlabView, buddy: BuddyView)
        requires
            v.sized(),
            v.placed(buddy),
            buddy.valid(),
            buddy.has_room(v.order),
            buddy.addr(buddy.next_page(v.order)) <= u64::MAX,
        ensures
            !v.is_slab(buddy.addr(buddy.next_page(v.order)) as u64),
    {
        let k = v.order;
        let p = buddy.next_page(k);
        let b = buddy.addr(p) as u64;
        law_alloc_block(buddy, k);
        if v.is_slab(b) {
            lemma_span(k);
            Self::lemma_slabs_apart(v, buddy, b, b);
            assert(v.in_slab(b, b as int));
            assert(buddy.in_free(b as int));
        }
    }

    /// Takes a block from `buddy` as a fresh slab; tells whether there was one.
    #[verifier::rlimit(40)]
    fn grow(&mut self, buddy: &mut BuddyAllocator, mem: &mut Memory) -> (grown: bool)
        requires
            old(self).shape(old(buddy)@, old(mem)),
            old(buddy).wf(old(mem)),
            old(buddy)@.can_alloc(old(self)@.order),
            old(buddy)@.base % old(self)@.bytes() == 0,
        ensures
            final(buddy).wf(final(mem)),
            final(self).shape(final(buddy)@, final(mem)),
            final(mem).same_range(old(mem)),
            grown == old(buddy)@.has_room(old(self)@.order),
            grown ==> final(buddy)@ == old(buddy)@.after_alloc(old(self)@.order) && final(self)@
                == old(self)@.grown(
                old(buddy)@.addr(old(buddy)@.next_page(old(self)@.order)) as u64,
            ),
            !grown ==> final(buddy)@ == old(buddy)@ && final(self)@ == old(self)@,
            forall|x: int|
                #![trigger final(mem).at(x)]
                old(mem).holds(x, 1) && !old(buddy)@.in_free(x) && !old(self)@.in_records(x)
                    ==> final(mem).at(x) == old(mem).at(x),
    {
        let ghost v = self@;
        let ghost bd = buddy@;
        let ghost k = v.order;
        let ghost p = bd.next_page(k);
        let ghost mem0 = *mem;
        let cap: u64 = self.objs_per_slab;
        let size: u64 = self.obj_size;
        proof {
            buddy.lemma_wf(mem);
            lemma_span(k);
            vstd::arithmetic::power2::lemma2_to64();
            vstd::bits::lemma_u64_shl_is_mul(PAGE_SIZE, self.slab_order as u64);
            if bd.has_room(k) {
                law_alloc_block(bd, k);
                buddy_laws::law_alloc_valid(bd, k);
                assert(bd.in_free(bd.addr(p)));
                lemma_free_held(bd, buddy, mem, bd.addr(p));
                Self::lemma_new_block(v, bd);
            }
        }
        let slab_bytes: u64 = PAGE_SIZE << (self.slab_order as u64);
        let base: u64 = match buddy.alloc_pages(mem, self.slab_order) {
            Some(a) => a,
            None => {
                proof {
                    buddy.lemma_wf(mem);
                    assert forall|x: int|
                        #![trigger mem.at(x)]
                        v.in_records(x) implies mem.at(x) == mem0.at(x) by {
                        lemma_records_inside(v, x);
                    }
                    self.lemma_shape_frame(bd, bd, &mem0, mem);
                }
                return false;
            },
        };
        let ghost mem1 = *mem;
        let ghost bd1 = buddy@;
        let ghost w = v.grown(base);
        proof {
            buddy.lemma_wf(mem);
            assert(bd1.is_live(p, k));
            assert(bd1.is_block(p, k));
            assert(bd1.page(base as int) == p);
            lemma_aligned_block(bd.base, p, k);
            lemma_grown(v, base);
            lemma_slots_apart(w, base, 0, w.cap);
            assert(w.placed(bd1)) by {
                assert forall|b: u64| #[trigger] w.is_slab(b) implies b > 0 && b as int % w.bytes()
                    == 0 && bd1.handed_out(b as int, w.order) by {
                    if b != base {
                        assert(v.is_slab(b));
                        assert(bd.is_live(bd.page(b as int), k));
                        assert(bd1.is_live(bd1.page(b as int), k));
                    }
                }
            }
            lemma_total_bounded(w, bd1);
            assert forall|b: u64, x: int|
                #![trigger v.is_slab(b), v.in_slab(b, x)]
                v.is_slab(b) && v.in_slab(b, x) implies mem1.at(x) == mem0.at(x) by {
                Self::lemma_slabs_apart(v, bd, b, b);
            }
        }
        let mut i: u64 = 0;
        while i < cap
            invariant
                mem.wf(),
                mem.same_range(&mem1),
                mem1.holds(base as int, w.bytes()),
                w.sized(),
                cap == w.cap,
                size == w.size,
                i <= cap,
                base + w.bytes() <= u64::MAX,
                forall|j: int|
                    0 <= j < i ==> #[trigger] mem.half(w.slot(base, j)) == chain_at(w.fresh(), j + 1),
                forall|x: int|
                    #![trigger mem.at(x)]
                    mem1.holds(x, 1) && !(base <= x < w.header(base)) ==> mem.at(x) == mem1.at(x),
            decreases cap - i,
        {
            let ghost prev = *mem;
            proof {
                lemma_slots_apart(w, base, i as int, w.cap);
            }
            let slot: u64 = base + i * size;
            let next: u16 = if i + 1 < cap {
                (i + 1) as u16
            } else {
                NO_SLOT
            };
            mem.write_u16(slot, next);
            proof {
                assert forall|j: int| 0 <= j < i + 1 implies #[trigger] mem.half(w.slot(base, j))
                    == chain_at(w.fresh(), j + 1) by {
                    if j < i {
                        lemma_slots_apart(w, base, j, i as int);
                        assert(prev.half(w.slot(base, j)) == chain_at(w.fresh(), j + 1));
                    }
                }
            }
            i = i + 1;
        }
        let header: u64 = base + cap * size;
        let ghost mem2 = *mem;
        mem.write_u16(header, 0);
        mem.write_u16(header + 2, 0);
        mem.write_u16(header + 4, cap as u16);
        mem.write_u16(header + 6, 0);
        let ghost mem3 = *mem;
        let ghost nodes = self.nodes();
        proof {
            assert forall|x: int|
                #![trigger mem3.at(x)]
                mem1.holds(x, 1) && !w.in_slab(base, x) implies mem3.at(x) == mem1.at(x) by {}
            assert forall|j: int| 0 <= j < w.cap implies #[trigger] mem3.half(w.slot(base, j))
                == chain_at(w.fresh(), j + 1) by {
                lemma_slots_apart(w, base, j, w.cap);
                assert(mem2.half(w.slot(base, j)) == chain_at(w.fresh(), j + 1));
            }
            assert forall|b: u64, x: int|
                #![trigger v.is_slab(b), v.in_slab(b, x)]
                v.is_slab(b) && v.in_slab(b, x) implies mem3.at(x) == mem0.at(x) by {
                assert(w.is_slab(b) && w.is_slab(base));
                Self::lemma_slabs_apart(w, bd1, b, base);
                assert(mem1.at(x) == mem0.at(x));
            }
            assert forall|x: int|
                #![trigger mem3.at(x)]
                v.in_records(x) implies mem3.at(x) == mem0.at(x) by {
                lemma_records_inside(v, x);
            }
            self.lemma_shape_frame(bd, bd1, &mem0, &mem3);
            assert forall|n: int| 0 <= n < nodes.len() implies #[trigger] apart(
                header_links(),
                header,
                nodes[n],
            ) by {
                self.lemma_node(bd1, &mem3, n);
                let b = v.partial[n];
                assert(w.is_slab(b) && w.is_slab(base));
                Self::lemma_slabs_apart(w, bd1, b, base);
                lemma_slots_apart(w, b, 0, w.cap);
            }
        }
        let head: u64 = self.partial;
        let new_head: u64 = links::push_front(mem, header_links(), head, header, Ghost(nodes));
        self.partial = new_head;
        self.stats.total_bytes = self.stats.total_bytes + slab_bytes;
        self.stats.free_bytes = self.stats.free_bytes + cap * size;
        self.slabs = Ghost(w.slabs);
        self.partial_list = Ghost(w.partial);
        proof {
            let mem4 = *mem;
            assert(self@ =~= w);
            assert forall|x: int|
                #![trigger mem4.at(x)]
                mem3.holds(x, 1) && !header_links().covers(header, x) && !(nodes.len() > 0
                    && header_links().covers(nodes[0], x)) implies mem4.at(x) == mem3.at(x) by {}
            if nodes.len() > 0 {
                old(self).lemma_node(bd, &mem0, 0);
            }
            assert forall|b: u64| #[trigger] w.is_slab(b) implies w.slab_ok(&mem4, b)
                && mem4.holds(b as int, w.bytes()) by {
                lemma_slots_apart(w, b, 0, w.cap);
                if b == base {
                    assert(w.slab_ok(&mem3, b)) by {
                        let chain = w.slabs[b];
                        assert forall|n: int| 0 <= n < chain.len() implies #[trigger] w.slot_ok(
                            &mem3,
                            b,
                            n,
                        ) by {
                            assert(mem3.half(w.slot(base, n)) == chain_at(w.fresh(), n + 1));
                        }
                    }
                    assert(w.chain_ok(b));
                } else {
                    assert(v.is_slab(b));
                    assert(v.slab_ok(&mem3, b));
                    assert(w.chain_ok(b));
                    assert(w.slab_ok(&mem3, b)) by {
                        assert forall|n: int| 0 <= n < w.slabs[b].len() implies #[trigger] w.slot_ok(
                            &mem3,
                            b,
                            n,
                        ) by {
                            assert(v.slot_ok(&mem3, b, n));
                        }
                    }
                }
                assert forall|x: int|
                    #![trigger mem4.at(x)]
                    w.header(b) <= x < w.header(b) + 8 || w.in_chain(b, x) implies mem4.at(x)
                    == mem3.at(x) by {
                    lemma_record_apart(w, bd1, b, base, x);
                    if nodes.len() > 0 {
                        lemma_record_apart(w, bd1, b, v.partial[0], x);
                    }
                }
                Self::lemma_slab_kept(w, &mem3, &mem4, b);
            }
            assert(self.nodes() =~= seq![header] + nodes);
            assert forall|x: int|
                #![trigger mem4.at(x)]
                bd1.in_free(x) implies mem4.at(x) == mem1.at(x) by {
                lemma_free_held(bd1, buddy, &mem1, x);
                Self::lemma_slabs_apart(w, bd1, base, base);
                assert(!w.in_slab(base, x));
                if nodes.len() > 0 {
                    let b = v.partial[0];
                    assert(w.is_slab(b));
                    Self::lemma_slabs_apart(w, bd1, b, b);
                    assert(!w.in_slab(b, x));
                    lemma_slots_apart(w, b, 0, w.cap);
                }
            }
            buddy.lemma_frame(&mem1, mem);
            assert forall|x: int|
                #![trigger mem4.at(x)]
                mem0.holds(x, 1) && !bd.in_free(x) && !v.in_records(x) implies mem4.at(x)
                == mem0.at(x) by {
                assert(mem1.at(x) == mem0.at(x));
                if w.in_slab(base, x) {
                    law_alloc_block(bd, k);
                    assert(bd.in_free(x));
                }
                if nodes.len() > 0 && header_links().covers(nodes[0], x) {
                    assert(v.is_slab(v.partial[0]));
                    assert(v.in_records(x));
                }
            }
        }
        true
    }

    /// Hands out the first free slot of the first slab that has one.
    fn take_slot(&mut self, mem: &mut Memory, Ghost(bd): Ghost<BuddyView>) -> (addr: u64)
        requires
            old(self).shape(bd, old(mem)),
            bd.valid(),
            old(self)@.partial.len() > 0,
            old(self)@.stats.alloc_count < u64::MAX,
        ensures
            final(self).shape(bd, final(mem)),
            final(mem).same_range(old(mem)),
            final(self)@ == old(self)@.popped(),
            addr == old(self)@.slot(old(self)@.partial[0], old(self)@.next_slot() as int),
            forall|x: int|
                #![trigger final(mem).at(x)]
                old(mem).holds(x, 1) && !old(self)@.in_records(x) ==> final(mem).at(x) == old(
                    mem,
                ).at(x),
    {
        let ghost v = self@;
        let ghost b = v.partial[0];
        let ghost chain = v.slabs[b];
        let ghost w = v.popped();
        let ghost nodes = self.nodes();
        let ghost mem0 = *mem;
        proof {
            self.lemma_node(bd, mem, 0);
            lemma_popped(v);
            assert(v.chain_ok(b));
            assert(v.slab_ok(mem, b));
            assert(v.slot_ok(mem, b, 0));
            lemma_slots_apart(v, b, 0, v.cap);
            lemma_slots_apart(v, b, chain[0] as int, v.cap);
        }
        let header: u64 = self.partial;
        let base: u64 = header - self.objs_per_slab * self.obj_size;
        assert(base == b);
        let index: u16 = mem.read_u16(header);
        assert(index == chain[0]);
        let slot: u64 = base + index as u64 * self.obj_size;
        let next: u16 = mem.read_u16(slot);
        let in_use: u16 = mem.read_u16(header + 2);
        let capacity: u16 = mem.read_u16(header + 4);
        mem.write_u16(header, next);
        mem.write_u16(header + 2, in_use + 1);
        let ghost mem1 = *mem;
        proof {
            let rest = chain.remove(0);
            assert forall|c: u64| #[trigger] w.is_slab(c) implies w.slab_ok(&mem1, c) by {
                assert(v.is_slab(c));
                assert(v.chain_ok(c));
                assert(v.slab_ok(&mem0, c));
                if c == b {
                    assert forall|i: int| 0 <= i < rest.len() implies #[trigger] w.slot_ok(
                        &mem1,
                        c,
                        i,
                    ) by {
                        assert(v.slot_ok(&mem0, c, i + 1));
                        assert(rest[i] == chain[i + 1]);
                        lemma_slots_apart(v, b, chain[i + 1] as int, v.cap);
                    }
                } else {
                    Self::lemma_slabs_apart(v, bd, b, c);
                    lemma_slots_apart(v, c, 0, v.cap);
                    assert forall|x: int|
                        #![trigger mem1.at(x)]
                        v.header(c) <= x < v.header(c) + 8 || v.in_chain(c, x) implies mem1.at(x)
                        == mem0.at(x) by {
                        if v.in_chain(c, x) {
                            lemma_chain_inside(v, c, x);
                        }
                    }
                    Self::lemma_slab_kept(v, &mem0, &mem1, c);
                    assert forall|i: int| 0 <= i < w.slabs[c].len() implies #[trigger] w.slot_ok(
                        &mem1,
                        c,
                        i,
                    ) by {
                        assert(v.slot_ok(&mem1, c, i));
                    }
                }
            }
            assert forall|i: int, x: int|
                #![trigger nodes[i], mem1.at(x)]
                0 <= i < nodes.len() && header_links().covers(nodes[i], x) implies mem1.at(x)
                == mem0.at(x) by {
                self.lemma_node(bd, &mem0, i);
                let c = v.partial[i];
                if c != b {
                    Self::lemma_slabs_apart(v, bd, b, c);
                    lemma_slots_apart(v, c, 0, v.cap);
                }
            }
            links::lemma_linked_frame(&mem0, &mem1, header_links(), nodes);
        }
        if in_use + 1 == capacity {
            let head: u64 = self.partial;
            self.partial = links::unlink(
                mem,
                header_links(),
                head,
                header,
                Ghost(nodes),
                Ghost(0),
            );
        }
        self.slabs = Ghost(w.slabs);
        self.partial_list = Ghost(w.partial);
        self.stats.alloc_count = self.stats.alloc_count + 1;
        self.stats.used_bytes = self.stats.used_bytes + self.obj_size;
        self.stats.free_bytes = self.stats.free_bytes - self.obj_size;
        if self.stats.used_bytes > self.stats.peak_bytes {
            self.stats.peak_bytes = self.stats.used_bytes;
        }
        proof {
            let mem2 = *mem;
            assert(self@ =~= w);
            assert forall|c: u64| #[trigger] w.is_slab(c) implies w.slab_ok(&mem2, c)
                && mem2.holds(c as int, w.bytes()) by {
                assert(v.is_slab(c));
                assert(w.chain_ok(c));
                assert(w.slab_ok(&mem1, c));
                assert forall|x: int|
                    #![trigger mem2.at(x)]
                    w.header(c) <= x < w.header(c) + 8 || w.in_chain(c, x) implies mem2.at(x)
                    == mem1.at(x) by {
                    if 1 < nodes.len() {
                        old(self).lemma_node(bd, &mem0, 1);
                        assert(w.is_slab(v.partial[1]));
                        lemma_record_apart(w, bd, c, v.partial[1], x);
                    } else {
                        lemma_record_apart(w, bd, c, b, x);
                    }
                }
                Self::lemma_slab_kept(w, &mem1, &mem2, c);
            }
            if w.partial.len() != v.partial.len() {
                assert(self.nodes() =~= nodes.remove(0));
            } else {
                assert(self.nodes() =~= nodes);
            }
            assert forall|x: int|
                #![trigger mem2.at(x)]
                mem0.holds(x, 1) && !v.in_records(x) implies mem2.at(x) == mem0.at(x) by {
                assert(v.is_slab(b));
                if 1 < nodes.len() && header_links().covers(nodes[1], x) {
                    old(self).lemma_node(bd, &mem0, 1);
                    assert(v.is_slab(v.partial[1]));
                    assert(v.in_records(x));
                }
            }
        }
        slot
    }

    /// Takes a free slot, of a fresh slab if no slab has one; gives its address, or nothing
    /// if there is no block for a fresh slab either.
    pub fn allocate(&mut self, buddy: &mut BuddyAllocator, mem: &mut Memory) -> (r: Option<u64>)
        requires
            old(self).wf(old(buddy)@, old(mem)),
            old(buddy).wf(old(mem)),
            old(self)@.can_alloc(old(buddy)@),
        ensures
            final(buddy).wf(final(mem)),
            final(self).wf(final(buddy)@, final(mem)),
            final(mem).same_range(old(mem)),
            r is Some <==> old(self)@.has_room(old(buddy)@),
            match r {
                Some(addr) => {
                    &&& addr == old(self)@.next_addr(old(buddy)@)
                    &&& final(self)@ == old(self)@.after_alloc(old(buddy)@)
                    &&& final(buddy)@ == old(self)@.buddy_after_alloc(old(buddy)@)
                },
                None => final(self)@ == old(self)@ && final(buddy)@ == old(buddy)@,
            },
            forall|x: int|
                #![trigger final(mem).at(x)]
                old(mem).holds(x, 1) && !old(buddy)@.in_free(x) && !old(self)@.in_records(x)
                    ==> final(mem).at(x) == old(mem).at(x),
    {
        let ghost v = self@;
        let ghost bd = buddy@;
        let ghost mem0 = *mem;
        proof {
            buddy.lemma_wf(mem);
            if bd.has_room(v.order) {
                let first = bd.addr(bd.next_page(v.order));
                lemma_span(v.order);
                law_alloc_block(bd, v.order);
                assert(bd.in_free(first));
                lemma_free_held(bd, buddy, mem, first);
            }
        }
        if self.partial == 0 {
            proof {
                if v.partial.len() > 0 {
                    self.lemma_node(bd, mem, 0);
                }
            }
            if !self.grow(buddy, mem) {
                return None;
            }
        }
        let ghost w = self@;
        let ghost bd1 = buddy@;
        let ghost mem1 = *mem;
        assert(w == v.readied(bd));
        proof {
            buddy.lemma_wf(mem);
            if !v.grows() {
                assert(*mem == mem0);
            }
        }
        let addr: u64 = self.take_slot(mem, Ghost(bd1));
        proof {
            let b = w.partial[0];
            lemma_popped(w);
            assert(w.partial.contains(b));
            assert forall|x: int|
                #![trigger mem.at(x)]
                bd1.in_free(x) implies mem.at(x) == mem1.at(x) by {
                lemma_free_held(bd1, buddy, &mem1, x);
                if w.in_records(x) {
                    lemma_records_inside(w, x);
                    let c = choose|c: u64| #[trigger] w.is_slab(c) && w.in_slab(c, x);
                    Self::lemma_slabs_apart(w, bd1, c, c);
                    assert(w.in_slab(c, x));
                }
            }
            buddy.lemma_frame(&mem1, mem);
            assert forall|c: u64| #[trigger] self@.is_slab(c) implies self@.slabs[c].len()
                < self@.cap by {
                assert(w.is_slab(c));
                assert(w.chain_ok(c));
                if c != b {
                    assert(v.is_slab(c));
                }
            }
            assert forall|x: int|
                #![trigger mem.at(x)]
                mem0.holds(x, 1) && !bd.in_free(x) && !v.in_records(x) implies mem.at(x)
                == mem0.at(x) by {
                assert(mem1.at(x) == mem0.at(x));
                if w.in_records(x) && v.grows() {
                    Self::lemma_new_block(v, bd);
                    Self::lemma_grown_records(v, bd, x);
                }
            }
        }
        Some(addr)
    }

    /// The records of a cache that grew are those it had, and bytes of a block that was
    /// free.
    proof fn lemma_grown_records(v: SlabView, buddy: BuddyView, x: int)
        requires
            v.sized(),
            v.chained(),
            buddy.valid(),
            buddy.has_room(v.order),
            buddy.addr(buddy.next_page(v.order)) <= u64::MAX,
            !v.is_slab(buddy.addr(buddy.next_page(v.order)) as u64),
            v.grown(buddy.addr(buddy.next_page(v.order)) as u64).in_records(x),
        ensures
            v.in_records(x) || buddy.in_free(x),
    {
        let base = buddy.addr(buddy.next_page(v.order)) as u64;
        let w = v.grown(base);
        let b = choose|b: u64|
            #[trigger] w.is_slab(b) && (w.header(b) <= x < w.header(b) + SLAB_HEADER || w.in_chain(
                b,
                x,
            ));
        lemma_grown(v, base);
        if b == base {
            assert(w.chain_ok(b));
            lemma_slots_apart(w, b, 0, w.cap);
            if w.in_chain(b, x) {
                lemma_chain_inside(w, b, x);
            }
            law_alloc_block(buddy, v.order);
            assert(buddy.in_free(x));
        } else {
            assert(v.is_slab(b));
            if w.in_chain(b, x) {
                let i = choose|i: int|
                    0 <= i < w.slabs[b].len() && w.slot(b, #[trigger] w.slabs[b][i] as int) <= x
                        < w.slot(b, w.slabs[b][i] as int) + 2;
                assert(v.slabs[b][i] == w.slabs[b][i]);
                assert(v.in_chain(b, x));
            }
        }
    }

    /// Tells whether an allocation runs into no limit.
    fn can_allocate(&self, buddy: &BuddyAllocator, mem: &Memory) -> (b: bool)
        requires
            self.wf(buddy@, mem),
            buddy.wf(mem),
        ensures
            b == self@.can_alloc(buddy@),
    {
        if self.stats.alloc_count == u64::MAX {
            return false;
        }
        proof {
            let v = self@;
            buddy.lemma_wf(mem);
            lemma_span(v.order);
            vstd::arithmetic::power2::lemma2_to64();
            vstd::bits::lemma_u64_shl_is_mul(PAGE_SIZE, self.slab_order as u64);
            if !v.grows() {
                assert(node_linked(mem, header_links(), self.nodes(), 0));
            } else {
                assert(self.nodes().len() == 0);
            }
        }
        if self.partial != 0 {
            return true;
        }
        let bytes: u64 = PAGE_SIZE << (self.slab_order as u64);
        buddy.can_allocate(mem, self.slab_order) && buddy.base() % bytes == 0
    }

    /// Takes the object at `ptr` back; a slab left without an object goes back to `buddy`.
    #[verifier::rlimit(40)]
    pub fn dealloc(&mut self, buddy: &mut BuddyAllocator, mem: &mut Memory, ptr: u64)
        requires
            old(self).wf(old(buddy)@, old(mem)),
            old(buddy).wf(old(mem)),
            old(self)@.handed_out(ptr as int),
            old(self)@.stats.dealloc_count < u64::MAX,
        ensures
            final(buddy).wf(final(mem)),
            final(self).wf(final(buddy)@, final(mem)),
            final(mem).same_range(old(mem)),
            final(self)@ == old(self)@.after_dealloc(
                old(self)@.slab_of(ptr as int),
                old(self)@.slot_of(ptr as int),
            ),
            final(buddy)@ == old(self)@.buddy_after_dealloc(
                old(buddy)@,
                old(self)@.slab_of(ptr as int),
            ),
            forall|x: int|
                #![trigger final(mem).at(x)]
                old(mem).holds(x, 1) && !old(buddy)@.in_free(x) && !old(self)@.in_records(x) && !(
                ptr <= x < ptr + 2) && !(old(self)@.empties(
                    old(self)@.slab_of(ptr as int),
                ) && old(self)@.in_slab(old(self)@.slab_of(ptr as int), x)) ==> final(mem).at(x)
                    == old(mem).at(x),
    {
        let ghost v = self@;
        let ghost bd = buddy@;
        let ghost b = v.slab_of(ptr as int);
        let ghost i = v.slot_of(ptr as int);
        let ghost chain = v.slabs[b];
        let ghost w = v.after_dealloc(b, i);
        let ghost mem0 = *mem;
        let ghost nodes = self.nodes();
        let cap: u64 = self.objs_per_slab;
        let size: u64 = self.obj_size;
        proof {
            buddy.lemma_wf(mem);
            lemma_span(v.order);
            vstd::arithmetic::power2::lemma2_to64();
            vstd::bits::lemma_u64_shl_is_mul(PAGE_SIZE, self.slab_order as u64);
            assert(v.is_slab(b));
            assert(v.chain_ok(b));
            assert(v.slab_ok(mem, b));
            lemma_slots_apart(v, b, 0, v.cap);
            lemma_slots_apart(v, b, i, v.cap);
            lemma_returned(v, b, i);
            lemma_slab_start(ptr as int, v.bytes());
        }
        let slab_bytes: u64 = PAGE_SIZE << (self.slab_order as u64);
        let base: u64 = ptr / slab_bytes * slab_bytes;
        assert(base == b);
        let header: u64 = base + cap * size;
        let free_head: u16 = mem.read_u16(header);
        let in_use: u16 = mem.read_u16(header + 2);
        let capacity: u16 = mem.read_u16(header + 4);
        let was_full: bool = in_use == capacity;
        let index: u64 = (ptr - base) / size;
        assert(index == i);
        mem.write_u16(ptr, free_head);
        mem.write_u16(header, index as u16);
        mem.write_u16(header + 2, in_use - 1);
        let ghost mem1 = *mem;
        proof {
            assert forall|c: u64| #[trigger] v.is_slab(c) && c != b implies v.slab_ok(&mem1, c) by {
                assert(v.chain_ok(c));
                Self::lemma_slabs_apart(v, bd, b, c);
                lemma_slots_apart(v, c, 0, v.cap);
                assert forall|x: int|
                    #![trigger mem1.at(x)]
                    v.header(c) <= x < v.header(c) + 8 || v.in_chain(c, x) implies mem1.at(x)
                    == mem0.at(x) by {
                    if v.in_chain(c, x) {
                        lemma_chain_inside(v, c, x);
                    }
                }
                Self::lemma_slab_kept(v, &mem0, &mem1, c);
            }
            assert forall|n: int, x: int|
                #![trigger nodes[n], mem1.at(x)]
                0 <= n < nodes.len() && header_links().covers(nodes[n], x) implies mem1.at(x)
                == mem0.at(x) by {
                self.lemma_node(bd, &mem0, n);
                let c = v.partial[n];
                if c != b {
                    Self::lemma_slabs_apart(v, bd, b, c);
                    lemma_slots_apart(v, c, 0, v.cap);
                }
            }
            links::lemma_linked_frame(&mem0, &mem1, header_links(), nodes);
            assert forall|n: int| 0 <= n < nodes.len() implies #[trigger] nodes[n] == v.header(
                v.partial[n],
            ) && v.is_slab(v.partial[n]) by {
                self.lemma_node(bd, &mem0, n);
            }
            assert(v.partial.contains(b) <==> !was_full);
        }
        if in_use - 1 == 0 {
            if !was_full {
                let ghost at = v.partial.index_of(b);
                let head: u64 = self.partial;
                self.partial = links::unlink(
                    mem,
                    header_links(),
                    head,
                    header,
                    Ghost(nodes),
                    Ghost(at),
                );
            }
            self.slabs = Ghost(w.slabs);
            self.partial_list = Ghost(w.partial);
            self.stats.total_bytes = self.stats.total_bytes - slab_bytes;
            self.stats.dealloc_count = self.stats.dealloc_count + 1;
            self.stats.used_bytes = self.stats.used_bytes - size;
            self.stats.free_bytes = self.stats.free_bytes + size - cap * size;
            let ghost mem2 = *mem;
            proof {
                assert(self@ =~= w);
                assert forall|x: int|
                    #![trigger mem2.at(x)]
                    mem1.holds(x, 1) && (forall|n: int|
                        0 <= n < nodes.len() ==> !header_links().covers(#[trigger] nodes[n], x))
                    implies mem2.at(x) == mem1.at(x) by {
                    if !was_full {
                        let at = v.partial.index_of(b);
                        if at > 0 {
                            assert(!header_links().covers(nodes[at - 1], x));
                        }
                        if at + 1 < nodes.len() {
                            assert(!header_links().covers(nodes[at + 1], x));
                        }
                    }
                }
                assert forall|c: u64| #[trigger] w.is_slab(c) implies w.slab_ok(&mem2, c)
                    && mem2.holds(c as int, w.bytes()) by {
                    assert(v.is_slab(c));
                    assert(w.chain_ok(c));
                    assert(v.slab_ok(&mem1, c));
                    assert(w.slab_ok(&mem1, c)) by {
                        assert forall|n: int| 0 <= n < w.slabs[c].len() implies #[trigger] w.slot_ok(
                            &mem1,
                            c,
                            n,
                        ) by {
                            assert(v.slot_ok(&mem1, c, n));
                        }
                    }
                    Self::lemma_list_touched(v, w, bd, &mem1, &mem2, nodes, c);
                }
                assert(w.placed(bd)) by {
                    assert forall|c: u64| #[trigger] w.is_slab(c) implies c > 0 && c as int
                        % w.bytes() == 0 && bd.handed_out(c as int, w.order) by {
                        assert(v.is_slab(c));
                    }
                }
                if was_full {
                    assert(self.nodes() =~= nodes);
                } else {
                    assert(self.nodes() =~= nodes.remove(v.partial.index_of(b)));
                }
                assert(self.shape(bd, &mem2));
                assert forall|x: int|
                    #![trigger mem2.at(x)]
                    bd.in_free(x) implies mem2.at(x) == mem0.at(x) by {
                    lemma_free_held(bd, buddy, &mem0, x);
                    Self::lemma_touched_inside(v, bd, &mem0, &mem1, &mem2, nodes, b, x);
                }
                buddy.lemma_frame(&mem0, &mem2);
            }
            buddy.dealloc_pages(mem, base, self.slab_order);
            proof {
                let bd2 = buddy@;
                buddy.lemma_wf(mem);
                assert(w.placed(bd2)) by {
                    assert forall|c: u64| #[trigger] w.is_slab(c) implies c > 0 && c as int
                        % w.bytes() == 0 && bd2.handed_out(c as int, w.order) by {
                        assert(v.is_slab(c));
                        assert(bd.page(c as int) != bd.page(b as int));
                    }
                }
                assert forall|x: int|
                    #![trigger mem.at(x)]
                    w.in_records(x) implies mem.at(x) == mem2.at(x) by {
                    lemma_records_inside(w, x);
                    let c = choose|c: u64| #[trigger] w.is_slab(c) && w.in_slab(c, x);
                    assert(v.is_slab(c));
                    Self::lemma_slabs_apart(v, bd, c, b);
                    assert(v.in_slab(c, x));
                }
                self.lemma_shape_frame(bd, bd2, &mem2, mem);
                assert forall|x: int|
                    #![trigger mem.at(x)]
                    mem0.holds(x, 1) && !bd.in_free(x) && !v.in_records(x) && !v.in_slab(b, x)
                    implies mem.at(x) == mem0.at(x) by {
                    Self::lemma_touched_records(v, nodes, x);
                }
            }
        } else {
            if was_full {
                proof {
                    assert forall|n: int| 0 <= n < nodes.len() implies #[trigger] apart(
                        header_links(),
                        header,
                        nodes[n],
                    ) by {
                        let c = v.partial[n];
                        assert(v.partial.contains(c));
                        Self::lemma_slabs_apart(v, bd, b, c);
                        lemma_slots_apart(v, c, 0, v.cap);
                    }
                }
                let head: u64 = self.partial;
                self.partial = links::push_front(mem, header_links(), head, header, Ghost(nodes));
            }
            self.slabs = Ghost(w.slabs);
            self.partial_list = Ghost(w.partial);
            self.stats.dealloc_count = self.stats.dealloc_count + 1;
            self.stats.used_bytes = self.stats.used_bytes - size;
            self.stats.free_bytes = self.stats.free_bytes + size;
            let ghost mem2 = *mem;
            proof {
                assert(self@ =~= w);
                let all = seq![header] + nodes;
                assert forall|x: int|
                    #![trigger mem2.at(x)]
                    mem1.holds(x, 1) && (forall|n: int|
                        0 <= n < all.len() ==> !header_links().covers(#[trigger] all[n], x))
                    implies mem2.at(x) == mem1.at(x) by {
                    if was_full {
                        assert(!header_links().covers(all[0], x));
                        if nodes.len() > 0 {
                            assert(!header_links().covers(all[1], x));
                        }
                    }
                }
                assert forall|n: int| 0 <= n < all.len() implies #[trigger] all[n] == v.header(
                    if n == 0 {
                        b
                    } else {
                        v.partial[n - 1]
                    },
                ) by {
                    if n > 0 {
                        assert(all[n] == nodes[n - 1]);
                    }
                }
                let longer = w.slabs[b];
                assert forall|c: u64| #[trigger] w.is_slab(c) implies w.slab_ok(&mem2, c)
                    && mem2.holds(c as int, w.bytes()) by {
                    assert(v.is_slab(c));
                    assert(w.chain_ok(c));
                    assert(w.slab_ok(&mem1, c)) by {
                        assert forall|n: int| 0 <= n < w.slabs[c].len() implies #[trigger] w.slot_ok(
                            &mem1,
                            c,
                            n,
                        ) by {
                            if c != b {
                                assert(v.slot_ok(&mem1, c, n));
                            } else if n > 0 {
                                assert(longer[n] == chain[n - 1]);
                                assert(v.slot_ok(&mem0, b, n - 1));
                                assert(chain.contains(chain[n - 1]));
                                let q = chain[n - 1] as int;
                                lemma_slots_apart(v, b, q, v.cap);
                                if q < i {
                                    lemma_slots_apart(v, b, q, i);
                                } else {
                                    lemma_slots_apart(v, b, i, q);
                                }
                            }
                        }
                        if c != b {
                            assert(v.slab_ok(&mem1, c));
                        }
                    }
                    assert forall|x: int|
                        #![trigger mem2.at(x)]
                        w.header(c) <= x < w.header(c) + 8 || w.in_chain(c, x) implies mem2.at(x)
                        == mem1.at(x) by {
                        assert(w.placed(bd)) by {
                            assert forall|d: u64| #[trigger] w.is_slab(d) implies d > 0 && d as int
                                % w.bytes() == 0 && bd.handed_out(d as int, w.order) by {
                                assert(v.is_slab(d));
                            }
                        }
                        lemma_record_apart(w, bd, c, b, x);
                        assert forall|n: int| 0 <= n < all.len() implies !header_links().covers(
                            #[trigger] all[n],
                            x,
                        ) by {
                            if n > 0 {
                                let d = v.partial[n - 1];
                                assert(v.is_slab(d)) by {
                                    assert(v.partial.contains(d));
                                }
                                assert(w.is_slab(d));
                                lemma_record_apart(w, bd, c, d, x);
                            }
                        }
                    }
                    Self::lemma_slab_kept(w, &mem1, &mem2, c);
                }
                assert(w.placed(bd)) by {
                    assert forall|c: u64| #[trigger] w.is_slab(c) implies c > 0 && c as int
                        % w.bytes() == 0 && bd.handed_out(c as int, w.order) by {
                        assert(v.is_slab(c));
                    }
                }
                if was_full {
                    assert(self.nodes() =~= all);
                } else {
                    assert(self.nodes() =~= nodes);
                }
                assert(self.shape(bd, &mem2));
                assert forall|x: int|
                    #![trigger mem2.at(x)]
                    mem0.holds(x, 1) && !v.in_records(x) && !(ptr <= x < ptr + 2) implies mem2.at(
                    x,
                ) == mem0.at(x) by {
                    assert(v.is_slab(b));
                    assert forall|n: int| 0 <= n < all.len() implies !header_links().covers(
                        #[trigger] all[n],
                        x,
                    ) by {
                        if n > 0 {
                            assert(v.partial.contains(v.partial[n - 1]));
                            assert(v.is_slab(v.partial[n - 1]));
                        }
                    }
                }
                assert forall|x: int|
                    #![trigger mem2.at(x)]
                    bd.in_free(x) implies mem2.at(x) == mem0.at(x) by {
                    lemma_free_held(bd, buddy, &mem0, x);
                    Self::lemma_slabs_apart(v, bd, b, b);
                    assert(!v.in_slab(b, x));
                    if v.in_records(x) {
                        lemma_records_inside(v, x);
                        let c = choose|c: u64| #[trigger] v.is_slab(c) && v.in_slab(c, x);
                        Self::lemma_slabs_apart(v, bd, c, c);
                        assert(v.in_slab(c, x));
                    }
                }
                buddy.lemma_frame(&mem0, &mem2);
            }
        }
    }

    /// Relinking the list leaves counts and chains alone.
    proof fn lemma_list_touched(
        v: SlabView,
        w: SlabView,
        buddy: BuddyView,
        before: &Memory,
        after: &Memory,
        nodes: Seq<u64>,
        c: u64,
    )
        requires
            v.sized(),
            v.chained(),
            v.placed(buddy),
            buddy.valid(),
            w.size == v.size,
            w.cap == v.cap,
            w.order == v.order,
            v.is_slab(c),
            w.slabs[c] == v.slabs[c],
            w.chain_ok(c),
            w.slab_ok(before, c),
            before.holds(c as int, v.bytes()),
            nodes.len() == v.partial.len(),
            forall|n: int|
                0 <= n < nodes.len() ==> #[trigger] nodes[n] == v.header(v.partial[n]) && v.is_slab(
                    v.partial[n],
                ),
            forall|x: int|
                #![trigger after.at(x)]
                before.holds(x, 1) && (forall|n: int|
                    0 <= n < nodes.len() ==> !header_links().covers(#[trigger] nodes[n], x))
                    ==> after.at(x) == before.at(x),
        ensures
            w.slab_ok(after, c),
    {
        assert forall|x: int|
            #![trigger after.at(x)]
            w.header(c) <= x < w.header(c) + 8 || w.in_chain(c, x) implies after.at(x) == before.at(
            x,
        ) by {
            if w.in_chain(c, x) {
                let i = choose|i: int|
                    0 <= i < w.slabs[c].len() && w.slot(c, #[trigger] w.slabs[c][i] as int) <= x
                        < w.slot(c, w.slabs[c][i] as int) + 2;
                assert(v.slabs[c][i] == w.slabs[c][i]);
                assert(v.in_chain(c, x));
            }
            lemma_record_apart(v, buddy, c, c, x);
            assert forall|n: int| 0 <= n < nodes.len() implies !header_links().covers(
                #[trigger] nodes[n],
                x,
            ) by {
                assert(nodes[n] == v.header(v.partial[n]));
                lemma_record_apart(v, buddy, c, v.partial[n], x);
            }
        }
        Self::lemma_slab_kept(w, before, after, c);
    }

    /// Free page space is no header.
    proof fn lemma_touched_inside(
        v: SlabView,
        buddy: BuddyView,
        mem0: &Memory,
        mem1: &Memory,
        mem2: &Memory,
        nodes: Seq<u64>,
        b: u64,
        x: int,
    )
        requires
            v.sized(),
            v.chained(),
            v.placed(buddy),
            buddy.valid(),
            v.is_slab(b),
            mem0.holds(x, 1),
            mem1.same_range(mem0),
            buddy.in_free(x),
            nodes.len() == v.partial.len(),
            forall|n: int|
                0 <= n < nodes.len() ==> #[trigger] nodes[n] == v.header(v.partial[n]) && v.is_slab(
                    v.partial[n],
                ),
            !v.in_slab(b, x) ==> mem1.at(x) == mem0.at(x),
            mem1.holds(x, 1) && (forall|n: int|
                0 <= n < nodes.len() ==> !header_links().covers(#[trigger] nodes[n], x)) ==> mem2.at(
                x,
            ) == mem1.at(x),
        ensures
            mem2.at(x) == mem0.at(x),
    {
        Self::lemma_slabs_apart(v, buddy, b, b);
        assert(!v.in_slab(b, x));
        assert forall|n: int| 0 <= n < nodes.len() implies !header_links().covers(
            #[trigger] nodes[n],
            x,
        ) by {
            let c = v.partial[n];
            assert(nodes[n] == v.header(c));
            Self::lemma_slabs_apart(v, buddy, c, c);
            assert(!v.in_slab(c, x));
            lemma_slots_apart(v, c, 0, v.cap);
        }
    }

    /// The links of the list are records.
    proof fn lemma_touched_records(v: SlabView, nodes: Seq<u64>, x: int)
        requires
            !v.in_records(x),
            nodes.len() == v.partial.len(),
            forall|n: int|
                0 <= n < nodes.len() ==> #[trigger] nodes[n] == v.header(v.partial[n]) && v.is_slab(
                    v.partial[n],
                ),
        ensures
            forall|n: int|
                0 <= n < nodes.len() ==> !header_links().covers(#[trigger] nodes[n], x),
    {
    }
}

/// Where a slab starts does not exceed an address in it.
proof fn lemma_slab_start(a: int, bytes: int)
    requires
        0 <= a,
        0 < bytes,
    ensures
        0 <= a / bytes * bytes <= a < a / bytes * bytes + bytes,
{
    vstd::arithmetic::div_mod::lemma_fundamental_div_mod(a, bytes);
    let q = a / bytes;
    assert(q * bytes == bytes * q) by (nonlinear_arith);
    assert(q >= 0) by (nonlinear_arith)
        requires
            q == a / bytes,
            a >= 0,
            bytes > 0,
    ;
    assert(q * bytes >= 0) by (nonlinear_arith)
        requires
            q >= 0,
            bytes > 0,
    ;
}

/// A block of an aligned base, at a multiple of its size in pages, is aligned to its bytes.
proof fn lemma_aligned_block(base: int, p: int, k: int)
    requires
        0 <= k < BUDDY_MAX_ORDER,
        base % (span(k) * PAGE_SIZE) == 0,
        p % span(k) == 0,
    ensures
        (base + p * PAGE_SIZE) % (span(k) * PAGE_SIZE) == 0,
{
    lemma_span(k);
    let m = span(k);
    let bytes = m * PAGE_SIZE;
    let q = p / m;
    let c = base / bytes;
    vstd::arithmetic::div_mod::lemma_fundamental_div_mod(p, m);
    vstd::arithmetic::div_mod::lemma_fundamental_div_mod(base, bytes);
    assert(p * 4096 == q * bytes) by (nonlinear_arith)
        requires
            p == m * q + 0,
            bytes == m * 4096,
    ;
    assert(base + p * PAGE_SIZE == (c + q) * bytes) by (nonlinear_arith)
        requires
            base == bytes * c + 0,
            p * 4096 == q * bytes,
            PAGE_SIZE == 4096,
    ;
    vstd::arithmetic::div_mod::lemma_mod_multiples_basic(c + q, bytes);
}

/// The records of a cache lie in its slabs.
proof fn lemma_records_inside(v: SlabView, x: int)
    requires
        v.sized(),
        v.chained(),
        v.in_records(x),
    ensures
        exists|b: u64| #[trigger] v.is_slab(b) && v.in_slab(b, x),
{
    let b = choose|b: u64|
        #[trigger] v.is_slab(b) && (v.header(b) <= x < v.header(b) + SLAB_HEADER || v.in_chain(
            b,
            x,
        ));
    assert(v.chain_ok(b));
    lemma_slots_apart(v, b, 0, v.cap);
    if v.in_chain(b, x) {
        lemma_chain_inside(v, b, x);
    }
    assert(v.is_slab(b) && v.in_slab(b, x));
}

/// The numbers of free slots lie in the slots.
proof fn lemma_chain_inside(v: SlabView, b: u64, x: int)
    requires
        v.sized(),
        v.chain_ok(b),
        v.in_chain(b, x),
    ensures
        b <= x < v.header(b),
{
    let i = choose|i: int|
        0 <= i < v.slabs[b].len() && v.slot(b, #[trigger] v.slabs[b][i] as int) <= x < v.slot(
            b,
            v.slabs[b][i] as int,
        ) + 2;
    lemma_slots_apart(v, b, v.slabs[b][i] as int, v.cap);
}

/// The links of one header are no record of counts or chains.
proof fn lemma_record_apart(v: SlabView, buddy: BuddyView, b: u64, c: u64, x: int)
    requires
        v.sized(),
        v.chained(),
        v.placed(buddy),
        buddy.valid(),
        v.is_slab(b),
        v.is_slab(c),
        v.header(b) <= x < v.header(b) + 8 || v.in_chain(b, x),
    ensures
        !(v.header(c) + 8 <= x < v.header(c) + 24),
        v.in_slab(b, x),
{
    lemma_slots_apart(v, b, 0, v.cap);
    lemma_slots_apart(v, c, 0, v.cap);
    assert(v.chain_ok(b));
    if v.in_chain(b, x) {
        lemma_chain_inside(v, b, x);
    }
    SlabCacheInner::lemma_slabs_apart(v, buddy, b, c);
}

/// A free byte of the buddy allocator is a byte of the memory.
proof fn lemma_free_held(view: BuddyView, buddy: &BuddyAllocator, mem: &Memory, x: int)
    requires
        buddy.wf(mem),
        view == buddy@,
        view.in_free(x),
    ensures
        mem.holds(x, 1),
{
    buddy.lemma_wf(mem);
    let (q, j) = choose|q: int, j: int| #[trigger]
        view.is_free(q, j) && view.addr(q) <= x < view.addr(q + span(j));
    assert(view.is_block(q, j));
}

/// Slots of a slab of order `order` for objects of a size and an alignment.
pub open spec fn capacity(size: int, align: int, order: int) -> int {
    if size == 0 {
        0
    } else {
        (span(order) * PAGE_SIZE - SLAB_HEADER) / align * align / size
    }
}

/// So many objects and the header fit in a slab; one more would not, or would end less than
/// the alignment in front of the header.
pub proof fn law_capacity(size: int, align: int, order: int)
    requires
        size > 0,
        1 <= align <= PAGE_SIZE,
        0 <= order < BUDDY_MAX_ORDER,
    ensures
        0 <= capacity(size, align, order),
        capacity(size, align, order) * size + 24 <= span(order) * 4096,
        (capacity(size, align, order) + 1) * size + 24 + align > span(order) * 4096,
{
    lemma_span(order);
    let room = span(order) * PAGE_SIZE - SLAB_HEADER;
    let usable = room / align * align;
    let n = usable / size;
    vstd::arithmetic::div_mod::lemma_fundamental_div_mod(room, align);
    vstd::arithmetic::div_mod::lemma_fundamental_div_mod(usable, size);
    assert(align * (room / align) == usable) by (nonlinear_arith)
        requires
            usable == room / align * align,
    ;
    assert(n >= 0 && size * n == n * size && (n + 1) * size == n * size + size) by (nonlinear_arith)
        requires
            n == usable / size,
            usable >= 0,
            size > 0,
    ;
}

/// Objects of type `T` can be kept in slabs of order `order`.
pub open spec fn cacheable<T>(order: int) -> bool {
    let size = vstd::layout::size_of::<T>() as int;
    let align = vstd::layout::align_of::<T>() as int;
    &&& 0 <= order < BUDDY_MAX_ORDER
    &&& size >= 2
    &&& align <= PAGE_SIZE
    &&& 1 <= capacity(size, align, order) <= NO_SLOT
}

/// Tells whether objects of type `T` can be kept in slabs of order `order`.
pub fn fits<T>(order: usize) -> (b: bool)
    ensures
        b == cacheable::<T>(order as int),
{
    vstd::layout::layout_for_type_is_valid::<T>();
    if order >= BUDDY_MAX_ORDER || core::mem::size_of::<T>() < 2 || core::mem::align_of::<T>() as u64
        > PAGE_SIZE {
        return false;
    }
    let (objs_per_slab, _slab_bytes) = compute::<T>(order);
    1 <= objs_per_slab && objs_per_slab <= NO_SLOT as u64
}

/// Slots of a slab, and its bytes.
fn compute<T>(order: usize) -> (r: (u64, u64))
    requires
        order < BUDDY_MAX_ORDER,
    ensures
        r.0 == capacity(
            vstd::layout::size_of::<T>() as int,
            vstd::layout::align_of::<T>() as int,
            order as int,
        ),
        r.1 == span(order as int) * PAGE_SIZE,
        vstd::layout::size_of::<T>() > 0 ==> r.0 * vstd::layout::size_of::<T>() + SLAB_HEADER
            <= r.1,
{
    vstd::layout::layout_for_type_is_valid::<T>();
    proof {
        lemma_span(order as int);
        vstd::arithmetic::power2::lemma2_to64();
        vstd::bits::lemma_u64_shl_is_mul(PAGE_SIZE, order as u64);
    }
    let slab_bytes: u64 = PAGE_SIZE << (order as u64);
    let obj_size: u64 = core::mem::size_of::<T>() as u64;
    let obj_align: u64 = core::mem::align_of::<T>() as u64;
    proof {
        lemma_slab_start(slab_bytes - SLAB_HEADER, obj_align as int);
    }
    let usable: u64 = (slab_bytes - SLAB_HEADER) / obj_align * obj_align;
    let slots: u64 = if obj_size == 0 {
        0
    } else {
        proof {
            lemma_slab_start(usable as int, obj_size as int);
        }
        usable / obj_size
    };
    (slots, slab_bytes)
}

/// A cache of objects of type `T`.
pub struct SlabCache<T: Send> {
    inner: SlabCacheInner,
    marker: PhantomData<T>,
}

impl<T: Send> View for SlabCache<T> {
    type V = SlabView;

    closed spec fn view(&self) -> SlabView {
        self.inner@
    }
}

impl<T: Send> SlabCache<T> {
    /// The cache is consistent, and its slabs are blocks of `buddy` in `mem`.
    pub closed spec fn wf(&self, buddy: BuddyView, mem: &Memory) -> bool {
        &&& self.inner.wf(buddy, mem)
        &&& cacheable::<T>(self@.order)
        &&& self@.size == vstd::layout::size_of::<T>()
    }

    /// What a consistent cache promises.
    pub proof fn lemma_wf(&self, buddy: BuddyView, mem: &Memory)
        requires
            self.wf(buddy, mem),
        ensures
            mem.wf(),
            self@.valid(),
            self@.placed(buddy),
    {
        self.inner.lemma_wf(buddy, mem);
    }

    /// A consistent cache stays so while its records stay and its blocks stay handed out.
    pub proof fn lemma_frame(
        &self,
        buddy: BuddyView,
        buddy_after: BuddyView,
        before: &Memory,
        after: &Memory,
    )
        requires
            self.wf(buddy, before),
            self@.placed(buddy_after),
            after.wf(),
            after.same_range(before),
            forall|x: int|
                #![trigger after.at(x)]
                self@.in_records(x) ==> after.at(x) == before.at(x),
        ensures
            self.wf(buddy_after, after),
    {
        self.inner.lemma_frame(buddy, buddy_after, before, after);
    }

    /// A cache whose slabs are blocks of order `slab_order`, without a slab.
    pub fn new(slab_order: usize) -> (c: Self)
        requires
            cacheable::<T>(slab_order as int),
        ensures
            c@ == SlabView::empty(
                vstd::layout::size_of::<T>() as int,
                capacity(
                    vstd::layout::size_of::<T>() as int,
                    vstd::layout::align_of::<T>() as int,
                    slab_order as int,
                ),
                slab_order as int,
            ),
            forall|buddy: BuddyView, mem: Memory| mem.wf() ==> #[trigger] c.wf(buddy, &mem),
    {
        let (objs_per_slab, _slab_bytes) = compute::<T>(slab_order);
        let c = SlabCache {
            inner: SlabCacheInner::new(
                slab_order,
                core::mem::size_of::<T>() as u64,
                objs_per_slab,
            ),
            marker: PhantomData,
        };
        proof {
            assert forall|buddy: BuddyView, mem: Memory| mem.wf() implies #[trigger] c.wf(
                buddy,
                &mem,
            ) by {
                assert(c.inner.wf(buddy, &mem));
            }
        }
        c
    }

    /// Tells whether an allocation runs into no limit.
    pub fn can_allocate(&self, buddy: &BuddyAllocator, mem: &Memory) -> (b: bool)
        requires
            self.wf(buddy@, mem),
            buddy.wf(mem),
        ensures
            b == self@.can_alloc(buddy@),
    {
        self.inner.can_allocate(buddy, mem)
    }

    /// Takes a place for one object; gives its address, or nothing if there is none.
    pub fn allocate(&mut self, buddy: &mut BuddyAllocator, mem: &mut Memory) -> (r: Option<u64>)
        requires
            old(self).wf(old(buddy)@, old(mem)),
            old(buddy).wf(old(mem)),
            old(self)@.can_alloc(old(buddy)@),
        ensures
            final(buddy).wf(final(mem)),
            final(self).wf(final(buddy)@, final(mem)),
            final(mem).same_range(old(mem)),
            r is Some <==> old(self)@.has_room(old(buddy)@),
            match r {
                Some(addr) => {
                    &&& addr == old(self)@.next_addr(old(buddy)@)
                    &&& final(self)@ == old(self)@.after_alloc(old(buddy)@)
                    &&& final(buddy)@ == old(self)@.buddy_after_alloc(old(buddy)@)
                    &&& addr as int % vstd::layout::align_of::<T>() as int == 0
                },
                None => final(self)@ == old(self)@ && final(buddy)@ == old(buddy)@,
            },
            forall|x: int|
                #![trigger final(mem).at(x)]
                old(mem).holds(x, 1) && !old(buddy)@.in_free(x) && !old(self)@.in_records(x)
                    ==> final(mem).at(x) == old(mem).at(x),
    {
        let ghost v = self@;
        vstd::layout::layout_for_type_is_valid::<T>();
        let r = self.inner.allocate(buddy, mem);
        proof {
            if let Some(addr) = r {
                let w = v.readied(old(buddy)@);
                let b = w.partial[0];
                self.inner.lemma_wf(buddy@, mem);
                old(self).inner.lemma_wf(old(buddy)@, old(mem));
                lemma_source(v, old(buddy)@);
                assert(self@.is_slab(b));
                lemma_slot_aligned(
                    b as int,
                    w.next_slot() as int,
                    v.size,
                    vstd::layout::align_of::<T>() as int,
                    v.bytes(),
                    v.order,
                );
            }
        }
        r
    }

    /// Takes back the object at `ptr`.
    pub fn dealloc(&mut self, buddy: &mut BuddyAllocator, mem: &mut Memory, ptr: u64)
        requires
            old(self).wf(old(buddy)@, old(mem)),
            old(buddy).wf(old(mem)),
            old(self)@.handed_out(ptr as int),
            old(self)@.stats.dealloc_count < u64::MAX,
        ensures
            final(buddy).wf(final(mem)),
            final(self).wf(final(buddy)@, final(mem)),
            final(mem).same_range(old(mem)),
            final(self)@ == old(self)@.after_dealloc(
                old(self)@.slab_of(ptr as int),
                old(self)@.slot_of(ptr as int),
            ),
            final(buddy)@ == old(self)@.buddy_after_dealloc(
                old(buddy)@,
                old(self)@.slab_of(ptr as int),
            ),
            forall|x: int|
                #![trigger final(mem).at(x)]
                old(mem).holds(x, 1) && !old(buddy)@.in_free(x) && !old(self)@.in_records(x) && !(
                ptr <= x < ptr + 2) && !(old(self)@.empties(
                    old(self)@.slab_of(ptr as int),
                ) && old(self)@.in_slab(old(self)@.slab_of(ptr as int), x)) ==> final(mem).at(x)
                    == old(mem).at(x),
    {
        self.inner.dealloc(buddy, mem, ptr);
    }

    /// The counters.
    pub fn stats(&self) -> (s: AllocStats)
        ensures
            s == self@.stats,
    {
        self.inner.stats
    }
}

/// The slab that an allocation takes its slot from is first in the list.
proof fn lemma_source(v: SlabView, buddy: BuddyView)
    requires
        v.valid(),
    ensures
        v.after_alloc(buddy).is_slab(v.readied(buddy).partial[0]),
{
    let w = v.readied(buddy);
    if v.grows() {
        assert(w.partial[0] == v.source(buddy));
        assert(w.is_slab(w.partial[0]));
    } else {
        assert(v.partial.contains(v.partial[0]));
        assert(w.is_slab(w.partial[0]));
    }
}

/// A slot of an aligned slab is aligned, where the object size is a multiple of the
/// alignment.
proof fn lemma_slot_aligned(b: int, i: int, size: int, align: int, bytes: int, order: int)
    requires
        0 <= order < BUDDY_MAX_ORDER,
        bytes == span(order) * PAGE_SIZE,
        b % bytes == 0,
        vstd::arithmetic::power2::is_pow2(align),
        0 < align <= PAGE_SIZE,
        size % align == 0,
    ensures
        (b + i * size) % align == 0,
{
    lemma_span(order);
    vstd::arithmetic::power2::lemma2_to64();
    vstd::arithmetic::power2::is_pow2_equiv(align);
    let e = choose|e: nat| vstd::arithmetic::power::pow(2, e) == align;
    vstd::arithmetic::power2::lemma_pow2(e);
    if e > 12 {
        vstd::arithmetic::power2::lemma_pow2_strictly_increases(12, e);
    }
    let r = vstd::arithmetic::power2::pow2((12 - e) as nat) as int;
    vstd::arithmetic::power2::lemma_pow2_adds(e, (12 - e) as nat);
    let m = span(order);
    let q = b / bytes;
    let s = size / align;
    vstd::arithmetic::div_mod::lemma_fundamental_div_mod(b, bytes);
    vstd::arithmetic::div_mod::lemma_fundamental_div_mod(size, align);
    let page = align * r;
    let mq = m * q;
    let x = mq * r;
    let y = i * s;
    assert(b == mq * page) by (nonlinear_arith)
        requires
            b == bytes * q,
            bytes == m * page,
            mq == m * q,
    ;
    assert(mq * page == x * align) by (nonlinear_arith)
        requires
            page == align * r,
            x == mq * r,
    ;
    assert(i * size == y * align) by (nonlinear_arith)
        requires
            size == align * s,
            y == i * s,
    ;
    assert(x * align + y * align == (x + y) * align) by (nonlinear_arith);
    vstd::arithmetic::div_mod::lemma_mod_multiples_basic(x + y, align);
}

/// Checks that objects of type `T` can be kept in slabs: a free slot must hold the number
/// of the next one, and page blocks must be aligned enough.
pub fn assert_slab_compatible<T>() -> (r: Result<(), &'static str>)
    ensures
        r is Ok <==> vstd::layout::size_of::<T>() >= 2 && vstd::layout::align_of::<T>() <= PAGE_SIZE,
        match r {
            Ok(_) => true,
            Err(m) => m@ == (if vstd::layout::size_of::<T>() < 2 {
                "SlabCache<T>: T must be at least 2 bytes (free-list index storage)"@
            } else {
                "SlabCache<T>: T alignment exceeds PAGE_SIZE"@
            }),
        },
{
    if core::mem::size_of::<T>() < 2 {
        return Err("SlabCache<T>: T must be at least 2 bytes (free-list index storage)");
    }
    if core::mem::align_of::<T>() as u64 > PAGE_SIZE {
        return Err("SlabCache<T>: T alignment exceeds PAGE_SIZE");
    }
    Ok(())
}

/// Objects can be kept in slabs of an order that there is exactly if they have room for a
/// number, ask for no more than the alignment of a page, and as many fit as can be numbered.
pub proof fn law_cacheable<T>(order: int)
    ensures
        cacheable::<T>(order) <==> {
            let size = vstd::layout::size_of::<T>() as int;
            let align = vstd::layout::align_of::<T>() as int;
            &&& 0 <= order < 11
            &&& size >= 2
            &&& align <= 4096
            &&& capacity(size, align, order) >= 1
            &&& capacity(size, align, order) <= 0xffff
        },
{
}

/// A cache gives a place for an object exactly if a slab of its has a free slot or the buddy
/// allocator has a free block of the order of its slabs or a larger one. The place was not
/// handed out, and whatever was stays handed out.
pub proof fn law_allocate<T: Send>(
    cache: &mut SlabCache<T>,
    buddy: &mut BuddyAllocator,
    mem: &mut Memory,
    r: Option<u64>,
    c: u64,
    j: int,
)
    requires
        old(cache).wf(old(buddy)@, old(mem)),
        old(buddy).wf(old(mem)),
        old(cache)@.can_alloc(old(buddy)@),
        call_ensures(SlabCache::<T>::allocate, (cache, buddy, mem), r),
    ensures
        r is Some <==> (exists|b: u64| #[trigger]
            old(cache)@.is_slab(b) && old(cache)@.slabs[b].len() > 0) || (exists|p: int, k: int|
            old(cache)@.order <= k && #[trigger] old(buddy)@.is_free(p, k)),
        r is Some ==> final(cache)@.handed_out(r->0 as int),
        r is Some && old(cache)@.is_live(c, j) ==> final(cache)@.is_live(c, j) && old(cache)@.slot(
            c,
            j,
        ) != r->0,
{
    let v = old(cache)@;
    let bd = old(buddy)@;
    old(cache).lemma_wf(bd, old(mem));
    old(buddy).lemma_wf(old(mem));
    slab_laws::law_room(v, bd);
    if r is Some {
        lemma_growth_address(v, bd, old(buddy), old(mem));
        slab_laws::law_alloc_valid(v, bd);
        let b = v.source(bd);
        let i = v.readied(bd).next_slot() as int;
        slab_laws::law_alloc_one_more(v, bd, b, i);
        slab_laws::law_alloc_one_more(v, bd, c, j);
        let w = final(cache)@;
        final(cache).lemma_wf(final(buddy)@, final(mem));
        slab_laws::law_handed_out(w, final(buddy)@, b, i);
        if v.is_live(c, j) {
            final(buddy).lemma_wf(final(mem));
            slab_laws::law_objects_apart(w, final(buddy)@, b, i, c, j);
        }
    }
}

/// A cache that has to grow gets a block at an address of the machine.
proof fn lemma_growth_address(v: SlabView, bd: BuddyView, buddy: &BuddyAllocator, mem: &Memory)
    requires
        bd == buddy@,
        buddy.wf(mem),
        v.sized(),
        v.has_room(bd),
    ensures
        v.grows() ==> 0 < bd.addr(bd.next_page(v.order)) <= u64::MAX,
{
    buddy.lemma_wf(mem);
    if v.grows() {
        let first = bd.addr(bd.next_page(v.order));
        lemma_span(v.order);
        law_alloc_block(bd, v.order);
        assert(bd.in_free(first));
        lemma_free_held(bd, buddy, mem, first);
    }
}

} // verus!
