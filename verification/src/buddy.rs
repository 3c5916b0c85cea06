//! Binary buddy allocator for page blocks.
//!
//! Blocks are always `2^k` pages long. The free blocks of each order form a doubly linked
//! list threaded through the blocks themselves, and a companion bitmap holds one bit per
//! pair of buddies: it is set while exactly one of the two is free.

pub mod laws;
pub mod model;

use crate::bitmap::{Bitmap, BITMAP_BITS};
use crate::buddy::model::{
    buddy_of, carve_fits, carve_order, carved, fitting_order, given_back, inserted, largest_order,
    lemma_carve_order, lemma_fitting_order, lemma_halves, lemma_pair, lemma_pair_members,
    lemma_pair_monotone, lemma_seq_remove, lemma_span, lower_of_pair, pair_of, removed, span,
    split_down, BuddyView,
};
use crate::framework::{AllocStats, BUDDY_MAX_ORDER, PAGE_SIZE};
use crate::links::{self, apart, linked, node_at, node_linked, Links};
use crate::memory::Memory;
use vstd::arithmetic::div_mod::lemma_mod_multiples_basic;
use vstd::prelude::*;

verus! {

/// A free block keeps its links in its first sixteen bytes.
spec fn block_links_spec() -> Links {
    Links { prev: 0, next: 8, size: 16 }
}

/// Where a free block keeps its links.
#[verifier::when_used_as_spec(block_links_spec)]
fn block_links() -> (l: Links)
    ensures
        l == block_links_spec(),
{
    Links { prev: 0, next: 8, size: 16 }
}

/// The addresses of `pages`.
pub open spec fn addresses(base: int, pages: Seq<int>) -> Seq<u64> {
    Seq::new(pages.len(), |i: int| (base + pages[i] * PAGE_SIZE) as u64)
}

/// Manages the pages of one or more regions as blocks of `2^k` pages.
pub struct BuddyAllocator {
    base: u64,
    total_pages: u64,
    free_lists: [u64; BUDDY_MAX_ORDER],
    bitmaps: [Bitmap; BUDDY_MAX_ORDER],
    stats: AllocStats,
    lists: Ghost<Seq<Seq<int>>>,
    live: Ghost<Seq<Set<int>>>,
}

impl View for BuddyAllocator {
    type V = BuddyView;

    closed spec fn view(&self) -> BuddyView {
        BuddyView {
            base: self.base as int,
            total_pages: self.total_pages as int,
            lists: self.lists@,
            live: self.live@,
            stats: self.stats,
        }
    }
}

impl BuddyAllocator {
    /// The nodes of the free list of order `k`.
    spec fn nodes(&self, k: int) -> Seq<u64> {
        addresses(self@.base, self@.lists[k])
    }

    /// The list of order `k` is linked in `mem` and starts at its head.
    spec fn list_ok(&self, mem: &Memory, k: int) -> bool {
        &&& self.free_lists@[k] == node_at(self.nodes(k), 0)
        &&& linked(mem, block_links(), self.nodes(k))
    }

    /// Bit `i` of order `k` tells whether exactly one block of pair `i` is free.
    spec fn bit_ok(&self, k: int, i: int) -> bool {
        self.bitmaps@[k].bit(i) == (self@.is_free(i * span(k + 1), k) != self@.is_free(
            i * span(k + 1) + span(k),
            k,
        ))
    }

    /// Bit `i` in the bitmap of order `k`.
    pub closed spec fn pair_bit(&self, k: int, i: int) -> bool {
        self.bitmaps@[k].bit(i)
    }

    /// `mem` holds every block, free or live.
    pub open spec fn held(&self, mem: &Memory) -> bool {
        forall|p: int, k: int| #[trigger]
            self@.is_block(p, k) ==> mem.holds(self@.addr(p), span(k) * PAGE_SIZE)
    }

    /// The lists and bitmaps agree with the blocks.
    closed spec fn shape(&self, mem: &Memory) -> bool {
        &&& mem.wf()
        &&& self@.blocks_ok()
        &&& self.held(mem)
        &&& forall|k: int| 0 <= k < BUDDY_MAX_ORDER ==> #[trigger] self.list_ok(mem, k)
        &&& forall|k: int, i: int|
            0 <= k < BUDDY_MAX_ORDER && 0 <= i < BITMAP_BITS ==> #[trigger] self.bit_ok(k, i)
    }

    /// The allocator is consistent and its blocks lie in `mem`.
    pub closed spec fn wf(&self, mem: &Memory) -> bool {
        self.shape(mem) && self@.counted()
    }

    /// What a consistent allocator promises.
    pub proof fn lemma_wf(&self, mem: &Memory)
        requires
            self.wf(mem),
        ensures
            mem.wf(),
            self@.valid(),
            self.held(mem),
    {
    }

    /// Bit `i` in the bitmap of order `k` is set exactly if one of the two blocks of pair `i`
    /// of that order is free and the other is not.
    pub proof fn law_pair_bit(&self, mem: &Memory, k: int, i: int)
        requires
            self.wf(mem),
            0 <= k < BUDDY_MAX_ORDER,
            0 <= i < BITMAP_BITS,
        ensures
            self.pair_bit(k, i) == (self@.is_free(i * span(k + 1), k) != self@.is_free(
                i * span(k + 1) + span(k),
                k,
            )),
            buddy_of(i * span(k + 1), k) == i * span(k + 1) + span(k),
    {
        assert(self.bit_ok(k, i));
        lemma_span(k);
        lemma_mod_multiples_basic(i, span(k + 1));
    }

    /// An allocator whose lists are linked in `before` has them linked in `after` too,
    /// where the two agree on every free block.
    proof fn lemma_shape_frame(&self, before: &Memory, after: &Memory)
        requires
            self.shape(before),
            after.wf(),
            after.same_range(before),
            forall|a: int|
                #![trigger after.at(a)]
                self@.in_free(a) ==> after.at(a) == before.at(a),
        ensures
            self.shape(after),
    {
        assert forall|k: int| 0 <= k < BUDDY_MAX_ORDER implies #[trigger] self.list_ok(after, k) by {
            assert(self.list_ok(before, k));
            let nodes = self.nodes(k);
            assert forall|i: int, a: int|
                #![trigger nodes[i], after.at(a)]
                0 <= i < nodes.len() && block_links().covers(nodes[i], a) implies after.at(a) == before.at(
                a,
            ) by {
                let p = self@.lists[k][i];
                assert(self@.is_free(p, k));
                assert(self@.is_block(p, k));
                lemma_span(k);
                assert(self@.in_free(a));
            }
            links::lemma_linked_frame(before, after, block_links(), nodes);
        }
    }

    /// The counters have no part in the shape.
    proof fn lemma_same_shape(&self, other: &Self, mem: &Memory)
        requires
            other.shape(mem),
            self.base == other.base,
            self.free_lists == other.free_lists,
            self.bitmaps == other.bitmaps,
            self.lists == other.lists,
            self.live == other.live,
        ensures
            self.shape(mem),
    {
        let v = self@;
        let w = other@;
        assert forall|p: int, k: int| #[trigger] v.is_free(p, k) == w.is_free(p, k) by {}
        assert forall|p: int, k: int| #[trigger] v.is_live(p, k) == w.is_live(p, k) by {}
        assert forall|p: int, k: int| #[trigger] v.is_block(p, k) == w.is_block(p, k) by {}
        assert forall|k: int| 0 <= k < BUDDY_MAX_ORDER implies #[trigger] v.lists[k].no_duplicates() by {
            assert(w.lists[k].no_duplicates());
        }
        assert forall|k: int| 0 <= k < BUDDY_MAX_ORDER implies #[trigger] v.live[k].finite() by {
            assert(w.live[k].finite());
        }
        assert forall|k: int| 0 <= k < BUDDY_MAX_ORDER implies #[trigger] self.list_ok(mem, k) by {
            assert(other.list_ok(mem, k));
        }
        assert forall|k: int, i: int|
            0 <= k < BUDDY_MAX_ORDER && 0 <= i < BITMAP_BITS implies #[trigger] self.bit_ok(k, i) by {
            assert(other.bit_ok(k, i));
        }
    }

    /// Live blocks have no part in the lists and bitmaps.
    proof fn lemma_live_changed(&self, other: &Self, mem: &Memory)
        requires
            other.shape(mem),
            self.base == other.base,
            self.free_lists == other.free_lists,
            self.bitmaps == other.bitmaps,
            self.lists == other.lists,
            self@.blocks_ok(),
            forall|p: int, k: int| #[trigger]
                self@.is_live(p, k) ==> mem.holds(self@.addr(p), span(k) * PAGE_SIZE),
        ensures
            self.shape(mem),
    {
        let v = self@;
        let w = other@;
        assert forall|p: int, k: int| #[trigger] v.is_free(p, k) == w.is_free(p, k) by {}
        assert forall|p: int, k: int| #[trigger] v.is_block(p, k) implies mem.holds(
            v.addr(p),
            span(k) * PAGE_SIZE,
        ) by {
            if v.is_free(p, k) {
                assert(w.is_block(p, k));
            } else {
                assert(v.is_live(p, k));
            }
        }
        assert forall|k: int| 0 <= k < BUDDY_MAX_ORDER implies #[trigger] self.list_ok(mem, k) by {
            assert(other.list_ok(mem, k));
        }
        assert forall|k: int, i: int|
            0 <= k < BUDDY_MAX_ORDER && 0 <= i < BITMAP_BITS implies #[trigger] self.bit_ok(k, i) by {
            assert(other.bit_ok(k, i));
        }
    }

    /// A consistent allocator stays so while no byte of a free block changes.
    pub proof fn lemma_frame(&self, before: &Memory, after: &Memory)
        requires
            self.wf(before),
            after.wf(),
            after.same_range(before),
            forall|a: int|
                #![trigger after.at(a)]
                self@.in_free(a) ==> after.at(a) == before.at(a),
        ensures
            self.wf(after),
    {
        self.lemma_shape_frame(before, after);
    }

    /// An allocator that manages nothing yet.
    pub fn new() -> (b: Self)
        ensures
            b@ == BuddyView::empty(),
            forall|mem: Memory| mem.wf() ==> #[trigger] b.wf(&mem),
    {
        let ghost lists: Seq<Seq<int>> = BuddyView::empty().lists;
        let ghost live: Seq<Set<int>> = BuddyView::empty().live;
        let bitmap = Bitmap::new();
        let b = BuddyAllocator {
            base: 0,
            total_pages: 0,
            free_lists: [0;BUDDY_MAX_ORDER],
            bitmaps: [bitmap;BUDDY_MAX_ORDER],
            stats: AllocStats {
                total_bytes: 0,
                used_bytes: 0,
                free_bytes: 0,
                alloc_count: 0,
                dealloc_count: 0,
                peak_bytes: 0,
            },
            lists: Ghost(lists),
            live: Ghost(live),
        };
        proof {
            assert(forall|p: int, k: int| !#[trigger] b@.is_block(p, k));
            assert(b@.blocks_ok());
            BuddyView::lemma_empty_counts();
            assert forall|mem: Memory| mem.wf() implies #[trigger] b.wf(&mem) by {
                assert forall|k: int| 0 <= k < BUDDY_MAX_ORDER implies #[trigger] b.list_ok(
                    &mem,
                    k,
                ) by {}
            }
        }
        b
    }

    /// Puts block `page` of order `order` in front of its free list and flips its pair's
    /// bit.
    fn free_block(&mut self, mem: &mut Memory, page: u64, order: usize)
        requires
            old(self).shape(old(mem)),
            old(self)@.base > 0,
            order < BUDDY_MAX_ORDER,
            page as int % span(order as int) == 0,
            pair_of(page as int, order as int) < BITMAP_BITS,
            old(self)@.unmanaged(page as int, span(order as int)),
            old(mem).holds(old(self)@.addr(page as int), span(order as int) * PAGE_SIZE),
        ensures
            final(self).shape(final(mem)),
            final(mem).same_range(old(mem)),
            final(self)@ == old(self)@.with_lists(
                inserted(old(self)@.lists, page as int, order as int),
            ),
            forall|a: int|
                #![trigger final(mem).at(a)]
                old(mem).holds(a, 1) && !old(self)@.in_free(a) && !(old(self)@.addr(page as int)
                    <= a < old(self)@.addr(page as int) + span(order as int) * PAGE_SIZE)
                    ==> final(mem).at(a) == old(mem).at(a),
    {
        let ghost p = page as int;
        let ghost k = order as int;
        let ghost v = self@;
        let ghost nodes = self.nodes(k);
        proof {
            lemma_span(k);
            assert(self.list_ok(old(mem), k));
            lemma_shift(page, order);
            lemma_pair(p, k);
            v.lemma_inserted(p, k);
            assert forall|i: int| 0 <= i < nodes.len() implies #[trigger] apart(
                block_links(),
                v.addr(p) as u64,
                nodes[i],
            ) by {
                let q = v.lists[k][i];
                assert(v.is_free(q, k));
                assert(v.is_block(q, k));
            }
        }
        let addr: u64 = self.base + page * PAGE_SIZE;
        let head: u64 = self.free_lists[order];
        let new_head: u64 = links::push_front(mem, block_links(), head, addr, Ghost(nodes));
        self.free_lists[order] = new_head;
        let mut bitmap: Bitmap = self.bitmaps[order];
        bitmap.toggle(page >> ((order + 1) as u64));
        self.bitmaps[order] = bitmap;
        self.lists = Ghost(inserted(self.lists@, p, k));
        proof {
            let w = self@;
            assert(w == v.with_lists(inserted(v.lists, p, k)));
            assert forall|q: int, j: int| #[trigger] w.is_block(q, j) implies mem.holds(
                w.addr(q),
                span(j) * PAGE_SIZE,
            ) by {
                assert(w.is_free(q, j) || w.is_live(q, j));
                if !(q == p && j == k) {
                    assert(v.is_block(q, j));
                }
            }
            assert forall|a: int|
                #![trigger mem.at(a)]
                old(mem).holds(a, 1) && !v.in_free(a) && !(v.addr(p) <= a < v.addr(p) + span(k)
                    * PAGE_SIZE) implies mem.at(a) == old(mem).at(a) by {
                if nodes.len() > 0 && block_links().covers(nodes[0], a) {
                    let q = v.lists[k][0];
                    assert(v.is_free(q, k));
                    assert(v.is_block(q, k));
                    assert(v.in_free(a));
                }
            }
            assert forall|j: int| 0 <= j < BUDDY_MAX_ORDER implies #[trigger] self.list_ok(
                mem,
                j,
            ) by {
                assert(old(self).list_ok(old(mem), j));
                if j == k {
                    assert(self.nodes(j) =~= seq![addr] + nodes);
                } else {
                    let others = self.nodes(j);
                    assert(others == old(self).nodes(j));
                    assert forall|i: int, a: int|
                        #![trigger others[i], mem.at(a)]
                        0 <= i < others.len() && block_links().covers(others[i], a) implies mem.at(a)
                        == old(mem).at(a) by {
                        let q = v.lists[j][i];
                        assert(v.is_free(q, j));
                        assert(v.is_block(q, j));
                        lemma_span(j);
                        if nodes.len() > 0 {
                            let h = v.lists[k][0];
                            assert(v.is_free(h, k));
                            assert(v.is_block(h, k));
                        }
                    }
                    links::lemma_linked_frame(old(mem), mem, block_links(), others);
                }
            }
            assert forall|j: int, i: int|
                0 <= j < BUDDY_MAX_ORDER && 0 <= i < BITMAP_BITS implies #[trigger] self.bit_ok(
                j,
                i,
            ) by {
                assert(old(self).bit_ok(j, i));
                lemma_span(j);
                lemma_pair_members(i, j);
                assert(w.is_free(i * span(j + 1), j) <==> v.is_free(i * span(j + 1), j) || (i
                    * span(j + 1) == p && j == k));
                assert(w.is_free(i * span(j + 1) + span(j), j) <==> v.is_free(
                    i * span(j + 1) + span(j),
                    j,
                ) || (i * span(j + 1) + span(j) == p && j == k));
                assert(!v.is_free(p, k));
            }
        }
    }

    /// Takes block `page` of order `order` off its free list and flips its pair's bit.
    fn remove_block(&mut self, mem: &mut Memory, page: u64, order: usize)
        requires
            old(self).shape(old(mem)),
            order < BUDDY_MAX_ORDER,
            old(self)@.is_free(page as int, order as int),
        ensures
            final(self).shape(final(mem)),
            final(mem).same_range(old(mem)),
            final(self)@ == old(self)@.with_lists(
                removed(old(self)@.lists, page as int, order as int),
            ),
            final(self)@.unmanaged(page as int, span(order as int)),
            final(mem).holds(old(self)@.addr(page as int), span(order as int) * PAGE_SIZE),
            forall|a: int|
                #![trigger final(mem).at(a)]
                old(mem).holds(a, 1) && !old(self)@.in_free(a) ==> final(mem).at(a) == old(mem).at(
                    a,
                ),
    {
        let ghost p = page as int;
        let ghost k = order as int;
        let ghost v = self@;
        let ghost nodes = self.nodes(k);
        let ghost at = v.lists[k].index_of(p);
        proof {
            lemma_span(k);
            assert(self.list_ok(old(mem), k));
            assert(v.is_block(p, k));
            lemma_shift(page, order);
            lemma_pair(p, k);
            v.lemma_removed(p, k);
            assert(v.lists[k].no_duplicates());
            lemma_seq_remove(v.lists[k], p);
        }
        let addr: u64 = self.base + page * PAGE_SIZE;
        let head: u64 = self.free_lists[order];
        let new_head: u64 = links::unlink(mem, block_links(), head, addr, Ghost(nodes), Ghost(at));
        self.free_lists[order] = new_head;
        let mut bitmap: Bitmap = self.bitmaps[order];
        bitmap.toggle(page >> ((order + 1) as u64));
        self.bitmaps[order] = bitmap;
        self.lists = Ghost(removed(self.lists@, p, k));
        proof {
            let w = self@;
            assert(w == v.with_lists(removed(v.lists, p, k)));
            assert forall|q: int, j: int| #[trigger] w.is_block(q, j) implies mem.holds(
                w.addr(q),
                span(j) * PAGE_SIZE,
            ) by {
                assert(w.is_free(q, j) || w.is_live(q, j));
                assert(v.is_block(q, j));
            }
            assert forall|i: int| 0 <= i < nodes.len() implies #[trigger] v.is_block(
                v.lists[k][i],
                k,
            ) by {
                assert(v.is_free(v.lists[k][i], k));
            }
            assert forall|a: int|
                #![trigger mem.at(a)]
                old(mem).holds(a, 1) && !v.in_free(a) implies mem.at(a) == old(mem).at(a) by {
                if at > 0 && block_links().covers(nodes[at - 1], a) {
                    assert(v.is_block(v.lists[k][at - 1], k));
                    assert(v.is_free(v.lists[k][at - 1], k));
                    assert(v.in_free(a));
                }
                if at + 1 < nodes.len() && block_links().covers(nodes[at + 1], a) {
                    assert(v.is_block(v.lists[k][at + 1], k));
                    assert(v.is_free(v.lists[k][at + 1], k));
                    assert(v.in_free(a));
                }
            }
            assert forall|j: int| 0 <= j < BUDDY_MAX_ORDER implies #[trigger] self.list_ok(
                mem,
                j,
            ) by {
                assert(old(self).list_ok(old(mem), j));
                if j == k {
                    assert(self.nodes(j) =~= nodes.remove(at));
                } else {
                    let others = self.nodes(j);
                    assert(others == old(self).nodes(j));
                    assert forall|i: int, a: int|
                        #![trigger others[i], mem.at(a)]
                        0 <= i < others.len() && block_links().covers(others[i], a) implies mem.at(a)
                        == old(mem).at(a) by {
                        let q = v.lists[j][i];
                        assert(v.is_free(q, j));
                        assert(v.is_block(q, j));
                        lemma_span(j);
                        if at > 0 {
                            assert(v.is_block(v.lists[k][at - 1], k));
                        }
                        if at + 1 < nodes.len() {
                            assert(v.is_block(v.lists[k][at + 1], k));
                        }
                    }
                    links::lemma_linked_frame(old(mem), mem, block_links(), others);
                }
            }
            assert forall|j: int, i: int|
                0 <= j < BUDDY_MAX_ORDER && 0 <= i < BITMAP_BITS implies #[trigger] self.bit_ok(
                j,
                i,
            ) by {
                assert(old(self).bit_ok(j, i));
                lemma_span(j);
                lemma_pair_members(i, j);
                assert(w.is_free(i * span(j + 1), j) <==> v.is_free(i * span(j + 1), j) && !(i
                    * span(j + 1) == p && j == k));
                assert(w.is_free(i * span(j + 1) + span(j), j) <==> v.is_free(
                    i * span(j + 1) + span(j),
                    j,
                ) && !(i * span(j + 1) + span(j) == p && j == k));
            }
        }
    }

    /// Registers the `page_count` pages from `virt_base` on.
    pub fn add_region(&mut self, mem: &mut Memory, virt_base: u64, page_count: u64)
        requires
            old(self).wf(old(mem)),
            virt_base > 0,
            virt_base % PAGE_SIZE == 0,
            page_count > 0,
            old(self)@.base_with(virt_base as int) <= virt_base,
            old(mem).holds(virt_base as int, page_count * PAGE_SIZE),
            old(self)@.region_free(virt_base as int, page_count as int),
            (old(self)@.total_pages + page_count) * PAGE_SIZE <= u64::MAX,
        ensures
            final(self).wf(final(mem)),
            final(mem).same_range(old(mem)),
            final(self)@ == old(self)@.after_region(virt_base as int, page_count as int),
            forall|a: int|
                #![trigger final(mem).at(a)]
                old(mem).holds(a, 1) && !old(self)@.in_free(a) && !(virt_base <= a < virt_base
                    + page_count * PAGE_SIZE) ==> final(mem).at(a) == old(mem).at(a),
    {
        let ghost v0 = self@;
        let ghost n = page_count as int;
        if self.base == 0 {
            proof {
                assert forall|p: int, k: int| !#[trigger] self@.is_block(p, k) by {}
            }
            self.base = virt_base;
            proof {
                assert forall|p: int, k: int| !#[trigger] self@.is_block(p, k) by {
                    assert(!v0.is_block(p, k));
                    assert(self@.is_free(p, k) == v0.is_free(p, k));
                    assert(self@.is_live(p, k) == v0.is_live(p, k));
                }
                assert forall|k: int| 0 <= k < BUDDY_MAX_ORDER implies #[trigger] self.list_ok(
                    mem,
                    k,
                ) by {
                    assert(old(self).list_ok(mem, k));
                    if v0.lists[k].len() > 0 {
                        assert(v0.is_free(v0.lists[k][0], k));
                        assert(v0.is_block(v0.lists[k][0], k));
                    }
                    assert(self.nodes(k) =~= Seq::empty());
                    assert(old(self).nodes(k) =~= Seq::empty());
                }
                assert forall|k: int, i: int|
                    0 <= k < BUDDY_MAX_ORDER && 0 <= i < BITMAP_BITS implies #[trigger] self.bit_ok(
                    k,
                    i,
                ) by {
                    assert(old(self).bit_ok(k, i));
                    assert(self@.is_free(i * span(k + 1), k) == v0.is_free(i * span(k + 1), k));
                    assert(self@.is_free(i * span(k + 1) + span(k), k) == v0.is_free(
                        i * span(k + 1) + span(k),
                        k,
                    ));
                }
                assert(self@.blocks_ok()) by {
                    assert(virt_base as int % (PAGE_SIZE as int) == 0);
                    assert forall|p: int, k: int| #[trigger] self@.is_free(p, k) implies false by {
                        assert(self@.is_block(p, k));
                    }
                    assert forall|k: int| 0 <= k < BUDDY_MAX_ORDER implies #[trigger] self@.lists[k].no_duplicates() by {
                        assert(v0.lists[k].no_duplicates());
                    }
                    assert forall|k: int| 0 <= k < BUDDY_MAX_ORDER implies #[trigger] self@.live[k].finite() by {
                        assert(v0.live[k].finite());
                    }
                }
            }
        }
        let ghost v = self@;
        let mut remaining: u64 = page_count;
        let mut offset_pages: u64 = (virt_base - self.base) / PAGE_SIZE;
        let ghost at = offset_pages as int;
        proof {
            assert(v.lists == v0.lists && v.live == v0.live);
            assert(v.addr(at) == virt_base);
            assert forall|p: int, k: int| #[trigger] v.is_block(p, k) implies p + span(k) <= at
                || at + n <= p by {
                assert(v0.is_free(p, k) == v.is_free(p, k) && v0.is_live(p, k) == v.is_live(p, k));
                assert(v0.is_block(p, k));
            }
            assert forall|a: int| v.in_free(a) implies v0.in_free(a) by {
                let (p, k) = choose|p: int, k: int| #[trigger]
                    v.is_free(p, k) && v.addr(p) <= a < v.addr(p + span(k));
                assert(v0.is_free(p, k));
                assert(v0.is_block(p, k));
            }
        }
        while remaining > 0
            invariant
                self.shape(mem),
                mem.same_range(old(mem)),
                v.base > 0,
                self@ == v.with_lists(self@.lists),
                at + n == offset_pages + remaining,
                at <= offset_pages,
                remaining <= n <= u64::MAX,
                carved(self@.lists, offset_pages as int, remaining as int) == carved(v.lists, at, n),
                carve_fits(offset_pages as int, remaining as int),
                self@.unmanaged(offset_pages as int, remaining as int),
                old(mem).holds(v.addr(at), n * PAGE_SIZE),
                v.addr(at) == virt_base,
                n == page_count,
                forall|a: int| #[trigger]
                    self@.in_free(a) ==> v0.in_free(a) || virt_base <= a < virt_base + n * PAGE_SIZE,
                forall|a: int|
                    #![trigger mem.at(a)]
                    old(mem).holds(a, 1) && !v0.in_free(a) && !(virt_base <= a < virt_base + n
                        * PAGE_SIZE) ==> mem.at(a) == old(mem).at(a),
            decreases remaining,
        {
            let ghost before = self@;
            let ghost k0 = carve_order(offset_pages as int, remaining as int);
            let mut order: usize = BUDDY_MAX_ORDER - 1;
            proof {
                lemma_carve_order(offset_pages as int, remaining as int);
                lemma_shift(0, order);
                lemma_span(order as int);
            }
            while order > 0 && ((1u64 << (order as u64)) > remaining || offset_pages % (1u64 << (
            order as u64)) != 0)
                invariant
                    order < BUDDY_MAX_ORDER,
                    (1u64 << (order as u64)) == span(order as int),
                    span(order as int) >= 1,
                    largest_order(offset_pages as int, remaining as int, order as int) == k0,
                decreases order,
            {
                order = order - 1;
                proof {
                    lemma_shift(0, order);
                    lemma_span(order as int);
                }
            }
            assert(order == k0);
            let taken: u64 = 1u64 << (order as u64);
            self.free_block(mem, offset_pages, order);
            proof {
                before.lemma_inserted(offset_pages as int, k0);
                assert(taken == span(k0));
                assert forall|p: int, k: int| #[trigger] self@.is_block(p, k) implies p + span(k)
                    <= offset_pages + taken || offset_pages + remaining <= p by {
                    assert(self@.is_free(p, k) || self@.is_live(p, k));
                    if !(p == offset_pages && k == k0) {
                        assert(before.is_block(p, k));
                    }
                }
                assert forall|a: int| #[trigger] self@.in_free(a) implies v0.in_free(a) || virt_base
                    <= a < virt_base + n * PAGE_SIZE by {
                    let (p, k) = choose|p: int, k: int| #[trigger]
                        self@.is_free(p, k) && self@.addr(p) <= a < self@.addr(p + span(k));
                    if !(p == offset_pages && k == k0) {
                        assert(before.is_free(p, k));
                        assert(before.in_free(a));
                    }
                }
            }
            offset_pages = offset_pages + taken;
            remaining = remaining - taken;
        }
        proof {
            v0.lemma_region_counted(virt_base as int, n);
        }
        let ghost carved_up = *self;
        self.total_pages = self.total_pages + page_count;
        self.stats.total_bytes = self.total_pages * PAGE_SIZE;
        self.stats.free_bytes = self.stats.total_bytes - self.stats.used_bytes;
        proof {
            self.lemma_same_shape(&carved_up, mem);
        }
    }

    /// The least order from `order` on that has a free block; [`BUDDY_MAX_ORDER`] if none has.
    fn find_order(&self, mem: &Memory, order: usize) -> (found: usize)
        requires
            self.shape(mem),
            order < BUDDY_MAX_ORDER,
        ensures
            found == fitting_order(self@.lists, order as int),
            order <= found <= BUDDY_MAX_ORDER,
    {
        let ghost v = self@;
        let ghost k = order as int;
        let mut found: usize = order;
        while found < BUDDY_MAX_ORDER && self.free_lists[found] == 0
            invariant
                self.shape(mem),
                self@ == v,
                order <= found <= BUDDY_MAX_ORDER,
                k == order,
                fitting_order(v.lists, found as int) == fitting_order(v.lists, k),
            decreases BUDDY_MAX_ORDER - found,
        {
            proof {
                let f = found as int;
                assert(self.list_ok(mem, f));
                if v.lists[f].len() > 0 {
                    assert(node_linked(mem, block_links(), self.nodes(f), 0));
                }
            }
            found = found + 1;
        }
        proof {
            if found < BUDDY_MAX_ORDER {
                assert(self.list_ok(mem, found as int));
                if v.lists[found as int].len() == 0 {
                    assert(self.nodes(found as int).len() == 0);
                }
            }
        }
        found
    }

    /// Address of page 0; zero until the first region is registered.
    pub fn base(&self) -> (b: u64)
        ensures
            b == self@.base,
    {
        self.base
    }

    /// Tells whether an allocation of `2^order` pages runs into no limit.
    pub fn can_allocate(&self, mem: &Memory, order: usize) -> (b: bool)
        requires
            self.wf(mem),
            order < BUDDY_MAX_ORDER,
        ensures
            b == self@.can_alloc(order as int),
    {
        let found: usize = self.find_order(mem, order);
        if found == BUDDY_MAX_ORDER {
            return true;
        }
        proof {
            let v = self@;
            let f = found as int;
            let p = v.next_page(order as int);
            assert(self.list_ok(mem, f));
            lemma_fitting_order(v.lists, order as int);
            v.lemma_first_removed(f);
            assert(v.is_block(p, f));
            lemma_span(f);
            lemma_span(order as int);
        }
        let page: u64 = (self.free_lists[found] - self.base) / PAGE_SIZE;
        assert(page == self@.next_page(order as int));
        proof {
            lemma_shift(page, order);
        }
        page >> ((order + 1) as u64) < BITMAP_BITS as u64 && self.stats.alloc_count < u64::MAX
    }

    /// Hands out a block of `2^order` pages, cut from the smallest free block that is large
    /// enough; gives its address, or nothing if no such block is free.
    pub fn alloc_pages(&mut self, mem: &mut Memory, order: usize) -> (r: Option<u64>)
        requires
            old(self).wf(old(mem)),
            order < BUDDY_MAX_ORDER,
            old(self)@.can_alloc(order as int),
        ensures
            final(self).wf(final(mem)),
            final(mem).same_range(old(mem)),
            r is Some <==> old(self)@.has_room(order as int),
            match r {
                Some(addr) => {
                    &&& addr == old(self)@.addr(old(self)@.next_page(order as int))
                    &&& final(self)@ == old(self)@.after_alloc(order as int)
                },
                None => final(self)@ == old(self)@,
            },
            forall|a: int|
                #![trigger final(mem).at(a)]
                old(mem).holds(a, 1) && (!old(self)@.in_free(a) || r is None) ==> final(mem).at(a)
                    == old(mem).at(a),
    {
        let ghost v = self@;
        let ghost k = order as int;
        let found_order: usize = self.find_order(mem, order);
        if found_order == BUDDY_MAX_ORDER {
            return None;
        }
        let ghost f = found_order as int;
        let ghost p = v.next_page(k);
        proof {
            assert(self.list_ok(mem, f));
            lemma_fitting_order(v.lists, k);
            if v.lists[f].len() == 0 {
                assert(self.nodes(f).len() == 0);
            }
            assert(fitting_order(v.lists, k) == f);
            v.lemma_first_removed(f);
            assert(v.is_block(p, f));
            lemma_span(f);
            lemma_span(k);
        }
        let block: u64 = self.free_lists[found_order];
        let page: u64 = (block - self.base) / PAGE_SIZE;
        assert(page == p);
        self.remove_block(mem, page, found_order);
        let ghost taken = self@.lists;
        proof {
            v.lemma_removed(p, f);
            assert forall|a: int| #[trigger] self@.in_free(a) implies v.in_free(a) by {
                let (q, j) = choose|q: int, j: int| #[trigger]
                    self@.is_free(q, j) && self@.addr(q) <= a < self@.addr(q + span(j));
                assert(v.is_free(q, j));
            }
            assert forall|a: int| v.addr(p) <= a < v.addr(p + span(f)) implies #[trigger] v.in_free(
                a,
            ) by {
                assert(v.is_free(p, f));
            }
        }
        let mut current_order: usize = found_order;
        while current_order > order
            invariant
                self.shape(mem),
                mem.same_range(old(mem)),
                v.base > 0,
                self@ == v.with_lists(self@.lists),
                k == order <= current_order <= f < BUDDY_MAX_ORDER,
                page == p,
                split_down(self@.lists, p, current_order as int, k) == split_down(taken, p, f, k),
                p % span(current_order as int) == 0,
                pair_of(p, k) < BITMAP_BITS,
                self@.unmanaged(p, span(current_order as int)),
                old(mem).holds(v.addr(p), span(current_order as int) * PAGE_SIZE),
                forall|a: int|
                    v.addr(p) <= a < v.addr(p + span(current_order as int)) ==> #[trigger] v.in_free(
                        a,
                    ),
                forall|a: int| #[trigger] self@.in_free(a) ==> v.in_free(a),
                forall|a: int|
                    #![trigger mem.at(a)]
                    old(mem).holds(a, 1) && !v.in_free(a) ==> mem.at(a) == old(mem).at(a),
            decreases current_order,
        {
            current_order = current_order - 1;
            let ghost c = current_order as int;
            let ghost before = self@;
            proof {
                lemma_span(c);
                lemma_halves(p, c);
                lemma_pair_monotone(p, k, c);
                lemma_shift(page, current_order);
            }
            let buddy_page: u64 = page + (1u64 << (current_order as u64));
            self.free_block(mem, buddy_page, current_order);
            proof {
                before.lemma_inserted(buddy_page as int, c);
                assert forall|q: int, j: int| #[trigger] self@.is_block(q, j) implies q + span(j)
                    <= p || p + span(c) <= q by {
                    assert(self@.is_free(q, j) || self@.is_live(q, j));
                    if !(q == buddy_page && j == c) {
                        assert(before.is_block(q, j));
                    }
                }
                assert forall|a: int| #[trigger] self@.in_free(a) implies v.in_free(a) by {
                    let (q, j) = choose|q: int, j: int| #[trigger]
                        self@.is_free(q, j) && self@.addr(q) <= a < self@.addr(q + span(j));
                    if !(q == buddy_page && j == c) {
                        assert(before.is_free(q, j));
                        assert(before.in_free(a));
                    }
                }
            }
        }
        let ghost split = *self;
        proof {
            self@.lemma_made_live(p, k);
            v.lemma_alloc_counted(k);
            lemma_shift(page, order);
        }
        let bytes: u64 = (1u64 << (order as u64)) * PAGE_SIZE;
        self.live = Ghost(self.live@.update(k, self.live@[k].insert(p)));
        let ghost handed_out = *self;
        proof {
            assert forall|q: int, j: int| #[trigger] self@.is_live(q, j) implies mem.holds(
                self@.addr(q),
                span(j) * PAGE_SIZE,
            ) by {
                if !(q == p && j == k) {
                    assert(split@.is_live(q, j));
                    assert(split@.is_block(q, j));
                }
            }
            assert(self@ == split@.with_live(self@.live));
            self.lemma_live_changed(&split, mem);
        }
        self.stats.used_bytes = self.stats.used_bytes + bytes;
        self.stats.free_bytes = self.stats.free_bytes - bytes;
        self.stats.alloc_count = self.stats.alloc_count + 1;
        if self.stats.used_bytes > self.stats.peak_bytes {
            self.stats.peak_bytes = self.stats.used_bytes;
        }
        proof {
            self.lemma_same_shape(&handed_out, mem);
            assert(self@ == v.after_alloc(k));
        }
        Some(self.base + page * PAGE_SIZE)
    }

    /// Takes back the block of `2^order` pages at `addr`, merging it with its buddy for as
    /// long as the buddy is free.
    pub fn dealloc_pages(&mut self, mem: &mut Memory, addr: u64, order: usize)
        requires
            old(self).wf(old(mem)),
            order < BUDDY_MAX_ORDER,
            old(self)@.handed_out(addr as int, order as int),
        ensures
            final(self).wf(final(mem)),
            final(mem).same_range(old(mem)),
            final(self)@ == old(self)@.after_dealloc(old(self)@.page(addr as int), order as int),
            forall|a: int|
                #![trigger final(mem).at(a)]
                old(mem).holds(a, 1) && !old(self)@.in_free(a) && !(addr <= a < addr + span(
                    order as int,
                ) * PAGE_SIZE) ==> final(mem).at(a) == old(mem).at(a),
    {
        let ghost v = self@;
        let ghost k = order as int;
        let ghost p = v.page(addr as int);
        let ghost untouched = *self;
        proof {
            assert(v.is_block(p, k));
            assert(v.addr(p) == addr);
            v.lemma_dealloc_counted(p, k);
            v.lemma_made_dead(p, k);
            lemma_span(k);
        }
        let mut page: u64 = (addr - self.base) / PAGE_SIZE;
        let mut ord: usize = order;
        self.live = Ghost(self.live@.update(k, self.live@[k].remove(p)));
        let ghost live = self@.live;
        proof {
            assert forall|q: int, j: int| #[trigger] self@.is_live(q, j) implies mem.holds(
                self@.addr(q),
                span(j) * PAGE_SIZE,
            ) by {
                assert(v.is_live(q, j));
                assert(v.is_block(q, j));
            }
            self.lemma_live_changed(&untouched, mem);
            assert(self@ == v.with_live(live));
            assert forall|a: int| #[trigger] self@.in_free(a) implies v.in_free(a) by {
                let (q, j) = choose|q: int, j: int| #[trigger]
                    self@.is_free(q, j) && self@.addr(q) <= a < self@.addr(q + span(j));
                assert(v.is_free(q, j));
            }
        }
        let mut merging: bool = true;
        while merging && ord < BUDDY_MAX_ORDER - 1
            invariant
                self.shape(mem),
                mem.same_range(old(mem)),
                v.base > 0,
                self@ == v.with_live(live).with_lists(self@.lists),
                0 <= k <= ord < BUDDY_MAX_ORDER,
                given_back(self@.lists, page as int, ord as int) == given_back(v.lists, p, k),
                !merging ==> !self@.lists[ord as int].contains(buddy_of(page as int, ord as int)),
                page as int % span(ord as int) == 0,
                pair_of(page as int, ord as int) < BITMAP_BITS,
                self@.unmanaged(page as int, span(ord as int)),
                old(mem).holds(v.addr(page as int), span(ord as int) * PAGE_SIZE),
                forall|a: int|
                    v.addr(page as int) <= a < v.addr(page + span(ord as int)) ==> #[trigger] v.in_free(
                        a,
                    ) || addr <= a < addr + span(k) * PAGE_SIZE,
                forall|a: int| #[trigger] self@.in_free(a) ==> v.in_free(a),
                forall|a: int|
                    #![trigger mem.at(a)]
                    old(mem).holds(a, 1) && !v.in_free(a) ==> mem.at(a) == old(mem).at(a),
            decreases BUDDY_MAX_ORDER - ord, merging as int,
        {
            let ghost o = ord as int;
            let ghost before = self@;
            proof {
                lemma_span(o);
                lemma_pair(page as int, o);
                lemma_shift(page, ord);
                lemma_buddy_bits(page, ord);
                assert(self.bit_ok(o, pair_of(page as int, o)));
                assert(!self@.is_free(page as int, o)) by {
                    if self@.is_free(page as int, o) {
                        assert(self@.is_block(page as int, o));
                    }
                }
            }
            let buddy: u64 = page ^ (1u64 << (ord as u64));
            let pair_bit: u64 = page >> ((ord + 1) as u64);
            if self.bitmaps[ord].test(pair_bit) {
                assert(self@.is_free(buddy as int, o));
                assert(self@.is_block(buddy as int, o));
                self.remove_block(mem, buddy, ord);
                proof {
                    before.lemma_removed(buddy as int, o);
                    lemma_pair_monotone(lower_of_pair(page as int, o), o, o + 1);
                    let low = lower_of_pair(page as int, o);
                    assert forall|q: int, j: int| #[trigger] self@.is_block(q, j) implies q + span(
                        j,
                    ) <= low || low + span(o + 1) <= q by {
                        assert(self@.is_free(q, j) || self@.is_live(q, j));
                        assert(before.is_block(q, j));
                        lemma_span(j);
                    }
                    assert forall|a: int| #[trigger] self@.in_free(a) implies v.in_free(a) by {
                        let (q, j) = choose|q: int, j: int| #[trigger]
                            self@.is_free(q, j) && self@.addr(q) <= a < self@.addr(q + span(j));
                        assert(before.is_free(q, j));
                        assert(before.in_free(a));
                    }
                    assert forall|a: int|
                        v.addr(low) <= a < v.addr(low + span(o + 1)) implies #[trigger] v.in_free(a)
                        || addr <= a < addr + span(k) * PAGE_SIZE by {
                        if before.addr(buddy as int) <= a < before.addr(buddy + span(o)) {
                            assert(before.is_free(buddy as int, o));
                            assert(before.in_free(a));
                        }
                    }
                }
                if buddy < page {
                    page = buddy;
                }
                ord = ord + 1;
            } else {
                merging = false;
            }
        }
        let ghost before = self@;
        self.free_block(mem, page, ord);
        let ghost linked_in = *self;
        proof {
            lemma_shift(page, order);
        }
        let bytes: u64 = (1u64 << (order as u64)) * PAGE_SIZE;
        self.stats.used_bytes = self.stats.used_bytes - bytes;
        self.stats.free_bytes = self.stats.free_bytes + bytes;
        self.stats.dealloc_count = self.stats.dealloc_count + 1;
        proof {
            self.lemma_same_shape(&linked_in, mem);
            assert(given_back(before.lists, page as int, ord as int) == inserted(
                before.lists,
                page as int,
                ord as int,
            ));
            assert(self@ == v.after_dealloc(p, k));
        }
    }

    /// The counters.
    pub fn stats(&self) -> (s: AllocStats)
        ensures
            s == self@.stats,
    {
        self.stats
    }
}

/// Hands out `2^order` pages of `buddy`; see [`BuddyAllocator::alloc_pages`].
pub fn alloc_pages(buddy: &mut BuddyAllocator, mem: &mut Memory, order: usize) -> (r: Option<u64>)
    requires
        old(buddy).wf(old(mem)),
        order < BUDDY_MAX_ORDER,
        old(buddy)@.can_alloc(order as int),
    ensures
        final(buddy).wf(final(mem)),
        final(mem).same_range(old(mem)),
        r is Some <==> old(buddy)@.has_room(order as int),
        match r {
            Some(addr) => {
                &&& addr == old(buddy)@.addr(old(buddy)@.next_page(order as int))
                &&& final(buddy)@ == old(buddy)@.after_alloc(order as int)
            },
            None => final(buddy)@ == old(buddy)@,
        },
        forall|a: int|
            #![trigger final(mem).at(a)]
            old(mem).holds(a, 1) && (!old(buddy)@.in_free(a) || r is None) ==> final(mem).at(a)
                == old(mem).at(a),
{
    buddy.alloc_pages(mem, order)
}

/// Gives `2^order` pages back to `buddy`; see [`BuddyAllocator::dealloc_pages`].
pub fn dealloc_pages(buddy: &mut BuddyAllocator, mem: &mut Memory, addr: u64, order: usize)
    requires
        old(buddy).wf(old(mem)),
        order < BUDDY_MAX_ORDER,
        old(buddy)@.handed_out(addr as int, order as int),
    ensures
        final(buddy).wf(final(mem)),
        final(mem).same_range(old(mem)),
        final(buddy)@ == old(buddy)@.after_dealloc(old(buddy)@.page(addr as int), order as int),
        forall|a: int|
            #![trigger final(mem).at(a)]
            old(mem).holds(a, 1) && !old(buddy)@.in_free(a) && !(addr <= a < addr + span(
                order as int,
            ) * PAGE_SIZE) ==> final(mem).at(a) == old(mem).at(a),
{
    buddy.dealloc_pages(mem, addr, order);
}

/// A page index shifted by an order is the number of its pair.
proof fn lemma_shift(page: u64, order: usize)
    requires
        order < BUDDY_MAX_ORDER,
    ensures
        (page >> ((order + 1) as u64)) as int == pair_of(page as int, order as int),
        (1u64 << (order as u64)) as int == span(order as int),
{
    vstd::arithmetic::power2::lemma2_to64();
    lemma_span(order as int);
    vstd::bits::lemma_u64_shr_is_div(page, (order + 1) as u64);
    vstd::bits::lemma_u64_shl_is_mul(1, order as u64);
}

/// Flipping the bit of an order in a page index gives the buddy.
proof fn lemma_buddy_bits(page: u64, order: usize)
    requires
        order < BUDDY_MAX_ORDER,
        page as int % span(order as int) == 0,
        page + span(order as int) <= u64::MAX,
    ensures
        (page ^ (1u64 << (order as u64))) as int == buddy_of(page as int, order as int),
{
    let s = order as u64;
    let k = order as int;
    let m = span(k);
    let q = page >> s;
    lemma_shift(page, order);
    lemma_span(k);
    vstd::arithmetic::power2::lemma2_to64();
    vstd::bits::lemma_u64_shr_is_div(page, s);
    assert(page == q * m) by (nonlinear_arith)
        requires
            q == page as int / m,
            page as int % m == 0,
            m > 0,
    ;
    vstd::bits::lemma_u64_shl_is_mul(q, s);
    lemma_flip(page, s);
    assert(q & 1 == q % 2) by (bit_vector);
    let h = q as int / 2;
    let r = q as int % 2;
    assert(page == h * (2 * m) + r * m) by (nonlinear_arith)
        requires
            page == q * m,
            q == 2 * h + r,
    ;
    assert(0 <= r * m < 2 * m && (r == 0 ==> r * m == 0) && (r == 1 ==> r * m == m))
        by (nonlinear_arith)
        requires
            0 <= r < 2,
            m > 0,
    ;
    vstd::arithmetic::div_mod::lemma_fundamental_div_mod_converse(page as int, 2 * m, h, r * m);
}

proof fn lemma_flip(p: u64, s: u64)
    by (bit_vector)
    requires
        s <= 10,
        (p >> s) << s == p,
        p + (1u64 << s) <= 0xffff_ffff_ffff_ffff,
    ensures
        (p >> s) & 1 == 0 ==> (p ^ (1u64 << s)) == p + (1u64 << s),
        (p >> s) & 1 != 0 ==> (p ^ (1u64 << s)) == p - (1u64 << s),
{
}

/// Pages are given exactly if a free block of the order or a larger one exists; they start at a
/// multiple of a page, were all free, and none of them is afterwards.
pub proof fn law_alloc_pages(
    buddy: &mut BuddyAllocator,
    mem: &mut Memory,
    order: usize,
    r: Option<u64>,
    x: int,
)
    requires
        old(buddy).wf(old(mem)),
        order < BUDDY_MAX_ORDER,
        old(buddy)@.can_alloc(order as int),
        call_ensures(BuddyAllocator::alloc_pages, (buddy, mem, order), r),
    ensures
        r is Some <==> exists|p: int, j: int| order <= j && #[trigger] old(buddy)@.is_free(p, j),
        r is Some ==> r->0 % 4096 == 0,
        r is Some && r->0 <= x < r->0 + span(order as int) * 4096 ==> old(buddy)@.in_free(x)
            && !final(buddy)@.in_free(x),
        r is Some ==> final(buddy)@.handed_out(r->0 as int, order as int),
{
    let v = old(buddy)@;
    let k = order as int;
    old(buddy).lemma_wf(old(mem));
    crate::buddy::laws::law_room(v, k);
    if r is Some {
        let p = v.next_page(k);
        crate::buddy::laws::law_alloc_block(v, k);
        crate::buddy::laws::law_one_block(v, k, p, p, k);
        let w = final(buddy)@;
        final(buddy).lemma_wf(final(mem));
        assert(w.is_live(p, k));
        assert(w.addr(p) == r->0);
        if r->0 <= x < r->0 + span(k) * 4096 {
            crate::buddy::laws::law_live_untouched(w, p, k, x);
        }
    }
}

} // verus!
