//! Two-level segregated fit heap: allocation and deallocation in constant time.
//!
//! Free blocks are kept in buckets. A bucket covers one part of one magnitude of sizes, and
//! two levels of bitmaps tell which buckets are filled, so that a fitting block is found by
//! two bit scans. Every block carries a header in front of its payload.

pub mod laws;
pub mod model;

use crate::align::{align_up, aligned_up, law_aligned_up, power_of_two};
use crate::buddy::laws::{self as buddy_laws, law_alloc_block, law_live_untouched};
use crate::buddy::model::{lemma_span, span};
use crate::buddy::BuddyAllocator;
use crate::framework::{BUDDY_MAX_ORDER, PAGE_SIZE};
use crate::links::{self, apart, linked, node_at, node_linked, Links};
use crate::memory::Memory;
use crate::tlsf::laws::{
    law_alloc_fits, law_alloc_keeps_live, law_alloc_valid, law_dealloc_frees,
    law_dealloc_keeps_live, law_dealloc_valid, law_keeps_live, law_room_by_size, lemma_after,
    lemma_merged_after, lemma_merged_before, lemma_padded, lemma_tiled_after,
};
use crate::tlsf::model::{
    bucket, first_filled, law_bucket_fits, law_class, lemma_first_filled_is, lemma_limit,
    lemma_magnitude_is, magnitude, rounded, sub_bucket, Chunk, TlsfView, BLOCK_MIN, BUCKETS,
    FL_INDEX_COUNT, HEADER, SIZE_LIMIT, SL_COUNT, SL_INDEX_COUNT,
};
use vstd::arithmetic::power2::pow2;
use vstd::prelude::*;

verus! {

/// Bit `i` of `w`.
spec fn bit32(w: u32, i: u32) -> bool {
    (w >> i) & 1 == 1
}

proof fn lemma_bit_set(w: u32, i: u32, j: u32)
    by (bit_vector)
    requires
        i < 32,
        j < 32,
    ensures
        bit32(w | (1u32 << i), j) == (bit32(w, j) || i == j),
        w | (1u32 << i) != 0,
        w < 0x4000_0000 && i < 30 ==> w | (1u32 << i) < 0x4000_0000,
{
}

proof fn lemma_bit_clear(w: u32, i: u32, j: u32)
    by (bit_vector)
    requires
        i < 32,
        j < 32,
    ensures
        bit32(w & !(1u32 << i), j) == (bit32(w, j) && i != j),
        w & !(1u32 << i) <= w,
{
}

proof fn lemma_bit_none(w: u32, j: u32)
    by (bit_vector)
    requires
        j < 32,
        bit32(w, j),
    ensures
        w != 0,
        w < 0x4000_0000 ==> j < 30,
{
}

proof fn lemma_bit_none_if(w: u32, j: u32)
    requires
        j < 32,
    ensures
        bit32(w, j) ==> w != 0,
{
    if bit32(w, j) {
        lemma_bit_none(w, j);
    }
}

proof fn lemma_bit_shift(w: u32, s: u32, t: u32)
    by (bit_vector)
    requires
        s < 32,
        t < 32,
    ensures
        bit32(w >> s, t) ==> s + t < 32,
        s + t < 32 ==> bit32(w >> s, t) == bit32(w, (s + t) as u32),
{
}

/// The lowest set bit of `w` from bit `s` on.
fn scan(w: u32, s: u32) -> (r: Option<u32>)
    requires
        s < 32,
    ensures
        match r {
            Some(i) => {
                &&& s <= i < 32
                &&& bit32(w, i)
                &&& forall|j: u32| s <= j < i ==> !#[trigger] bit32(w, j)
            },
            None => forall|j: u32| s <= j < 32 ==> !#[trigger] bit32(w, j),
        },
{
    let map: u32 = w >> s;
    if map != 0 {
        let t: u32 = map.trailing_zeros();
        proof {
            vstd::std_specs::bits::axiom_u32_trailing_zeros(map);
            lemma_bit_shift(w, s, t);
            assert(bit32(map, t));
            assert forall|j: u32| s <= j < s + t implies !#[trigger] bit32(w, j) by {
                lemma_bit_shift(w, s, (j - s) as u32);
                assert((map >> ((j - s) as u32)) & 1u32 == 0u32);
            }
        }
        Some(s + t)
    } else {
        proof {
            assert forall|j: u32| s <= j < 32 implies !#[trigger] bit32(w, j) by {
                lemma_bit_shift(w, s, (j - s) as u32);
                if bit32(map, (j - s) as u32) {
                    lemma_bit_none(map, (j - s) as u32);
                }
            }
        }
        None
    }
}

/// The first word of a header: the payload size with two flags in its low bits.
pub open spec fn tag(size: u64, free: bool, prev_free: bool) -> u64 {
    size | (if free {
        1u64
    } else {
        0u64
    }) | (if prev_free {
        2u64
    } else {
        0u64
    })
}

proof fn lemma_tag(size: u64, free: bool, prev_free: bool)
    by (bit_vector)
    requires
        size % 8 == 0,
    ensures
        tag(size, free, prev_free) & !3 == size,
        (tag(size, free, prev_free) & 1 != 0) == free,
        (tag(size, free, prev_free) & 2 != 0) == prev_free,
        tag(size, free, prev_free) | 1 == tag(size, true, prev_free),
        tag(size, free, prev_free) & !1 == tag(size, false, prev_free),
        tag(size, free, prev_free) | 2 == tag(size, free, true),
        tag(size, free, prev_free) & !2 == tag(size, free, false),
{
}

proof fn lemma_tag_plain(size: u64)
    by (bit_vector)
    ensures
        tag(size, false, false) == size,
        tag(0, false, true) == 2,
{
}

proof fn lemma_tag_resized(size: u64, other: u64, free: bool, prev_free: bool)
    by (bit_vector)
    requires
        size % 8 == 0,
    ensures
        (tag(size, free, prev_free) & 3) | other == tag(other, free, prev_free),
{
}

/// Where a free block keeps its list links, in its header.
spec fn chunk_links_spec() -> Links {
    Links { prev: 24, next: 16, size: 32 }
}

/// Where a free block keeps its list links.
#[verifier::when_used_as_spec(chunk_links_spec)]
fn chunk_links() -> (l: Links)
    ensures
        l == chunk_links_spec(),
{
    Links { prev: 24, next: 16, size: 32 }
}

proof fn lemma_mapping(size: u64, fl: u64)
    by (bit_vector)
    requires
        size >= 1,
        fl < 64,
        (size >> fl) & 1 != 0,
        fl < 63 ==> size >> (fl + 1) as u64 == 0,
    ensures
        size >> fl == 1,
        fl < 5 ==> size < 32 && (size << (5 - fl) as u64) & 31 == (size << (5 - fl) as u64) - 32,
        fl >= 5 ==> (size >> (fl - 5) as u64) & 31 == (size >> (fl - 5) as u64) - 32,
{
}

/// The heap: bucket heads, the bitmaps over them, and the pool that holds the blocks.
pub struct TlsfInner {
    fl_bitmap: u32,
    sl_bitmap: [u32; FL_INDEX_COUNT],
    free_lists: [u64; BUCKETS],
    pool_base: u64,
    pool_size: u64,
    chunks: Ghost<Map<u64, Chunk>>,
    lists: Ghost<Seq<Seq<u64>>>,
}

impl View for TlsfInner {
    type V = TlsfView;

    closed spec fn view(&self) -> TlsfView {
        TlsfView {
            base: self.pool_base as int,
            size: self.pool_size as int,
            chunks: self.chunks@,
            lists: self.lists@,
        }
    }
}

impl TlsfInner {
    /// The magnitude of a payload size and its part of that magnitude.
    pub fn mapping(size: u64) -> (r: (usize, usize))
        requires
            size >= 1,
        ensures
            r.0 == magnitude(size as int),
            r.1 == sub_bucket(size as int),
            r.0 < 64,
            r.1 < SL_COUNT,
            r.0 < FL_INDEX_COUNT <==> size < SIZE_LIMIT,
            r.0 * SL_COUNT + r.1 == bucket(size as int),
    {
        let zeros: u32 = size.leading_zeros();
        proof {
            vstd::std_specs::bits::axiom_u64_leading_zeros(size);
        }
        let fl: u64 = 63 - zeros as u64;
        proof {
            lemma_mapping(size, fl);
            vstd::arithmetic::power2::lemma2_to64();
            vstd::bits::lemma_u64_shr_is_div(size, fl);
            let p = pow2(fl as nat) as int;
            vstd::arithmetic::power2::lemma_pow2_pos(fl as nat);
            vstd::arithmetic::power2::lemma_pow2_unfold((fl + 1) as nat);
            assert(p <= size < 2 * p) by (nonlinear_arith)
                requires
                    size as int / p == 1,
                    p > 0,
            ;
            lemma_magnitude_is(size as int, fl as int);
            law_class(size as int);
            lemma_limit(size as int);
            if fl < 5 {
                let w = pow2((5 - fl) as nat) as int;
                assert(size * w <= 64 * w && size * w - 32 == (size - p) * w) by (nonlinear_arith)
                    requires
                        p * w == 32,
                        p <= size < 2 * p,
                        p >= 1,
                ;
                vstd::bits::lemma_u64_shl_is_mul(size, (5 - fl) as u64);
            } else {
                vstd::bits::lemma_u64_shr_is_div(size, (fl - 5) as u64);
            }
        }
        let sl: u64 = if fl < SL_INDEX_COUNT {
            (size << (SL_INDEX_COUNT - fl)) & 31
        } else {
            (size >> (fl - SL_INDEX_COUNT)) & 31
        };
        (fl as usize, sl as usize)
    }

    /// The magnitude and the part that a search for `size` bytes starts at: the first whose
    /// blocks are all large enough.
    pub fn mapping_search(size: u64) -> (r: (usize, usize))
        requires
            1 <= size <= u64::MAX / 2,
        ensures
            r.0 == magnitude(rounded(size as int)),
            r.1 == sub_bucket(rounded(size as int)),
            r.1 < SL_COUNT,
            r.0 < FL_INDEX_COUNT <==> rounded(size as int) < SIZE_LIMIT,
            r.0 * SL_COUNT + r.1 == bucket(rounded(size as int)),
    {
        let round: u64 = if size >= BLOCK_MIN {
            let (fl, _sl) = Self::mapping(size);
            proof {
                law_class(size as int);
                lemma_limit(size as int);
                vstd::arithmetic::power2::lemma2_to64();
                let g = pow2((fl - 5) as nat) as int;
                assert(g <= size) by (nonlinear_arith)
                    requires
                        32 * g <= size,
                        g >= 1,
                ;
                vstd::bits::lemma_u64_shl_is_mul(1, (fl - 5) as u64);
            }
            (1u64 << (fl as u64 - SL_INDEX_COUNT)) - 1
        } else {
            proof {
                lemma_limit(size as int);
            }
            0
        };
        Self::mapping(size + round)
    }

    /// The list of bucket `b` is linked in `mem` and starts at its head.
    spec fn list_ok(&self, mem: &Memory, b: int) -> bool {
        &&& self.free_lists@[b] == node_at(self@.lists[b], 0)
        &&& linked(mem, chunk_links(), self@.lists[b])
    }

    /// The header at `a` says what is known of the block.
    spec fn header_ok(&self, mem: &Memory, a: u64) -> bool {
        let c = self@.chunks[a];
        &&& mem.word(a as int) == tag(c.size, c.free, c.prev_free)
        &&& mem.word(a + 8) == c.prev
    }

    /// The header that ends the pool never looks free.
    spec fn end_ok(&self, mem: &Memory) -> bool {
        self@.base > 0 ==> (mem.word(self@.end()) == tag(0, false, false) || mem.word(self@.end())
            == tag(0, false, true))
    }

    /// Bit `s` of the second level of magnitude `f` tells whether its bucket is filled.
    spec fn sl_ok(&self, f: int, s: int) -> bool {
        bit32(self.sl_bitmap@[f], s as u32) == (self@.lists[f * SL_COUNT + s].len() > 0)
    }

    /// Bit `f` of the first level tells whether a bucket of magnitude `f` is filled.
    spec fn fl_ok(&self, f: int) -> bool {
        bit32(self.fl_bitmap, f as u32) == (self.sl_bitmap@[f] != 0)
    }

    /// The bitmaps agree with the lists.
    spec fn bits_ok(&self) -> bool {
        &&& self.fl_bitmap < 0x4000_0000
        &&& forall|f: int| 0 <= f < FL_INDEX_COUNT ==> #[trigger] self.fl_ok(f)
        &&& forall|f: int, s: int|
            0 <= f < FL_INDEX_COUNT && 0 <= s < SL_COUNT ==> #[trigger] self.sl_ok(f, s)
    }

    /// Headers, lists and bitmaps agree with the blocks.
    spec fn shape(&self, mem: &Memory) -> bool {
        &&& mem.wf()
        &&& self@.tiled()
        &&& self@.listed()
        &&& self@.base > 0 ==> mem.holds(self@.base, self@.size)
        &&& forall|a: u64| #[trigger] self@.is_chunk(a) ==> self.header_ok(mem, a)
        &&& self.end_ok(mem)
        &&& forall|b: int| 0 <= b < BUCKETS ==> #[trigger] self.list_ok(mem, b)
        &&& self.bits_ok()
    }

    /// The heap is consistent and its pool lies in `mem`.
    pub closed spec fn wf(&self, mem: &Memory) -> bool {
        self.shape(mem) && self@.settled()
    }

    /// What a consistent heap promises.
    pub proof fn lemma_wf(&self, mem: &Memory)
        requires
            self.wf(mem),
        ensures
            mem.wf(),
            self@.valid(),
            self@.base > 0 ==> mem.holds(self@.base, self@.size),
    {
    }

    /// A heap stays linked where no header byte changes.
    proof fn lemma_shape_frame(&self, before: &Memory, after: &Memory)
        requires
            self.shape(before),
            after.wf(),
            after.same_range(before),
            forall|x: int|
                #![trigger after.at(x)]
                self@.in_header(x) ==> after.at(x) == before.at(x),
        ensures
            self.shape(after),
    {
        let v = self@;
        assert forall|a: u64| #[trigger] v.is_chunk(a) implies self.header_ok(after, a) by {
            assert(self.header_ok(before, a));
            assert(v.chunk_ok(a));
            assert(after.agrees(before, a as int, a + 16)) by {
                assert forall|x: int| a <= x < a + 16 implies #[trigger] after.at(x) == before.at(
                    x,
                ) by {
                    assert(v.in_header(x));
                }
            }
            after.lemma_agrees(before, a as int, a + 16);
        }
        if v.base > 0 {
            let e = v.end();
            assert(after.agrees(before, e, e + 8)) by {
                assert forall|x: int| e <= x < e + 8 implies #[trigger] after.at(x) == before.at(
                    x,
                ) by {
                    assert(v.in_header(x));
                }
            }
            after.lemma_agrees(before, e, e + 8);
        }
        assert forall|b: int| 0 <= b < BUCKETS implies #[trigger] self.list_ok(after, b) by {
            assert(self.list_ok(before, b));
            let nodes = v.lists[b];
            assert forall|i: int, x: int|
                #![trigger nodes[i], after.at(x)]
                0 <= i < nodes.len() && chunk_links().covers(nodes[i], x) implies after.at(x)
                == before.at(x) by {
                assert(nodes.contains(nodes[i]));
                assert(v.is_chunk(nodes[i]));
                assert(v.in_header(x));
            }
            links::lemma_linked_frame(before, after, chunk_links(), nodes);
        }
    }

    /// A consistent heap stays so while no header byte changes.
    pub proof fn lemma_frame(&self, before: &Memory, after: &Memory)
        requires
            self.wf(before),
            after.wf(),
            after.same_range(before),
            forall|x: int|
                #![trigger after.at(x)]
                self@.in_header(x) ==> after.at(x) == before.at(x),
        ensures
            self.wf(after),
    {
        self.lemma_shape_frame(before, after);
    }

    /// A heap without a pool.
    pub fn new() -> (t: Self)
        ensures
            t@ == TlsfView::empty(),
            forall|mem: Memory| mem.wf() ==> #[trigger] t.wf(&mem),
    {
        let ghost lists: Seq<Seq<u64>> = TlsfView::empty().lists;
        let t = TlsfInner {
            fl_bitmap: 0,
            sl_bitmap: [0;FL_INDEX_COUNT],
            free_lists: [0;BUCKETS],
            pool_base: 0,
            pool_size: 0,
            chunks: Ghost(Map::empty()),
            lists: Ghost(lists),
        };
        proof {
            assert forall|f: int| 0 <= f < FL_INDEX_COUNT implies #[trigger] t.fl_ok(f) by {
                if bit32(0, f as u32) {
                    lemma_bit_none(0, f as u32);
                }
            }
            assert forall|f: int, s: int|
                0 <= f < FL_INDEX_COUNT && 0 <= s < SL_COUNT implies #[trigger] t.sl_ok(f, s) by {
                if bit32(0, s as u32) {
                    lemma_bit_none(0, s as u32);
                }
            }
            assert forall|mem: Memory| mem.wf() implies #[trigger] t.wf(&mem) by {
                assert forall|b: int| 0 <= b < BUCKETS implies #[trigger] t.list_ok(&mem, b) by {}
            }
        }
        t
    }

    /// Payload bytes of the block at `a`.
    fn block_size(&self, mem: &Memory, a: u64) -> (size: u64)
        requires
            self.shape(mem),
            self@.is_chunk(a),
        ensures
            size == self@.chunks[a].size,
    {
        proof {
            assert(self@.chunk_ok(a));
            assert(self.header_ok(mem, a));
            let c = self@.chunks[a];
            lemma_tag(c.size, c.free, c.prev_free);
        }
        mem.read_u64(a) & !3
    }

    /// Puts the block at `a` in front of the list of its bucket.
    fn insert_free(&mut self, mem: &mut Memory, a: u64)
        requires
            old(self).shape(old(mem)),
            old(self)@.is_live(a),
        ensures
            final(self).shape(final(mem)),
            final(mem).same_range(old(mem)),
            final(self)@ == old(self)@.given(a),
            old(self)@.keeps(old(mem), final(mem), 0),
    {
        let ghost v = self@;
        let ghost b = bucket(v.chunks[a].size as int);
        let ghost nodes = v.lists[b];
        proof {
            assert(v.chunk_ok(a));
            v.lemma_given(a);
            assert(self.list_ok(mem, b));
            assert(self.header_ok(mem, a));
            assert forall|i: int| 0 <= i < nodes.len() implies #[trigger] apart(
                chunk_links(),
                a,
                nodes[i],
            ) by {
                assert(nodes.contains(nodes[i]));
                assert(v.is_chunk(nodes[i]));
            }
        }
        let size: u64 = self.block_size(mem, a);
        let (fl, sl) = Self::mapping(size);
        let head: u64 = self.free_lists[fl * SL_COUNT + sl];
        let new_head: u64 = links::push_front(mem, chunk_links(), head, a, Ghost(nodes));
        let ghost mid = *mem;
        proof {
            assert forall|c: u64| #[trigger] v.is_chunk(c) implies mid.word(c as int) == old(
                mem,
            ).word(c as int) && mid.word(c + 8) == old(mem).word(c + 8) by {
                self.lemma_header_words(old(mem), &mid, a, b, c);
            }
            if v.base > 0 {
                self.lemma_end_words(old(mem), &mid, a, b);
            }
        }
        self.free_lists[fl * SL_COUNT + sl] = new_head;
        self.fl_bitmap = self.fl_bitmap | (1u32 << (fl as u32));
        self.sl_bitmap[fl] = self.sl_bitmap[fl] | (1u32 << (sl as u32));
        let word: u64 = mem.read_u64(a);
        mem.write_u64(a, word | 1);
        self.chunks = Ghost(v.given(a).chunks);
        self.lists = Ghost(v.given(a).lists);
        proof {
            let w = self@;
            let c = v.chunks[a];
            lemma_tag(c.size, c.free, c.prev_free);
            assert(w =~= v.given(a));
            assert forall|d: u64| #[trigger] w.is_chunk(d) implies self.header_ok(mem, d) by {
                assert(v.is_chunk(d));
                assert(v.chunk_ok(d));
                assert(old(self).header_ok(old(mem), d));
            }
            assert forall|k: int| 0 <= k < BUCKETS implies #[trigger] self.list_ok(mem, k) by {
                assert(old(self).list_ok(old(mem), k));
                let others = w.lists[k];
                if k != b {
                    assert forall|i: int, x: int|
                        #![trigger others[i], mid.at(x)]
                        0 <= i < others.len() && chunk_links().covers(others[i], x) implies mid.at(
                        x,
                    ) == old(mem).at(x) by {
                        self.lemma_other_list(v, a, b, k, i);
                    }
                    links::lemma_linked_frame(old(mem), &mid, chunk_links(), others);
                }
                assert(linked(&mid, chunk_links(), others));
                assert forall|i: int, x: int|
                    #![trigger others[i], mem.at(x)]
                    0 <= i < others.len() && chunk_links().covers(others[i], x) implies mem.at(x)
                    == mid.at(x) by {
                    assert(others.contains(others[i]));
                    assert(w.is_free(others[i]));
                    assert(v.is_chunk(others[i]));
                    assert(v.chunk_ok(others[i]));
                }
                links::lemma_linked_frame(&mid, mem, chunk_links(), others);
            }
            self.lemma_bits_filled(old(self), fl as int, sl as int);
            assert(v.keeps(old(mem), mem, 0)) by {
                old(self).lemma_links_keep(old(mem), &mid, a, b);
                assert forall|c: u64, x: int| #[trigger] v.payload(c, x) implies mem.at(x) == old(
                    mem,
                ).at(x) by {
                    assert(v.chunk_ok(c));
                    assert(v.is_chunk(a));
                }
            }
        }
    }

    /// Linking a block to its bucket leaves the first half of every header alone.
    proof fn lemma_header_words(&self, before: &Memory, after: &Memory, a: u64, b: int, c: u64)
        requires
            self.shape(before),
            self@.is_chunk(a),
            self@.is_chunk(c),
            0 <= b < BUCKETS,
            after.same_range(before),
            forall|x: int|
                #![trigger after.at(x)]
                before.holds(x, 1) && !chunk_links().covers(a, x) && !(self@.lists[b].len() > 0
                    && chunk_links().covers(self@.lists[b][0], x)) ==> after.at(x) == before.at(x),
        ensures
            after.word(c as int) == before.word(c as int),
            after.word(c + 8) == before.word(c + 8),
    {
        let v = self@;
        assert(v.chunk_ok(a));
        assert(v.chunk_ok(c));
        let l = v.lists[b];
        if l.len() > 0 {
            assert(l.contains(l[0]));
            assert(v.is_chunk(l[0]));
            assert(v.chunk_ok(l[0]));
        }
        assert(after.agrees(before, c as int, c + 16));
        after.lemma_agrees(before, c as int, c + 16);
    }

    /// Linking a block to its bucket leaves the header that ends the pool alone.
    proof fn lemma_end_words(&self, before: &Memory, after: &Memory, a: u64, b: int)
        requires
            self.shape(before),
            self@.base > 0,
            self@.is_chunk(a),
            0 <= b < BUCKETS,
            after.same_range(before),
            forall|x: int|
                #![trigger after.at(x)]
                before.holds(x, 1) && !chunk_links().covers(a, x) && !(self@.lists[b].len() > 0
                    && chunk_links().covers(self@.lists[b][0], x)) ==> after.at(x) == before.at(x),
        ensures
            after.word(self@.end()) == before.word(self@.end()),
    {
        let v = self@;
        assert(v.chunk_ok(a));
        let l = v.lists[b];
        if l.len() > 0 {
            assert(l.contains(l[0]));
            assert(v.is_chunk(l[0]));
            assert(v.chunk_ok(l[0]));
        }
        assert(after.agrees(before, v.end(), v.end() + 8));
        after.lemma_agrees(before, v.end(), v.end() + 8);
    }

    /// Linking a block to its bucket changes no payload and nothing outside the pool.
    proof fn lemma_links_keep(&self, before: &Memory, after: &Memory, a: u64, b: int)
        requires
            self.shape(before),
            self@.is_chunk(a),
            0 <= b < BUCKETS,
            after.same_range(before),
            forall|x: int|
                #![trigger after.at(x)]
                before.holds(x, 1) && !chunk_links().covers(a, x) && !(self@.lists[b].len() > 0
                    && chunk_links().covers(self@.lists[b][0], x)) ==> after.at(x) == before.at(x),
        ensures
            self@.keeps(before, after, 0),
    {
        let v = self@;
        assert(v.chunk_ok(a));
        let l = v.lists[b];
        if l.len() > 0 {
            assert(l.contains(l[0]));
            assert(v.is_chunk(l[0]));
            assert(v.chunk_ok(l[0]));
        }
        assert forall|c: u64, x: int| #[trigger] v.payload(c, x) implies after.at(x) == before.at(
            x,
        ) by {
            assert(v.chunk_ok(c));
        }
    }

    /// A block on one list is apart from those that another bucket's head or `a` name.
    proof fn lemma_other_list(&self, v: TlsfView, a: u64, b: int, k: int, i: int)
        requires
            v.tiled(),
            v.listed(),
            v.is_live(a),
            0 <= b < BUCKETS,
            0 <= k < BUCKETS,
            k != b,
            0 <= i < v.lists[k].len(),
        ensures
            v.chunk_ok(v.lists[k][i]),
            apart(chunk_links(), a, v.lists[k][i]),
            v.lists[b].len() > 0 ==> apart(chunk_links(), v.lists[b][0], v.lists[k][i]),
    {
        let d = v.lists[k][i];
        assert(v.lists[k].contains(d));
        assert(v.is_free(d));
        assert(v.is_chunk(d) && v.is_chunk(a));
        if v.lists[b].len() > 0 {
            let h = v.lists[b][0];
            assert(v.lists[b].contains(h));
            assert(v.is_free(h));
            assert(v.is_chunk(h));
        }
    }

    /// Setting the bits of a bucket that gained a block keeps the bitmaps right.
    proof fn lemma_bits_filled(&self, before: &Self, fl: int, sl: int)
        requires
            before.bits_ok(),
            0 <= fl < FL_INDEX_COUNT,
            0 <= sl < SL_COUNT,
            self.fl_bitmap == before.fl_bitmap | (1u32 << (fl as u32)),
            self.sl_bitmap@ == before.sl_bitmap@.update(
                fl,
                before.sl_bitmap@[fl] | (1u32 << (sl as u32)),
            ),
            self@.lists.len() == BUCKETS,
            before@.lists.len() == BUCKETS,
            self@.lists[fl * SL_COUNT + sl].len() > 0,
            forall|k: int|
                0 <= k < BUCKETS && k != fl * SL_COUNT + sl ==> #[trigger] self@.lists[k]
                    == before@.lists[k],
        ensures
            self.bits_ok(),
    {
        lemma_bit_set(before.fl_bitmap, fl as u32, 0);
        assert forall|f: int| 0 <= f < FL_INDEX_COUNT implies #[trigger] self.fl_ok(f) by {
            assert(before.fl_ok(f));
            lemma_bit_set(before.fl_bitmap, fl as u32, f as u32);
            lemma_bit_set(before.sl_bitmap@[fl], sl as u32, 0);
        }
        assert forall|f: int, s: int|
            0 <= f < FL_INDEX_COUNT && 0 <= s < SL_COUNT implies #[trigger] self.sl_ok(f, s) by {
            assert(before.sl_ok(f, s));
            lemma_bit_set(before.sl_bitmap@[fl], sl as u32, s as u32);
        }
    }

    /// Unlinking a block of bucket `b` changes link words of blocks of that bucket only.
    proof fn lemma_bucket_touched(&self, before: &Memory, after: &Memory, b: int)
        requires
            self.shape(before),
            0 <= b < BUCKETS,
            after.same_range(before),
            forall|x: int|
                #![trigger after.at(x)]
                before.holds(x, 1) && (forall|i: int|
                    0 <= i < self@.lists[b].len() ==> !chunk_links().covers(
                        #[trigger] self@.lists[b][i],
                        x,
                    )) ==> after.at(x) == before.at(x),
        ensures
            forall|c: u64| #[trigger]
                self@.is_chunk(c) ==> after.word(c as int) == before.word(c as int) && after.word(
                    c + 8,
                ) == before.word(c + 8),
            self.end_ok(after),
            forall|k: int|
                0 <= k < BUCKETS && k != b ==> linked(after, chunk_links(), #[trigger] self@.lists[k]),
            self@.keeps(before, after, 0),
    {
        let v = self@;
        let l = v.lists[b];
        assert forall|i: int| 0 <= i < l.len() implies v.is_free(#[trigger] l[i]) && v.chunk_ok(
            l[i],
        ) by {
            assert(l.contains(l[i]));
            assert(v.is_chunk(l[i]));
        }
        assert forall|c: u64| #[trigger] v.is_chunk(c) implies after.word(c as int) == before.word(
            c as int,
        ) && after.word(c + 8) == before.word(c + 8) by {
            assert(v.chunk_ok(c));
            assert forall|x: int| c <= x < c + 16 implies #[trigger] after.at(x) == before.at(x) by {
                assert forall|i: int| 0 <= i < l.len() implies !chunk_links().covers(
                    #[trigger] l[i],
                    x,
                ) by {
                    assert(v.is_chunk(l[i]));
                }
            }
            after.lemma_agrees(before, c as int, c + 16);
        }
        if v.base > 0 {
            let e = v.end();
            assert forall|x: int| e <= x < e + 8 implies #[trigger] after.at(x) == before.at(x) by {
                assert forall|i: int| 0 <= i < l.len() implies !chunk_links().covers(
                    #[trigger] l[i],
                    x,
                ) by {
                    assert(v.chunk_ok(l[i]));
                }
            }
            after.lemma_agrees(before, e, e + 8);
        }
        assert forall|k: int| 0 <= k < BUCKETS && k != b implies linked(
            after,
            chunk_links(),
            #[trigger] v.lists[k],
        ) by {
            assert(self.list_ok(before, k));
            let others = v.lists[k];
            assert forall|i: int, x: int|
                #![trigger others[i], after.at(x)]
                0 <= i < others.len() && chunk_links().covers(others[i], x) implies after.at(x)
                == before.at(x) by {
                assert(others.contains(others[i]));
                assert(v.is_free(others[i]));
                assert(v.is_chunk(others[i]));
                assert(v.chunk_ok(others[i]));
                assert forall|j: int| 0 <= j < l.len() implies !chunk_links().covers(
                    #[trigger] l[j],
                    x,
                ) by {
                    assert(l.contains(l[j]));
                    assert(v.is_chunk(l[j]));
                }
            }
            links::lemma_linked_frame(before, after, chunk_links(), others);
        }
        assert forall|x: int|
            #![trigger after.at(x)]
            before.holds(x, 1) && !(v.base <= x < v.base + v.size) implies after.at(x) == before.at(
            x,
        ) by {
            assert forall|j: int| 0 <= j < l.len() implies !chunk_links().covers(#[trigger] l[j], x) by {
                assert(v.chunk_ok(l[j]));
            }
        }
        assert forall|c: u64, x: int| #[trigger] v.payload(c, x) implies after.at(x) == before.at(
            x,
        ) by {
            assert(v.chunk_ok(c));
            assert forall|j: int| 0 <= j < l.len() implies !chunk_links().covers(#[trigger] l[j], x) by {
                assert(v.is_chunk(l[j]));
            }
        }
    }

    /// Writing the first half of the header at `a`, and of one at `n` inside that block,
    /// changes nothing else.
    proof fn lemma_header_touched(&self, before: &Memory, after: &Memory, a: u64, n: u64)
        requires
            self.shape(before),
            self@.base > 0,
            n == a && a == self@.end() || (n == a || self@.payload(a, n as int) && self@.payload(
                a,
                n + 15,
            ) && self@.is_live(a)) && self@.is_chunk(a),
            after.same_range(before),
            forall|x: int|
                #![trigger after.at(x)]
                before.holds(x, 1) && !(a <= x < a + 16) && !(n <= x < n + 16) ==> after.at(x)
                    == before.at(x),
        ensures
            forall|c: u64| #[trigger]
                self@.is_chunk(c) && c != a ==> after.word(c as int) == before.word(c as int)
                    && after.word(c + 8) == before.word(c + 8),
            a != self@.end() ==> self.end_ok(after),
            forall|k: int|
                0 <= k < BUCKETS ==> linked(after, chunk_links(), #[trigger] self@.lists[k]),
            self@.keeps(
                before,
                after,
                if n == a {
                    0
                } else {
                    a
                },
            ),
    {
        let v = self@;
        if v.is_chunk(a) {
            assert(v.chunk_ok(a));
        }
        assert forall|c: u64| #[trigger] v.is_chunk(c) && c != a implies after.word(c as int)
            == before.word(c as int) && after.word(c + 8) == before.word(c + 8) by {
            assert(v.chunk_ok(c));
            assert(after.agrees(before, c as int, c + 16));
            after.lemma_agrees(before, c as int, c + 16);
        }
        if a != v.end() {
            let e = v.end();
            assert(after.agrees(before, e, e + 8));
            after.lemma_agrees(before, e, e + 8);
        }
        assert forall|k: int| 0 <= k < BUCKETS implies linked(
            after,
            chunk_links(),
            #[trigger] v.lists[k],
        ) by {
            assert(self.list_ok(before, k));
            let others = v.lists[k];
            assert forall|i: int, x: int|
                #![trigger others[i], after.at(x)]
                0 <= i < others.len() && chunk_links().covers(others[i], x) implies after.at(x)
                == before.at(x) by {
                assert(others.contains(others[i]));
                assert(v.is_free(others[i]));
                assert(v.is_chunk(others[i]));
                assert(v.chunk_ok(others[i]));
            }
            links::lemma_linked_frame(before, after, chunk_links(), others);
        }
        assert forall|c: u64, x: int| #[trigger] v.payload(c, x) && (c != a || n == a) implies after.at(
            x,
        ) == before.at(x) by {
            assert(v.is_chunk(c));
            assert(v.chunk_ok(c));
        }
    }

    /// Takes the free block at `a` off the list of its bucket.
    fn remove_free(&mut self, mem: &mut Memory, a: u64)
        requires
            old(self).shape(old(mem)),
            old(self)@.is_free(a),
        ensures
            final(self).shape(final(mem)),
            final(mem).same_range(old(mem)),
            final(self)@ == old(self)@.taken(a),
            old(self)@.keeps(old(mem), final(mem), 0),
    {
        let ghost v = self@;
        let ghost b = bucket(v.chunks[a].size as int);
        let ghost nodes = v.lists[b];
        let ghost at = nodes.index_of(a);
        proof {
            assert(v.is_chunk(a));
            assert(v.chunk_ok(a));
            v.lemma_taken(a);
            assert(self.list_ok(mem, b));
            assert(self.header_ok(mem, a));
        }
        let size: u64 = self.block_size(mem, a);
        let (fl, sl) = Self::mapping(size);
        let head: u64 = self.free_lists[fl * SL_COUNT + sl];
        let new_head: u64 = links::unlink(mem, chunk_links(), head, a, Ghost(nodes), Ghost(at));
        let ghost mid = *mem;
        proof {
            assert forall|x: int|
                #![trigger mid.at(x)]
                old(mem).holds(x, 1) && (forall|i: int|
                    0 <= i < nodes.len() ==> !chunk_links().covers(#[trigger] nodes[i], x))
                implies mid.at(x) == old(mem).at(x) by {
                if at > 0 {
                    assert(!chunk_links().covers(nodes[at - 1], x));
                }
                if at + 1 < nodes.len() {
                    assert(!chunk_links().covers(nodes[at + 1], x));
                }
            }
            self.lemma_bucket_touched(old(mem), &mid, b);
        }
        self.free_lists[fl * SL_COUNT + sl] = new_head;
        if new_head == 0 {
            self.sl_bitmap[fl] = self.sl_bitmap[fl] & !(1u32 << (sl as u32));
            if self.sl_bitmap[fl] == 0 {
                self.fl_bitmap = self.fl_bitmap & !(1u32 << (fl as u32));
            }
        }
        let word: u64 = mem.read_u64(a);
        mem.write_u64(a, word & !1);
        self.chunks = Ghost(v.taken(a).chunks);
        self.lists = Ghost(v.taken(a).lists);
        proof {
            let w = self@;
            let c = v.chunks[a];
            lemma_tag(c.size, c.free, c.prev_free);
            assert(w =~= v.taken(a));
            assert forall|d: u64| #[trigger] w.is_chunk(d) implies self.header_ok(mem, d) by {
                assert(v.is_chunk(d));
                assert(v.chunk_ok(d));
                assert(old(self).header_ok(old(mem), d));
            }
            let rest = nodes.remove(at);
            assert(rest.len() > 0 ==> rest[0] > 0) by {
                if rest.len() > 0 {
                    assert(node_linked(&mid, chunk_links(), rest, 0));
                }
            }
            assert forall|k: int| 0 <= k < BUCKETS implies #[trigger] self.list_ok(mem, k) by {
                assert(old(self).list_ok(old(mem), k));
                let others = w.lists[k];
                if k != b {
                    assert(v.lists[k] == others);
                }
                assert(linked(&mid, chunk_links(), others));
                assert forall|i: int, x: int|
                    #![trigger others[i], mem.at(x)]
                    0 <= i < others.len() && chunk_links().covers(others[i], x) implies mem.at(x)
                    == mid.at(x) by {
                    assert(others.contains(others[i]));
                    assert(w.is_free(others[i]));
                    assert(v.is_chunk(others[i]));
                    assert(v.chunk_ok(others[i]));
                }
                links::lemma_linked_frame(&mid, mem, chunk_links(), others);
            }
            self.lemma_bits_emptied(old(self), fl as int, sl as int);
            assert forall|d: u64, x: int| #[trigger] v.payload(d, x) implies mem.at(x) == old(
                mem,
            ).at(x) by {
                assert(v.chunk_ok(d));
                assert(v.is_chunk(a));
            }
        }
    }

    /// Clearing the bits of a bucket that lost its last block keeps the bitmaps right.
    proof fn lemma_bits_emptied(&self, before: &Self, fl: int, sl: int)
        requires
            before.bits_ok(),
            0 <= fl < FL_INDEX_COUNT,
            0 <= sl < SL_COUNT,
            before@.lists.len() == BUCKETS,
            self@.lists.len() == BUCKETS,
            before@.lists[fl * SL_COUNT + sl].len() > 0,
            forall|k: int|
                0 <= k < BUCKETS && k != fl * SL_COUNT + sl ==> #[trigger] self@.lists[k]
                    == before@.lists[k],
            ({
                let gone = self@.lists[fl * SL_COUNT + sl].len() == 0;
                let word = before.sl_bitmap@[fl] & !(1u32 << (sl as u32));
                &&& self.sl_bitmap@ == (if gone {
                    before.sl_bitmap@.update(fl, word)
                } else {
                    before.sl_bitmap@
                })
                &&& self.fl_bitmap == (if gone && word == 0 {
                    before.fl_bitmap & !(1u32 << (fl as u32))
                } else {
                    before.fl_bitmap
                })
            }),
        ensures
            self.bits_ok(),
    {
        lemma_bit_clear(before.fl_bitmap, fl as u32, 0);
        assert(before.sl_ok(fl, sl));
        lemma_bit_none_if(before.sl_bitmap@[fl], sl as u32);
        assert forall|f: int| 0 <= f < FL_INDEX_COUNT implies #[trigger] self.fl_ok(f) by {
            assert(before.fl_ok(f));
            lemma_bit_clear(before.fl_bitmap, fl as u32, f as u32);
        }
        assert forall|f: int, s: int|
            0 <= f < FL_INDEX_COUNT && 0 <= s < SL_COUNT implies #[trigger] self.sl_ok(f, s) by {
            assert(before.sl_ok(f, s));
            lemma_bit_clear(before.sl_bitmap@[fl], sl as u32, s as u32);
        }
    }

    /// Notes in the header at `a` which block physically precedes it.
    fn set_prev(&mut self, mem: &mut Memory, a: u64, prev: u64)
        requires
            old(self).shape(old(mem)),
            old(self)@.base > 0,
            old(self)@.is_chunk(a) || a == old(self)@.end(),
        ensures
            final(self).shape(final(mem)),
            final(mem).same_range(old(mem)),
            final(self)@ == old(self)@.with_prev(a, prev),
            old(self)@.keeps(old(mem), final(mem), 0),
    {
        let ghost v = self@;
        proof {
            if v.is_chunk(a) {
                assert(v.chunk_ok(a));
                assert(self.header_ok(mem, a));
            }
        }
        mem.write_u64(a + 8, prev);
        self.chunks = Ghost(v.with_prev(a, prev).chunks);
        proof {
            let w = self@;
            assert(w =~= v.with_prev(a, prev));
            v.lemma_told(w, a);
            old(self).lemma_header_touched(old(mem), mem, a, a);
            assert forall|d: u64| #[trigger] w.is_chunk(d) implies self.header_ok(mem, d) by {
                assert(v.is_chunk(d));
                assert(old(self).header_ok(old(mem), d));
            }
            self.lemma_lists_kept(old(self), old(mem), mem);
        }
    }

    /// Notes in the header at `a` whether the block that physically precedes it is free.
    fn set_prev_free(&mut self, mem: &mut Memory, a: u64, prev_free: bool)
        requires
            old(self).shape(old(mem)),
            old(self)@.base > 0,
            old(self)@.is_chunk(a) || a == old(self)@.end(),
        ensures
            final(self).shape(final(mem)),
            final(mem).same_range(old(mem)),
            final(self)@ == old(self)@.with_prev_free(a, prev_free),
            old(self)@.keeps(old(mem), final(mem), 0),
    {
        let ghost v = self@;
        proof {
            if v.is_chunk(a) {
                assert(v.chunk_ok(a));
                assert(self.header_ok(mem, a));
                let c = v.chunks[a];
                lemma_tag(c.size, c.free, c.prev_free);
            } else {
                lemma_tag(0, false, false);
                lemma_tag(0, false, true);
            }
        }
        let word: u64 = mem.read_u64(a);
        if prev_free {
            mem.write_u64(a, word | 2);
        } else {
            mem.write_u64(a, word & !2);
        }
        self.chunks = Ghost(v.with_prev_free(a, prev_free).chunks);
        proof {
            let w = self@;
            assert(w =~= v.with_prev_free(a, prev_free));
            v.lemma_told(w, a);
            old(self).lemma_header_touched(old(mem), mem, a, a);
            assert forall|d: u64| #[trigger] w.is_chunk(d) implies self.header_ok(mem, d) by {
                assert(v.is_chunk(d));
                assert(old(self).header_ok(old(mem), d));
            }
            self.lemma_lists_kept(old(self), old(mem), mem);
        }
    }

    /// Heads and bitmaps that did not change still fit lists that did not.
    proof fn lemma_lists_kept(&self, before: &Self, old_mem: &Memory, new_mem: &Memory)
        requires
            before.shape(old_mem),
            self.free_lists == before.free_lists,
            self.fl_bitmap == before.fl_bitmap,
            self.sl_bitmap == before.sl_bitmap,
            self@.lists == before@.lists,
            forall|k: int|
                0 <= k < BUCKETS ==> linked(new_mem, chunk_links(), #[trigger] before@.lists[k]),
        ensures
            forall|k: int| 0 <= k < BUCKETS ==> #[trigger] self.list_ok(new_mem, k),
            self.bits_ok(),
    {
        assert forall|k: int| 0 <= k < BUCKETS implies #[trigger] self.list_ok(new_mem, k) by {
            assert(before.list_ok(old_mem, k));
            assert(linked(new_mem, chunk_links(), before@.lists[k]));
        }
        assert forall|f: int| 0 <= f < FL_INDEX_COUNT implies #[trigger] self.fl_ok(f) by {
            assert(before.fl_ok(f));
        }
        assert forall|f: int, s: int|
            0 <= f < FL_INDEX_COUNT && 0 <= s < SL_COUNT implies #[trigger] self.sl_ok(f, s) by {
            assert(before.sl_ok(f, s));
        }
    }

    /// Cuts the block at `a` down to `size` bytes; gives the header of the rest.
    fn cut(&mut self, mem: &mut Memory, a: u64, size: u64) -> (rest: u64)
        requires
            old(self).shape(old(mem)),
            old(self)@.is_live(a),
            BLOCK_MIN <= size,
            size % 8 == 0,
            TlsfView::splits(old(self)@.chunks[a].size as int, size as int),
        ensures
            final(self).shape(final(mem)),
            final(mem).same_range(old(mem)),
            rest == a + HEADER + size,
            final(self)@ == old(self)@.cut(a, size),
            old(self)@.keeps(old(mem), final(mem), a),
    {
        let ghost v = self@;
        let ghost c = v.chunks[a];
        proof {
            assert(v.is_chunk(a));
            assert(v.chunk_ok(a));
            assert(self.header_ok(mem, a));
            v.lemma_cut(a, size);
            lemma_tag(c.size, c.free, c.prev_free);
            lemma_tag_resized(c.size, size, c.free, c.prev_free);
        }
        let have: u64 = self.block_size(mem, a);
        let word: u64 = mem.read_u64(a);
        mem.write_u64(a, (word & 3) | size);
        let rest: u64 = a + HEADER + size;
        let rest_size: u64 = have - size - HEADER;
        mem.write_u64(rest, rest_size);
        mem.write_u64(rest + 8, a);
        self.chunks = Ghost(v.cut(a, size).chunks);
        proof {
            let w = self@;
            lemma_tag_plain(rest_size);
            assert(w =~= v.cut(a, size));
            old(self).lemma_header_touched(old(mem), mem, a, rest);
            assert forall|d: u64| #[trigger] w.is_chunk(d) implies self.header_ok(mem, d) by {
                if d != rest {
                    assert(v.is_chunk(d));
                    assert(old(self).header_ok(old(mem), d));
                }
            }
            self.lemma_lists_kept(old(self), old(mem), mem);
        }
        rest
    }

    /// Makes the block after the one at `a` part of it.
    fn fuse(&mut self, mem: &mut Memory, a: u64)
        requires
            old(self).shape(old(mem)),
            old(self)@.is_live(a),
            old(self)@.is_live(old(self)@.next(a)),
        ensures
            final(self).shape(final(mem)),
            final(mem).same_range(old(mem)),
            final(self)@ == old(self)@.fused(a),
            old(self)@.keeps(old(mem), final(mem), 0),
    {
        let ghost v = self@;
        let ghost c = v.chunks[a];
        proof {
            assert(v.is_chunk(a));
            assert(v.chunk_ok(a));
            assert(v.is_chunk(v.next(a)));
            assert(v.chunk_ok(v.next(a)));
            assert(self.header_ok(mem, a));
            v.lemma_fused(a);
            lemma_tag(c.size, c.free, c.prev_free);
        }
        let size: u64 = self.block_size(mem, a);
        let next: u64 = a + HEADER + size;
        let next_size: u64 = self.block_size(mem, next);
        let combined: u64 = size + HEADER + next_size;
        let word: u64 = mem.read_u64(a);
        proof {
            lemma_tag_resized(c.size, combined, c.free, c.prev_free);
        }
        mem.write_u64(a, (word & 3) | combined);
        self.chunks = Ghost(v.fused(a).chunks);
        proof {
            let w = self@;
            assert(w =~= v.fused(a));
            old(self).lemma_header_touched(old(mem), mem, a, a);
            assert forall|d: u64| #[trigger] w.is_chunk(d) implies self.header_ok(mem, d) by {
                assert(v.is_chunk(d));
                assert(old(self).header_ok(old(mem), d));
            }
            self.lemma_lists_kept(old(self), old(mem), mem);
        }
    }

    /// The first block of a filled bucket is free, and large enough if the bucket is not
    /// before that of the rounded size.
    proof fn lemma_found(&self, mem: &Memory, size: u64, b: int)
        requires
            self.shape(mem),
            size >= 1,
            0 <= b < BUCKETS,
            bucket(rounded(size as int)) <= b,
            self@.lists[b].len() > 0,
        ensures
            self.free_lists@[b] == self@.lists[b][0],
            self@.is_free(self@.lists[b][0]),
            self@.chunks[self@.lists[b][0]].size >= size,
    {
        assert(self.list_ok(mem, b));
        let a = self@.lists[b][0];
        assert(self@.lists[b].contains(a));
        assert(self@.is_chunk(a));
        assert(self@.chunk_ok(a));
        law_bucket_fits(size as int, self@.chunks[a].size as int);
    }

    /// The first block of the first filled bucket whose blocks all have `size` bytes or
    /// more; it is free and large enough.
    fn find_free(&self, mem: &Memory, size: u64) -> (r: Option<u64>)
        requires
            self.shape(mem),
            1 <= size <= u64::MAX / 2,
        ensures
            r is Some <==> (rounded(size as int) < SIZE_LIMIT && first_filled(
                self@.lists,
                bucket(rounded(size as int)),
            ) < BUCKETS),
            r matches Some(a) ==> a == self@.lists[first_filled(
                self@.lists,
                bucket(rounded(size as int)),
            )][0] && self@.is_free(a) && self@.chunks[a].size >= size,
    {
        let (fl, sl) = Self::mapping_search(size);
        if fl >= FL_INDEX_COUNT {
            return None;
        }
        let ghost from = bucket(rounded(size as int));
        let ghost lists = self@.lists;
        match scan(self.sl_bitmap[fl], sl as u32) {
            Some(s) => {
                let found: usize = fl * SL_COUNT + s as usize;
                proof {
                    assert(self.sl_ok(fl as int, s as int));
                    assert forall|j: int| from <= j < found implies (#[trigger] lists[j]).len() == 0 by {
                        assert(self.sl_ok(fl as int, j - fl * SL_COUNT));
                        assert(!bit32(self.sl_bitmap@[fl as int], (j - fl * SL_COUNT) as u32));
                    }
                    lemma_first_filled_is(lists, from, found as int);
                    self.lemma_found(mem, size, found as int);
                }
                Some(self.free_lists[found])
            },
            None => {
                proof {
                    assert forall|j: int| from <= j < (fl + 1) * SL_COUNT implies (
                    #[trigger] lists[j]).len() == 0 by {
                        assert(self.sl_ok(fl as int, j - fl * SL_COUNT));
                        assert(!bit32(self.sl_bitmap@[fl as int], (j - fl * SL_COUNT) as u32));
                    }
                }
                match scan(self.fl_bitmap, (fl + 1) as u32) {
                    Some(f) => {
                        proof {
                            lemma_bit_none(self.fl_bitmap, f);
                            assert(self.fl_ok(f as int));
                        }
                        let s: u32 = self.sl_bitmap[f as usize].trailing_zeros();
                        proof {
                            let word = self.sl_bitmap@[f as int];
                            vstd::std_specs::bits::axiom_u32_trailing_zeros(word);
                            assert(bit32(word, s));
                        }
                        let found: usize = f as usize * SL_COUNT + s as usize;
                        proof {
                            assert(self.sl_ok(f as int, s as int));
                            assert forall|j: int| from <= j < found implies (
                            #[trigger] lists[j]).len() == 0 by {
                                let m = j / 32;
                                let t = j % 32;
                                assert(self.sl_ok(m, t));
                                if fl < m < f {
                                    assert(self.fl_ok(m));
                                    assert(!bit32(self.fl_bitmap, m as u32));
                                    if bit32(self.sl_bitmap@[m], t as u32) {
                                        lemma_bit_none(self.sl_bitmap@[m], t as u32);
                                    }
                                } else if m == f {
                                    assert((self.sl_bitmap@[f as int] >> (t as u32)) & 1u32
                                        == 0u32);
                                }
                            }
                            lemma_first_filled_is(lists, from, found as int);
                            self.lemma_found(mem, size, found as int);
                        }
                        Some(self.free_lists[found])
                    },
                    None => {
                        proof {
                            assert forall|j: int| from <= j < BUCKETS implies (
                            #[trigger] lists[j]).len() == 0 by {
                                let m = j / 32;
                                let t = j % 32;
                                assert(self.sl_ok(m, t));
                                if fl < m {
                                    assert(self.fl_ok(m));
                                    assert(!bit32(self.fl_bitmap, m as u32));
                                    if bit32(self.sl_bitmap@[m], t as u32) {
                                        lemma_bit_none(self.sl_bitmap@[m], t as u32);
                                    }
                                }
                            }
                            lemma_first_filled_is(lists, from, BUCKETS as int);
                        }
                        None
                    },
                }
            },
        }
    }

    /// Makes the `size` bytes at `base` the pool: one free block and the header that ends
    /// it.
    pub fn add_pool(&mut self, mem: &mut Memory, base: u64, size: u64)
        requires
            old(self).wf(old(mem)),
            old(self)@.base == 0,
            base > 0,
            base % 8 == 0,
            size > 2 * HEADER + BLOCK_MIN,
            size % 8 == 0,
            size < SIZE_LIMIT + 2 * HEADER,
            old(mem).holds(base as int, size as int),
        ensures
            final(self).wf(final(mem)),
            final(mem).same_range(old(mem)),
            final(self)@ == old(self)@.with_pool(base, size as int),
            forall|x: int|
                #![trigger final(mem).at(x)]
                old(mem).holds(x, 1) && !(base <= x < base + size) ==> final(mem).at(x) == old(
                    mem,
                ).at(x),
    {
        let ghost v = self@;
        self.pool_base = base;
        self.pool_size = size;
        let end: u64 = base + (size - HEADER);
        mem.write_u64(end, 0);
        mem.write_u64(end + 16, 0);
        mem.write_u64(end + 24, 0);
        let payload: u64 = size - 2 * HEADER;
        mem.write_u64(base, payload);
        mem.write_u64(base + 8, 0);
        mem.write_u64(end + 8, base);
        let ghost bare = TlsfView {
            base: base as int,
            size: size as int,
            chunks: Map::empty().insert(
                base,
                Chunk { size: payload, free: false, prev: 0, prev_free: false },
            ),
            lists: v.lists,
        };
        self.chunks = Ghost(bare.chunks);
        proof {
            assert(self@ =~= bare);
            lemma_tag_plain(payload);
            lemma_tag_plain(0);
            assert forall|a: u64| !#[trigger] v.is_chunk(a) by {}
            assert forall|b: int, a: u64| 0 <= b < BUCKETS implies !#[trigger] v.lists[b].contains(
                a,
            ) by {
                if v.lists[b].contains(a) {
                    assert(v.is_free(a));
                    assert(v.is_chunk(a));
                }
            }
            assert forall|b: int| 0 <= b < BUCKETS implies #[trigger] v.lists[b].len() == 0 by {
                if v.lists[b].len() > 0 {
                    assert(v.lists[b].contains(v.lists[b][0]));
                }
            }
            assert forall|a: u64| #[trigger] bare.is_chunk(a) implies a == base by {}
            assert(bare.is_chunk(base));
            assert(bare.chunk_ok(base));
            assert(bare.tiled());
            assert(bare.listed()) by {
                assert forall|a: u64| !#[trigger] bare.is_free(a) by {}
                assert forall|b: int| 0 <= b < BUCKETS implies #[trigger] bare.lists[b].no_duplicates() by {
                    assert(v.lists[b].no_duplicates());
                }
                assert forall|b: int, a: u64|
                    0 <= b < BUCKETS implies !#[trigger] bare.lists[b].contains(a) by {
                    assert(!v.lists[b].contains(a));
                }
            }
            assert forall|k: int| 0 <= k < BUCKETS implies #[trigger] self.list_ok(mem, k) by {
                assert(old(self).list_ok(old(mem), k));
                assert(v.lists[k].len() == 0);
            }
            assert forall|f: int| 0 <= f < FL_INDEX_COUNT implies #[trigger] self.fl_ok(f) by {
                assert(old(self).fl_ok(f));
            }
            assert forall|f: int, s: int|
                0 <= f < FL_INDEX_COUNT && 0 <= s < SL_COUNT implies #[trigger] self.sl_ok(f, s) by {
                assert(old(self).sl_ok(f, s));
            }
        }
        self.insert_free(mem, base);
        proof {
            bare.lemma_given(base);
            assert forall|a: u64| #[trigger] self@.is_chunk(a) implies a == base by {}
        }
    }

    /// Finds a block for `size` bytes, splitting off what is not needed; gives the address
    /// of its payload.
    #[verifier::rlimit(40)]
    pub fn allocate(&mut self, mem: &mut Memory, size: u64) -> (r: Option<u64>)
        requires
            old(self).wf(old(mem)),
        ensures
            final(self).wf(final(mem)),
            final(mem).same_range(old(mem)),
            r is Some <==> old(self)@.has_room(size as int),
            match r {
                Some(p) => {
                    &&& p == old(self)@.fit(size as int) + HEADER
                    &&& final(self)@ == old(self)@.after_alloc(size as int)
                },
                None => final(self)@ == old(self)@ && *final(mem) == *old(mem),
            },
            old(self)@.keeps_live(old(mem), final(mem)),
    {
        let ghost v = self@;
        if size >= SIZE_LIMIT {
            return None;
        }
        proof {
            lemma_padded(size as int);
        }
        let least: u64 = if size < BLOCK_MIN {
            BLOCK_MIN
        } else {
            size
        };
        let want: u64 = (least + 7) / 8 * 8;
        if want >= SIZE_LIMIT {
            proof {
                assert(rounded(want as int) >= want) by {
                    vstd::arithmetic::power2::lemma_pow2_pos((magnitude(want as int) - 5) as nat);
                }
            }
            return None;
        }
        let block: u64 = match self.find_free(mem, want) {
            Some(a) => a,
            None => {
                return None;
            },
        };
        proof {
            law_alloc_fits(v, size as int);
            law_alloc_valid(v, size as int);
            assert(v.is_chunk(block));
            assert(v.chunk_ok(block));
            v.lemma_taken(block);
            lemma_after(v, block);
        }
        self.remove_free(mem, block);
        let ghost v1 = self@;
        let have: u64 = self.block_size(mem, block);
        assert(v1.next(block) == v.next(block));
        if have - want >= HEADER + BLOCK_MIN {
            proof {
                v1.lemma_cut(block, want);
            }
            let rest: u64 = self.cut(mem, block, want);
            let ghost v2 = self@;
            let ghost mem2 = *mem;
            proof {
                v2.lemma_given(rest);
                assert(v2.chunk_ok(rest));
            }
            self.insert_free(mem, rest);
            let ghost v3 = self@;
            let ghost mem3 = *mem;
            let after: u64 = block + HEADER + have;
            assert(v3.next(rest) == after);
            self.set_prev(mem, after, rest);
            let ghost v4 = self@;
            let ghost mem4 = *mem;
            proof {
                v3.lemma_told(v4, after);
                assert(v4.next(block) == rest);
                assert(v4.is_chunk(rest));
            }
            self.set_prev_free(mem, rest, false);
            proof {
                assert(self@ == v.after_alloc(size as int));
                assert forall|c: u64, x: int| #[trigger]
                    v.payload(c, x) && !v.chunks[c].free implies mem.at(x) == old(mem).at(x) by {
                    assert(v.is_chunk(c));
                    assert(v1.payload(c, x));
                    assert(v2.is_chunk(c));
                    assert(v2.payload(c, x));
                    assert(v3.payload(c, x));
                    assert(v4.is_chunk(c));
                    assert(v4.payload(c, x));
                }
            }
        } else {
            let after: u64 = block + HEADER + have;
            self.set_prev_free(mem, after, false);
            proof {
                assert(self@ == v.after_alloc(size as int));
                assert forall|c: u64, x: int| #[trigger]
                    v.payload(c, x) && !v.chunks[c].free implies mem.at(x) == old(mem).at(x) by {
                    assert(v1.payload(c, x));
                }
            }
        }
        Some(block + HEADER)
    }

    /// Merges the block at `block` with the one before it, if that is free; gives the header
    /// of the merged block.
    fn merge_before(&mut self, mem: &mut Memory, block: u64) -> (merged: u64)
        requires
            old(self).wf(old(mem)),
            old(self)@.is_live(block),
        ensures
            final(self).shape(final(mem)),
            final(mem).same_range(old(mem)),
            merged == old(self)@.merged_start(block),
            final(self)@ == old(self)@.merged_before(block),
            old(self)@.keeps_live(old(mem), final(mem)),
    {
        let ghost v = self@;
        proof {
            assert(v.is_chunk(block));
            assert(v.chunk_ok(block));
            assert(self.header_ok(mem, block));
            let c = v.chunks[block];
            lemma_tag(c.size, c.free, c.prev_free);
        }
        let word: u64 = mem.read_u64(block);
        if word & 2 == 0 {
            return block;
        }
        let prev: u64 = mem.read_u64(block + 8);
        proof {
            assert(v.is_chunk(prev));
            assert(v.is_free(prev));
            v.lemma_taken(prev);
        }
        self.remove_free(mem, prev);
        let ghost t = self@;
        assert(t.next(prev) == block);
        self.fuse(mem, prev);
        proof {
            assert forall|c: u64, x: int| #[trigger]
                v.payload(c, x) && !v.chunks[c].free implies mem.at(x) == old(mem).at(x) by {
                assert(t.payload(c, x));
            }
        }
        prev
    }

    /// Merges the block at `m` with the one after it, if that is free.
    fn merge_after(&mut self, mem: &mut Memory, m: u64)
        requires
            old(self).shape(old(mem)),
            old(self)@.is_live(m),
        ensures
            final(self).shape(final(mem)),
            final(mem).same_range(old(mem)),
            final(self)@ == old(self)@.merged_after(m),
            old(self)@.keeps_live(old(mem), final(mem)),
    {
        let ghost v = self@;
        let size: u64 = self.block_size(mem, m);
        proof {
            assert(v.is_chunk(m));
            assert(v.chunk_ok(m));
            lemma_tiled_after(v, m);
        }
        let next: u64 = m + HEADER + size;
        proof {
            if v.is_chunk(next) {
                assert(self.header_ok(mem, next));
                assert(v.chunk_ok(next));
                let c = v.chunks[next];
                lemma_tag(c.size, c.free, c.prev_free);
            } else {
                lemma_tag(0, false, false);
                lemma_tag(0, false, true);
            }
        }
        let word: u64 = mem.read_u64(next);
        if word & 1 == 0 {
            return;
        }
        proof {
            v.lemma_taken(next);
        }
        self.remove_free(mem, next);
        let ghost t = self@;
        assert(t.next(m) == next);
        self.fuse(mem, m);
        proof {
            assert forall|c: u64, x: int| #[trigger]
                v.payload(c, x) && !v.chunks[c].free implies mem.at(x) == old(mem).at(x) by {
                assert(t.payload(c, x));
            }
        }
    }

    /// Takes back the block whose payload is at `ptr`, merging it with the free blocks that
    /// touch it.
    pub fn dealloc(&mut self, mem: &mut Memory, ptr: u64)
        requires
            old(self).wf(old(mem)),
            ptr >= HEADER,
            old(self)@.is_live((ptr - HEADER) as u64),
        ensures
            final(self).wf(final(mem)),
            final(mem).same_range(old(mem)),
            final(self)@ == old(self)@.after_dealloc((ptr - HEADER) as u64),
            old(self)@.keeps_live(old(mem), final(mem)),
    {
        let ghost v = self@;
        let block: u64 = ptr - HEADER;
        let ghost m = v.merged_start(block);
        proof {
            law_dealloc_valid(v, block);
            assert(v.is_chunk(block));
            lemma_merged_before(v, block);
            lemma_merged_after(v, v.merged_before(block), block, m);
        }
        let merged: u64 = self.merge_before(mem, block);
        let ghost v1 = self@;
        let ghost mem1 = *mem;
        self.merge_after(mem, merged);
        let ghost v2 = self@;
        let ghost mem2 = *mem;
        proof {
            v2.lemma_given(m);
        }
        self.insert_free(mem, merged);
        let ghost v3 = self@;
        let whole: u64 = self.block_size(mem, merged);
        proof {
            assert(v3.is_chunk(m));
            lemma_tiled_after(v3, m);
        }
        let after: u64 = merged + HEADER + whole;
        self.set_prev(mem, after, merged);
        let ghost v4 = self@;
        proof {
            v3.lemma_told(v4, after);
        }
        self.set_prev_free(mem, after, true);
        proof {
            assert forall|c: u64, x: int| #[trigger]
                v.payload(c, x) && !v.chunks[c].free implies mem.at(x) == old(mem).at(x) by {
                assert(v.is_chunk(c));
                assert(mem1.at(x) == old(mem).at(x));
                let d = if c != block {
                    c
                } else {
                    m
                };
                assert(v.chunk_ok(c));
                assert(m != block ==> v.chunks[m].free);
                assert(v1.is_chunk(d));
                assert(v1.payload(d, x));
                assert(!v1.chunks[d].free);
                assert(mem2.at(x) == mem1.at(x));
                assert(v2.is_chunk(d));
                assert(v2.payload(d, x));
                assert(v3.payload(d, x));
                assert(v4.is_chunk(d));
                assert(v4.payload(d, x));
            }
        }
    }
}

/// Bytes that a request with a size and an alignment asks of the heap: where the alignment
/// is larger than a word, as many more as moving the payload up may take.
pub open spec fn requested(size: int, align: int) -> int {
    (if size < BLOCK_MIN {
        BLOCK_MIN as int
    } else {
        size
    }) + (if align > 8 {
        align - 1
    } else {
        0
    })
}

/// A request with an alignment is met whenever a free block is larger by a part in thirty-two
/// than what the size, the alignment and the padding come to; and whatever is met leaves room
/// for the size wherever the alignment moves it.
pub proof fn law_aligned_room(v: TlsfView, size: int, align: int)
    requires
        v.valid(),
        0 <= size,
        1 <= align,
    ensures
        forall|a: u64| #[trigger]
            v.is_free(a) && 32 * v.chunks[a].size >= 33 * ((if size < 32 {
                32
            } else {
                size
            }) + 7 + (if align > 8 {
                align - 1
            } else {
                0
            })) ==> v.has_room(requested(size, align)),
        requested(size, align) >= size,
        align > 8 ==> requested(size, align) >= size + align - 1,
{
    law_room_by_size(v, requested(size, align));
}

proof fn lemma_small_alignment(align: u64)
    by (bit_vector)
    requires
        power_of_two(align),
        align <= 8,
    ensures
        align == 1 || align == 2 || align == 4 || align == 8,
{
}

/// The payload of the block that a request is given has room for it, wherever the alignment
/// moves it.
proof fn lemma_payload_fits(v: TlsfView, size: u64, align: u64)
    requires
        v.valid(),
        power_of_two(align),
        v.has_room(requested(size as int, align as int)),
    ensures
        ({
            let n = requested(size as int, align as int);
            let a = v.fit(n);
            let w = v.after_alloc(n);
            let ptr = aligned_up(a + HEADER, align as int);
            &&& w.is_live(a)
            &&& a + HEADER + (align - 1) <= u64::MAX || align <= 8
            &&& a + HEADER <= ptr
            &&& ptr + size <= a + HEADER + w.chunks[a].size
            &&& ptr % (align as int) == 0
            &&& align <= 8 ==> ptr == a + HEADER
        }),
{
    let n = requested(size as int, align as int);
    let a = v.fit(n);
    let w = v.after_alloc(n);
    assert(w.is_live(a) && (a + HEADER) % 8 == 0 && n <= w.chunks[a].size && a + HEADER
        + w.chunks[a].size <= u64::MAX) by {
        law_alloc_fits(v, n);
        law_alloc_valid(v, n);
        lemma_padded(n);
        assert(w.is_chunk(a));
        assert(w.chunk_ok(a));
    }
    lemma_moved_up(a + HEADER, align);
}

/// Moving an address up to an alignment takes less than the alignment, and nothing for one of
/// at most a word from a multiple of a word on.
proof fn lemma_moved_up(x: int, align: u64)
    requires
        power_of_two(align),
        0 <= x,
        x % 8 == 0,
    ensures
        align >= 1,
        x <= aligned_up(x, align as int) <= x + (align - 1),
        aligned_up(x, align as int) % (align as int) == 0,
        align <= 8 ==> aligned_up(x, align as int) == x,
{
    law_aligned_up(x, align as int);
    if align <= 8 {
        lemma_small_alignment(align);
    }
}

/// The kernel heap: a [`TlsfInner`] whose pool comes from the buddy allocator.
pub struct TlsfAllocator {
    inner: TlsfInner,
}

impl View for TlsfAllocator {
    type V = TlsfView;

    closed spec fn view(&self) -> TlsfView {
        self.inner@
    }
}

impl TlsfAllocator {
    /// The heap is consistent and its pool lies in `mem`.
    pub closed spec fn wf(&self, mem: &Memory) -> bool {
        self.inner.wf(mem)
    }

    /// What a consistent heap promises.
    pub proof fn lemma_wf(&self, mem: &Memory)
        requires
            self.wf(mem),
        ensures
            mem.wf(),
            self@.valid(),
            self@.base > 0 ==> mem.holds(self@.base, self@.size),
    {
        self.inner.lemma_wf(mem);
    }

    /// A consistent heap stays so while no header byte changes.
    pub proof fn lemma_frame(&self, before: &Memory, after: &Memory)
        requires
            self.wf(before),
            after.wf(),
            after.same_range(before),
            forall|x: int|
                #![trigger after.at(x)]
                self@.in_header(x) ==> after.at(x) == before.at(x),
        ensures
            self.wf(after),
    {
        self.inner.lemma_frame(before, after);
    }

    /// A heap without a pool.
    pub fn new() -> (t: Self)
        ensures
            t@ == TlsfView::empty(),
            forall|mem: Memory| mem.wf() ==> #[trigger] t.wf(&mem),
    {
        let t = TlsfAllocator { inner: TlsfInner::new() };
        proof {
            assert forall|mem: Memory| mem.wf() implies #[trigger] t.wf(&mem) by {
                assert(t.inner.wf(&mem));
            }
        }
        t
    }

    /// Makes the `size` bytes at `base` the pool.
    pub fn add_pool(&mut self, mem: &mut Memory, base: u64, size: u64)
        requires
            old(self).wf(old(mem)),
            old(self)@.base == 0,
            base > 0,
            base % 8 == 0,
            size > 2 * HEADER + BLOCK_MIN,
            size % 8 == 0,
            size < SIZE_LIMIT + 2 * HEADER,
            old(mem).holds(base as int, size as int),
        ensures
            final(self).wf(final(mem)),
            final(mem).same_range(old(mem)),
            final(self)@ == old(self)@.with_pool(base, size as int),
            forall|x: int|
                #![trigger final(mem).at(x)]
                old(mem).holds(x, 1) && !(base <= x < base + size) ==> final(mem).at(x) == old(
                    mem,
                ).at(x),
    {
        self.inner.add_pool(mem, base, size);
    }

    /// Takes `2^buddy_order` pages from `buddy` as the pool, if there are any.
    pub fn init(
        &mut self,
        buddy: &mut BuddyAllocator,
        mem: &mut Memory,
        buddy_order: usize,
    ) -> (r: Result<(), &'static str>)
        requires
            old(self).wf(old(mem)),
            old(self)@.base == 0,
            old(buddy).wf(old(mem)),
            buddy_order < BUDDY_MAX_ORDER,
            old(buddy)@.can_alloc(buddy_order as int),
        ensures
            final(self).wf(final(mem)),
            final(buddy).wf(final(mem)),
            final(mem).same_range(old(mem)),
            match r {
                Ok(_) => {
                    &&& old(buddy)@.has_room(buddy_order as int)
                    &&& final(buddy)@ == old(buddy)@.after_alloc(buddy_order as int)
                    &&& final(self)@ == old(self)@.with_pool(
                        old(buddy)@.addr(old(buddy)@.next_page(buddy_order as int)) as u64,
                        span(buddy_order as int) * PAGE_SIZE,
                    )
                },
                Err(e) => {
                    &&& !old(buddy)@.has_room(buddy_order as int)
                    &&& e@ == "TLSF init: buddy OOM — reduce buddy_order or add more regions"@
                    &&& final(buddy)@ == old(buddy)@
                    &&& final(self)@ == old(self)@
                },
            },
            forall|x: int|
                #![trigger final(mem).at(x)]
                old(mem).holds(x, 1) && !old(buddy)@.in_free(x) ==> final(mem).at(x) == old(
                    mem,
                ).at(x),
    {
        let ghost b = buddy@;
        let ghost k = buddy_order as int;
        let ghost p = b.next_page(k);
        proof {
            buddy.lemma_wf(mem);
            lemma_span(k);
            vstd::arithmetic::power2::lemma2_to64();
            vstd::bits::lemma_u64_shl_is_mul(PAGE_SIZE, buddy_order as u64);
            if b.has_room(k) {
                law_alloc_block(b, k);
                buddy_laws::law_alloc_valid(b, k);
            }
            lemma_page_multiple(span(k));
            self.lemma_wf(mem);
            assert forall|x: int| #[trigger] self@.in_header(x) implies false by {
                assert forall|a: u64| !#[trigger] self@.is_chunk(a) by {}
            }
        }
        let size: u64 = PAGE_SIZE << (buddy_order as u64);
        let ghost before = *mem;
        match buddy.alloc_pages(mem, buddy_order) {
            None => {
                proof {
                    buddy.lemma_wf(mem);
                    self.lemma_frame(&before, mem);
                }
                Err("TLSF init: buddy OOM — reduce buddy_order or add more regions")
            },
            Some(pool) => {
                let ghost taken = *mem;
                proof {
                    buddy.lemma_wf(mem);
                    let w = buddy@;
                    assert(w.is_live(p, k));
                    assert(w.is_block(p, k));
                    assert(w.addr(p) == pool);
                    self.lemma_frame(&before, mem);
                }
                self.inner.add_pool(mem, pool, size);
                proof {
                    let w = buddy@;
                    assert forall|x: int|
                        #![trigger mem.at(x)]
                        w.in_free(x) implies mem.at(x) == taken.at(x) by {
                        if pool <= x < pool + size {
                            law_live_untouched(w, p, k, x);
                        }
                        let (q, j) = choose|q: int, j: int| #[trigger]
                            w.is_free(q, j) && w.addr(q) <= x < w.addr(q + span(j));
                        assert(w.is_block(q, j));
                    }
                    buddy.lemma_frame(&taken, mem);
                    assert forall|x: int|
                        #![trigger mem.at(x)]
                        before.holds(x, 1) && !b.in_free(x) implies mem.at(x) == before.at(x) by {
                        assert(taken.at(x) == before.at(x));
                    }
                }
                Ok(())
            },
        }
    }

    /// Finds a place for `size` bytes at a multiple of `align`; gives its address, or zero
    /// if there is no room.
    pub fn allocate(&mut self, mem: &mut Memory, size: u64, align: u64) -> (ptr: u64)
        requires
            old(self).wf(old(mem)),
            size <= i64::MAX,
            power_of_two(align),
        ensures
            final(self).wf(final(mem)),
            final(mem).same_range(old(mem)),
            ptr != 0 <==> old(self)@.has_room(requested(size as int, align as int)),
            ptr == 0 ==> final(self)@ == old(self)@ && *final(mem) == *old(mem),
            ptr != 0 ==> ({
                let n = requested(size as int, align as int);
                let a = old(self)@.fit(n);
                &&& final(self)@ == old(self)@.after_alloc(n)
                &&& final(self)@.is_live(a)
                &&& ptr == aligned_up(a + HEADER, align as int)
                &&& ptr as int % align as int == 0
                &&& a + HEADER <= ptr
                &&& ptr + size <= a + HEADER + final(self)@.chunks[a].size
                &&& align <= 8 ==> ptr == a + HEADER
            }),
            old(self)@.keeps_live(old(mem), final(mem)),
    {
        proof {
            self.lemma_wf(mem);
            assert(align <= 0x8000_0000_0000_0000) by (bit_vector)
                requires
                    power_of_two(align),
            ;
        }
        let least: u64 = if size < BLOCK_MIN {
            BLOCK_MIN
        } else {
            size
        };
        let extra: u64 = if align > 8 {
            align - 1
        } else {
            0
        };
        let ghost v = self@;
        match self.inner.allocate(mem, least + extra) {
            None => 0,
            Some(p) => {
                proof {
                    lemma_payload_fits(v, size, align);
                }
                if align > 8 {
                    align_up(p, align)
                } else {
                    p
                }
            },
        }
    }

    /// Takes back what [`TlsfAllocator::allocate`] gave for an alignment of at most a word.
    pub fn dealloc(&mut self, mem: &mut Memory, ptr: u64)
        requires
            old(self).wf(old(mem)),
            ptr >= HEADER,
            old(self)@.is_live((ptr - HEADER) as u64),
        ensures
            final(self).wf(final(mem)),
            final(mem).same_range(old(mem)),
            final(self)@ == old(self)@.after_dealloc((ptr - HEADER) as u64),
            old(self)@.keeps_live(old(mem), final(mem)),
    {
        self.inner.dealloc(mem, ptr);
    }
}

/// Whole pages are multiples of a word.
proof fn lemma_page_multiple(n: int)
    ensures
        (n * PAGE_SIZE) % 8 == 0,
{
}

/// A heap with a free block that is large enough, by a part in thirty-two and what the alignment
/// and the padding take, gives a place for a request: it starts at a multiple of the alignment,
/// all of it was free, and every byte of what was handed out before stays.
pub proof fn law_allocate(
    heap: &mut TlsfAllocator,
    mem: &mut Memory,
    size: u64,
    align: u64,
    ptr: u64,
    a: u64,
    c: u64,
    x: int,
)
    requires
        old(heap).wf(old(mem)),
        size <= i64::MAX,
        power_of_two(align),
        call_ensures(TlsfAllocator::allocate, (heap, mem, size, align), ptr),
    ensures
        old(heap)@.is_free(a) && 32 * old(heap)@.chunks[a].size >= 33 * ((if size < 32 {
            32
        } else {
            size as int
        }) + 7 + (if align > 8 {
            align - 1
        } else {
            0
        })) ==> ptr != 0,
        ptr != 0 ==> ptr as int % align as int == 0,
        ptr != 0 ==> exists|b: u64| #[trigger]
            old(heap)@.is_free(b) && b + 32 <= ptr && ptr + size <= b + 32
                + old(heap)@.chunks[b].size,
        old(heap)@.is_live(c) && c + 32 <= x < c + 32 + old(heap)@.chunks[c].size ==> final(mem).at(
            x,
        ) == old(mem).at(x),
        old(heap)@.is_live(c) ==> final(heap)@.is_live(c) && final(heap)@.chunks[c].size
            == old(heap)@.chunks[c].size,
{
    let v = old(heap)@;
    old(heap).lemma_wf(old(mem));
    law_aligned_room(v, size as int, align as int);
    law_keeps_live(v, old(mem), final(mem), c, x);
    let n = requested(size as int, align as int);
    if ptr != 0 {
        law_alloc_fits(v, n);
        law_alloc_valid(v, n);
        let b = v.fit(n);
        v.lemma_taken(b);
        assert(v.is_chunk(b));
        assert(v.chunk_ok(b));
        assert(v.is_free(b));
        assert(v.after_alloc(n).chunks[b].size <= v.chunks[b].size);
        if v.is_live(c) {
            law_alloc_keeps_live(v, n, c);
        }
    }
}

/// Giving a block back leaves every other one handed out, byte for byte.
pub proof fn law_dealloc(heap: &mut TlsfAllocator, mem: &mut Memory, ptr: u64, c: u64, x: int)
    requires
        old(heap).wf(old(mem)),
        ptr >= HEADER,
        old(heap)@.is_live((ptr - HEADER) as u64),
        call_ensures(TlsfAllocator::dealloc, (heap, mem, ptr), ()),
        old(heap)@.is_live(c),
        c != ptr - 32,
    ensures
        final(heap)@.is_live(c),
        final(heap)@.chunks[c].size == old(heap)@.chunks[c].size,
        c + 32 <= x < c + 32 + old(heap)@.chunks[c].size ==> final(mem).at(x) == old(mem).at(x),
        exists|b: u64| #[trigger]
            final(heap)@.is_free(b) && final(heap)@.payload(b, ptr as int),
{
    let v = old(heap)@;
    old(heap).lemma_wf(old(mem));
    let a = (ptr - HEADER) as u64;
    law_dealloc_keeps_live(v, a, c);
    law_keeps_live(v, old(mem), final(mem), c, x);
    assert(v.is_chunk(a));
    assert(v.chunk_ok(a));
    assert(v.payload(a, ptr as int));
    law_dealloc_frees(v, a, a, ptr as int);
}

} // verus!
