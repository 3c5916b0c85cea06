//! The state of a two-level segregated fit heap, and what each operation makes of it.

use vstd::arithmetic::div_mod::{
    lemma_div_is_ordered, lemma_fundamental_div_mod, lemma_fundamental_div_mod_converse,
};
use vstd::arithmetic::power2::{
    lemma2_to64, lemma_pow2_adds, lemma_pow2_pos, lemma_pow2_strictly_increases, lemma_pow2_unfold,
    pow2,
};
use vstd::prelude::*;

verus! {

/// Base-two logarithm of the number of sub-buckets of a magnitude.
pub const SL_INDEX_COUNT: u64 = 5;

/// Number of magnitudes; payloads are smaller than `2^30` bytes.
pub const FL_INDEX_COUNT: usize = 30;

/// Sub-buckets of a magnitude.
pub const SL_COUNT: usize = 32;

/// Buckets in all.
pub const BUCKETS: usize = 960;

/// Least payload of a block.
pub const BLOCK_MIN: u64 = 32;

/// Bytes of the header in front of every payload.
pub const HEADER: u64 = 32;

/// Payloads are smaller than this.
pub const SIZE_LIMIT: u64 = 0x4000_0000;

/// The largest `f` with `2^f <= size`.
pub open spec fn magnitude(size: int) -> int
    decreases size,
{
    if size < 2 {
        0
    } else {
        1 + magnitude(size / 2)
    }
}

/// Width of the sub-buckets of the magnitude of `size`: where a magnitude has fewer sizes
/// than sub-buckets, each size has its own.
pub open spec fn grain(size: int) -> int {
    if magnitude(size) < SL_INDEX_COUNT {
        1
    } else {
        pow2((magnitude(size) - SL_INDEX_COUNT) as nat) as int
    }
}

/// The sub-bucket of a payload size within its magnitude, which is cut into [`SL_COUNT`]
/// equal parts.
#[verifier::opaque]
pub open spec fn sub_bucket(size: int) -> int {
    let least = pow2(magnitude(size) as nat) as int;
    (size - least) * SL_COUNT / least
}

/// The bucket of a payload size: magnitudes are cut into [`SL_COUNT`] equal parts each.
pub open spec fn bucket(size: int) -> int {
    magnitude(size) * SL_COUNT + sub_bucket(size)
}

/// A size such that its bucket, and each later one, holds blocks of at least `size` bytes.
pub open spec fn rounded(size: int) -> int {
    size + grain(size) - 1
}

/// The payload that a request for `size` bytes takes.
pub open spec fn padded(size: int) -> int {
    ((if size < BLOCK_MIN {
        BLOCK_MIN as int
    } else {
        size
    }) + 7) / 8 * 8
}

/// The first bucket from `b` on that is not empty; [`BUCKETS`] if none is.
pub open spec fn first_filled(lists: Seq<Seq<u64>>, b: int) -> int
    decreases BUCKETS - b,
{
    if b >= BUCKETS {
        BUCKETS as int
    } else if lists[b].len() > 0 {
        b
    } else {
        first_filled(lists, b + 1)
    }
}

/// A size lies between the power of two of its magnitude and the next one.
pub proof fn lemma_magnitude(size: int)
    requires
        size >= 1,
    ensures
        0 <= magnitude(size),
        pow2(magnitude(size) as nat) <= size < pow2((magnitude(size) + 1) as nat),
    decreases size,
{
    lemma2_to64();
    if size >= 2 {
        lemma_magnitude(size / 2);
        lemma_pow2_unfold(magnitude(size) as nat);
        lemma_pow2_unfold((magnitude(size) + 1) as nat);
    }
}

/// Only the magnitude has that property.
pub proof fn lemma_magnitude_is(size: int, f: int)
    requires
        0 <= f,
        pow2(f as nat) <= size < pow2((f + 1) as nat),
    ensures
        magnitude(size) == f,
{
    lemma_pow2_pos(f as nat);
    lemma_magnitude(size);
    let m = magnitude(size);
    if f < m && f + 1 < m {
        lemma_pow2_strictly_increases((f + 1) as nat, m as nat);
    }
    if m < f && m + 1 < f {
        lemma_pow2_strictly_increases((m + 1) as nat, f as nat);
    }
}

/// A larger size has no smaller magnitude.
proof fn lemma_magnitude_monotone(s: int, t: int)
    requires
        1 <= s <= t,
    ensures
        magnitude(s) <= magnitude(t),
{
    lemma_magnitude(s);
    lemma_magnitude(t);
    if magnitude(t) + 1 < magnitude(s) {
        lemma_pow2_strictly_increases((magnitude(t) + 1) as nat, magnitude(s) as nat);
    }
}

/// Every size lies in its part of its magnitude: from magnitude five on the parts are
/// [`grain`] bytes wide, below it each size has a part of its own.
pub proof fn law_class(size: int)
    requires
        size >= 1,
    ensures
        ({
            let m = magnitude(size);
            let least = pow2(m as nat) as int;
            let s = sub_bucket(size);
            let g = grain(size);
            &&& 0 <= m
            &&& 1 <= g
            &&& least <= size < 2 * least
            &&& 0 <= s < SL_COUNT
            &&& 0 <= bucket(size)
            &&& m >= SL_INDEX_COUNT ==> {
                &&& least == SL_COUNT * g
                &&& s == size / g - SL_COUNT
                &&& least + s * g <= size < least + (s + 1) * g
            }
            &&& m < SL_INDEX_COUNT ==> {
                &&& s == (size - least) * pow2((SL_INDEX_COUNT - m) as nat)
                &&& least * pow2((SL_INDEX_COUNT - m) as nat) == SL_COUNT
            }
        }),
{
    reveal(sub_bucket);
    let m = magnitude(size);
    lemma2_to64();
    lemma_magnitude(size);
    lemma_pow2_unfold((m + 1) as nat);
    lemma_pow2_pos(m as nat);
    let least = pow2(m as nat) as int;
    let x = size - least;
    let s = sub_bucket(size);
    assert(0 <= x * 32 / least < 32) by (nonlinear_arith)
        requires
            0 <= x < least,
    ;
    if m >= 5 {
        let g = grain(size);
        lemma_pow2_pos((m - 5) as nat);
        lemma_pow2_adds((m - 5) as nat, 5);
        assert(least == 32 * g);
        let q = size / g;
        let r = size % g;
        lemma_fundamental_div_mod(size, g);
        assert(x * 32 == (q - 32) * least + 32 * r) by (nonlinear_arith)
            requires
                size == g * q + r,
                least == 32 * g,
                x == size - least,
        ;
        lemma_fundamental_div_mod_converse(x * 32, least, q - 32, 32 * r);
        assert(least + s * g <= size < least + (s + 1) * g) by (nonlinear_arith)
            requires
                s == q - 32,
                size == g * q + r,
                0 <= r < g,
                least == 32 * g,
        ;
    } else {
        let w = pow2((5 - m) as nat) as int;
        lemma_pow2_adds(m as nat, (5 - m) as nat);
        assert(x * 32 == (x * w) * least + 0) by (nonlinear_arith)
            requires
                least * w == 32,
        ;
        lemma_fundamental_div_mod_converse(x * 32, least, x * w, 0);
    }
}

/// The magnitudes are those of the sizes within the limit.
pub proof fn lemma_limit(size: int)
    requires
        size >= 1,
    ensures
        magnitude(size) < FL_INDEX_COUNT <==> size < SIZE_LIMIT,
        magnitude(size) >= SL_INDEX_COUNT <==> size >= BLOCK_MIN,
{
    let m = magnitude(size);
    lemma2_to64();
    lemma_magnitude(size);
    if m + 1 < 5 {
        lemma_pow2_strictly_increases((m + 1) as nat, 5);
    }
    if m > 5 {
        lemma_pow2_strictly_increases(5, m as nat);
    }
    if m + 1 < 30 {
        lemma_pow2_strictly_increases((m + 1) as nat, 30);
    }
    if m > 30 {
        lemma_pow2_strictly_increases(30, m as nat);
    }
}

/// Sizes within the limits have a bucket.
pub proof fn lemma_bucket(size: int)
    requires
        BLOCK_MIN <= size < SIZE_LIMIT,
    ensures
        SL_INDEX_COUNT <= magnitude(size) < FL_INDEX_COUNT,
        1 <= grain(size),
        pow2(magnitude(size) as nat) == SL_COUNT * grain(size),
        SL_COUNT * grain(size) <= size < 2 * SL_COUNT * grain(size),
        0 <= sub_bucket(size) < SL_COUNT,
        0 <= bucket(size) < BUCKETS,
{
    law_class(size);
    lemma_limit(size);
}

/// A larger size has no smaller bucket.
pub proof fn lemma_bucket_monotone(s: int, t: int)
    requires
        1 <= s <= t,
    ensures
        bucket(s) <= bucket(t),
{
    lemma_magnitude_monotone(s, t);
    law_class(s);
    law_class(t);
    if magnitude(s) == magnitude(t) {
        reveal(sub_bucket);
        let least = pow2(magnitude(s) as nat) as int;
        lemma_div_is_ordered((s - least) * 32, (t - least) * 32, least);
    }
}

/// A block from the bucket of the rounded size, or from a later one, is large enough.
pub proof fn law_bucket_fits(size: int, t: int)
    requires
        1 <= size,
        1 <= t,
        bucket(t) >= bucket(rounded(size)),
    ensures
        t >= size,
{
    law_class(size);
    let g = grain(size);
    let r = rounded(size);
    let m = magnitude(size);
    law_class(r);
    law_class(t);
    if t < size {
        lemma_magnitude_monotone(t, size);
        lemma_magnitude_monotone(size, r);
        assert(magnitude(t) == m && magnitude(r) == m);
        let least = pow2(m as nat) as int;
        if m < 5 {
            let w = pow2((5 - m) as nat) as int;
            assert((t - least) * w < (size - least) * w) by (nonlinear_arith)
                requires
                    t < size,
                    least * w == 32,
                    least >= 1,
            ;
        } else {
            assert(t / g < r / g) by (nonlinear_arith)
                requires
                    t < size,
                    r == size + g - 1,
                    g >= 1,
            ;
        }
    }
}

/// The bucket of the rounded size is the first whose blocks are all large enough: a bucket
/// before it that any size falls into has a size that is too small.
pub proof fn law_bucket_least(size: int, t: int)
    requires
        1 <= size,
        1 <= t,
        bucket(t) < bucket(rounded(size)),
    ensures
        exists|s: int| 1 <= s < size && #[trigger] bucket(s) == bucket(t),
{
    law_class(size);
    let g = grain(size);
    let r = rounded(size);
    let m = magnitude(size);
    law_class(r);
    law_class(t);
    if t < size {
        assert(bucket(t) == bucket(t));
    } else {
        if t >= r {
            lemma_bucket_monotone(r, t);
        }
        assert(m >= 5);
        lemma_magnitude_monotone(size, t);
        lemma_magnitude_monotone(t, r);
        let least = pow2(m as nat) as int;
        lemma_pow2_unfold((m + 1) as nat);
        if magnitude(t) == m {
            let q = t / g;
            let s = q * g;
            assert(32 * g <= s <= t && q <= 63) by (nonlinear_arith)
                requires
                    q == t / g,
                    s == q * g,
                    32 * g <= t < 64 * g,
                    g >= 1,
            ;
            lemma_magnitude_is(s, m);
            law_class(s);
            assert(s / g == q) by (nonlinear_arith)
                requires
                    s == q * g,
                    g >= 1,
            ;
            if magnitude(r) == m {
                assert(s < size) by (nonlinear_arith)
                    requires
                        q < r / g,
                        r == size + g - 1,
                        s == q * g,
                        g >= 1,
                ;
            } else {
                lemma_magnitude_from(r, m + 1);
                assert(s < size) by (nonlinear_arith)
                    requires
                        q <= 63,
                        s == q * g,
                        size + g - 1 >= 64 * g,
                        g >= 1,
                ;
            }
            assert(bucket(s) == bucket(t));
        } else {
            lemma_magnitude_from(t, m + 1);
            lemma_pow2_unfold((m + 2) as nat);
            lemma_magnitude_is(t, m + 1);
            lemma_magnitude_is(r, m + 1);
            lemma_pow2_unfold((m + 1 - 5) as nat);
            assert(t / (2 * g) == 32 && r / (2 * g) == 32) by (nonlinear_arith)
                requires
                    64 * g <= t < 66 * g,
                    64 * g <= r < 66 * g,
                    g >= 1,
            ;
            assert(false);
        }
    }
}

/// A size of a magnitude of at least `f` is at least the power of two of `f`.
proof fn lemma_magnitude_from(size: int, f: int)
    requires
        size >= 1,
        0 <= f <= magnitude(size),
    ensures
        size >= pow2(f as nat),
{
    lemma_magnitude(size);
    if f < magnitude(size) {
        lemma_pow2_strictly_increases(f as nat, magnitude(size) as nat);
    }
}

/// A filled bucket with only empty ones before it is the first filled one.
pub proof fn lemma_first_filled_is(lists: Seq<Seq<u64>>, b: int, f: int)
    requires
        0 <= b <= f <= BUCKETS,
        f < BUCKETS ==> lists[f].len() > 0,
        forall|j: int| b <= j < f ==> (#[trigger] lists[j]).len() == 0,
    ensures
        first_filled(lists, b) == f,
    decreases f - b,
{
    if b < f {
        assert(lists[b].len() == 0);
        lemma_first_filled_is(lists, b + 1, f);
    }
}

/// The first filled bucket is in range and filled, and those before it are empty.
pub proof fn lemma_first_filled(lists: Seq<Seq<u64>>, b: int)
    requires
        0 <= b <= BUCKETS,
    ensures
        b <= first_filled(lists, b) <= BUCKETS,
        first_filled(lists, b) < BUCKETS ==> lists[first_filled(lists, b)].len() > 0,
        forall|j: int| b <= j < first_filled(lists, b) ==> (#[trigger] lists[j]).len() == 0,
    decreases BUCKETS - b,
{
    if b < BUCKETS && lists[b].len() == 0 {
        lemma_first_filled(lists, b + 1);
    }
}

/// One block of the heap, as its header tells.
pub struct Chunk {
    /// Bytes of payload.
    pub size: u64,
    /// On a free list.
    pub free: bool,
    /// Header of the physically preceding block; zero for the first.
    pub prev: u64,
    /// The physically preceding block is free.
    pub prev_free: bool,
}

/// What a heap holds, block by block.
#[verifier::ext_equal]
pub struct TlsfView {
    /// Address of the pool; zero until there is one.
    pub base: int,
    /// Bytes of the pool.
    pub size: int,
    /// The blocks, by the address of their header.
    pub chunks: Map<u64, Chunk>,
    /// For each bucket, the headers of its free blocks, in list order.
    pub lists: Seq<Seq<u64>>,
}

impl TlsfView {
    /// A heap without a pool.
    pub open spec fn empty() -> TlsfView {
        TlsfView {
            base: 0,
            size: 0,
            chunks: Map::empty(),
            lists: Seq::new(BUCKETS as nat, |b: int| Seq::empty()),
        }
    }

    /// Address of the header that ends the pool.
    pub open spec fn end(self) -> int {
        self.base + self.size - HEADER
    }

    /// A block starts at `a`.
    pub open spec fn is_chunk(self, a: u64) -> bool {
        self.chunks.dom().contains(a)
    }

    /// A free block starts at `a`.
    pub open spec fn is_free(self, a: u64) -> bool {
        self.is_chunk(a) && self.chunks[a].free
    }

    /// A block that is handed out starts at `a`.
    pub open spec fn is_live(self, a: u64) -> bool {
        self.is_chunk(a) && !self.chunks[a].free
    }

    /// Where the block after the one at `a` starts.
    pub open spec fn next(self, a: u64) -> u64 {
        (a + HEADER + self.chunks[a].size) as u64
    }

    /// `x` lies in the payload of the block at `a`.
    pub open spec fn payload(self, a: u64, x: int) -> bool {
        self.is_chunk(a) && a + HEADER <= x < a + HEADER + self.chunks[a].size
    }

    /// `x` lies in a header.
    pub open spec fn in_header(self, x: int) -> bool {
        ||| self.base > 0 && self.end() <= x < self.end() + HEADER
        ||| exists|a: u64| #[trigger] self.is_chunk(a) && a <= x < a + HEADER
    }

    /// Neither what lies outside the pool nor any payload, but that of the block at `but`,
    /// differs between the two memories.
    pub open spec fn keeps(
        self,
        before: &crate::memory::Memory,
        after: &crate::memory::Memory,
        but: u64,
    ) -> bool {
        &&& forall|x: int|
            #![trigger after.at(x)]
            before.holds(x, 1) && !(self.base <= x < self.base + self.size) ==> after.at(x)
                == before.at(x)
        &&& forall|a: u64, x: int| #[trigger]
            self.payload(a, x) && a != but ==> after.at(x) == before.at(x)
    }

    /// Neither what lies outside the pool nor the payload of any block that is handed out
    /// differs between the two memories.
    pub open spec fn keeps_live(
        self,
        before: &crate::memory::Memory,
        after: &crate::memory::Memory,
    ) -> bool {
        &&& forall|x: int|
            #![trigger after.at(x)]
            before.holds(x, 1) && !(self.base <= x < self.base + self.size) ==> after.at(x)
                == before.at(x)
        &&& forall|a: u64, x: int| #[trigger]
            self.payload(a, x) && !self.chunks[a].free ==> after.at(x) == before.at(x)
    }

    /// The block at `a` lies in the pool, and another one or the end of the pool follows.
    pub open spec fn chunk_ok(self, a: u64) -> bool {
        let size = self.chunks[a].size;
        &&& self.base > 0
        &&& self.base <= a
        &&& a % 8 == 0
        &&& BLOCK_MIN <= size < SIZE_LIMIT
        &&& size % 8 == 0
        &&& a + HEADER + size <= self.end()
        &&& a + HEADER + size < self.end() ==> self.chunks.dom().contains(self.next(a))
    }

    /// Blocks cover the pool, from its start to the header that ends it.
    pub open spec fn tiled(self) -> bool {
        &&& 0 <= self.base
        &&& self.base + self.size <= u64::MAX
        &&& self.base > 0 ==> {
            &&& self.is_chunk(self.base as u64)
            &&& 2 * HEADER < self.size < SIZE_LIMIT + 2 * HEADER
            &&& self.base % 8 == 0
        }
        &&& forall|a: u64| #[trigger] self.is_chunk(a) ==> self.chunk_ok(a)
        &&& forall|a: u64, b: u64|
            #![trigger self.is_chunk(a), self.is_chunk(b)]
            self.is_chunk(a) && self.is_chunk(b) && a < b ==> a + HEADER + self.chunks[a].size <= b
    }

    /// The lists hold each free block once, in its bucket, and nothing else.
    pub open spec fn listed(self) -> bool {
        &&& self.lists.len() == BUCKETS
        &&& forall|b: int, a: u64|
            0 <= b < BUCKETS && #[trigger] self.lists[b].contains(a) ==> self.is_free(a) && bucket(
                self.chunks[a].size as int,
            ) == b
        &&& forall|a: u64| #[trigger]
            self.is_free(a) ==> self.lists[bucket(self.chunks[a].size as int)].contains(a)
        &&& forall|b: int| 0 <= b < BUCKETS ==> #[trigger] self.lists[b].no_duplicates()
    }

    /// What each header tells of the preceding block is so, and no two free blocks touch.
    pub open spec fn settled(self) -> bool {
        &&& forall|a: u64| #[trigger]
            self.is_chunk(a) ==> {
                let prev = self.chunks[a].prev;
                &&& a == self.base <==> prev == 0
                &&& prev != 0 ==> self.chunks.dom().contains(prev) && self.next(prev) == a
                &&& self.chunks[a].prev_free == (prev != 0 && self.chunks[prev].free)
                &&& self.chunks[a].free ==> !self.chunks[a].prev_free
            }
    }

    /// The state of a heap between two operations.
    pub open spec fn valid(self) -> bool {
        self.tiled() && self.listed() && self.settled()
    }

    /// The heap with the free block at `a` taken off its list.
    pub open spec fn taken(self, a: u64) -> TlsfView {
        let b = bucket(self.chunks[a].size as int);
        TlsfView {
            chunks: self.chunks.insert(a, Chunk { free: false, ..self.chunks[a] }),
            lists: self.lists.update(b, self.lists[b].remove(self.lists[b].index_of(a))),
            ..self
        }
    }

    /// The heap with the block at `a` put in front of its list.
    pub open spec fn given(self, a: u64) -> TlsfView {
        let b = bucket(self.chunks[a].size as int);
        TlsfView {
            chunks: self.chunks.insert(a, Chunk { free: true, ..self.chunks[a] }),
            lists: self.lists.update(b, seq![a] + self.lists[b]),
            ..self
        }
    }

    /// The heap with the block at `a` cut down to `size` bytes of payload; the rest is a
    /// block of its own.
    pub open spec fn cut(self, a: u64, size: u64) -> TlsfView {
        let rest = (self.chunks[a].size - size - HEADER) as u64;
        TlsfView {
            chunks: self.chunks.insert(a, Chunk { size, ..self.chunks[a] }).insert(
                (a + HEADER + size) as u64,
                Chunk { size: rest, free: false, prev: a, prev_free: false },
            ),
            ..self
        }
    }

    /// The heap with the block after the one at `a` made part of it.
    pub open spec fn fused(self, a: u64) -> TlsfView {
        let n = self.next(a);
        let size = (self.chunks[a].size + HEADER + self.chunks[n].size) as u64;
        TlsfView {
            chunks: self.chunks.remove(n).insert(a, Chunk { size, ..self.chunks[a] }),
            ..self
        }
    }

    /// The heap with `prev` in the header at `a`; the header that ends the pool is no block.
    pub open spec fn with_prev(self, a: u64, prev: u64) -> TlsfView {
        if self.is_chunk(a) {
            TlsfView { chunks: self.chunks.insert(a, Chunk { prev, ..self.chunks[a] }), ..self }
        } else {
            self
        }
    }

    /// The heap with `prev_free` in the header at `a`; the header that ends the pool is no
    /// block.
    pub open spec fn with_prev_free(self, a: u64, prev_free: bool) -> TlsfView {
        if self.is_chunk(a) {
            TlsfView { chunks: self.chunks.insert(a, Chunk { prev_free, ..self.chunks[a] }), ..self }
        } else {
            self
        }
    }

    /// A block for a request of `size` bytes can be found.
    pub open spec fn has_room(self, size: int) -> bool {
        &&& size < SIZE_LIMIT
        &&& rounded(padded(size)) < SIZE_LIMIT
        &&& first_filled(self.lists, bucket(rounded(padded(size)))) < BUCKETS
    }

    /// The block that a request of `size` bytes gets: the first of the first filled bucket
    /// whose blocks are all large enough.
    pub open spec fn fit(self, size: int) -> u64 {
        self.lists[first_filled(self.lists, bucket(rounded(padded(size))))][0]
    }

    /// A block of `have` bytes is split for `want` bytes: the rest can be a block.
    pub open spec fn splits(have: int, want: int) -> bool {
        have - want >= HEADER + BLOCK_MIN
    }

    /// The heap after a request for `size` bytes was met.
    pub open spec fn after_alloc(self, size: int) -> TlsfView {
        let a = self.fit(size);
        let want = padded(size) as u64;
        let v = self.taken(a);
        let w = if Self::splits(v.chunks[a].size as int, want as int) {
            let rest = (a + HEADER + want) as u64;
            let x = v.cut(a, want).given(rest);
            x.with_prev(x.next(rest), rest)
        } else {
            v
        };
        w.with_prev_free(w.next(a), false)
    }

    /// The header that the block at `a` starts at once it is merged with the one before it.
    pub open spec fn merged_start(self, a: u64) -> u64 {
        if self.chunks[a].prev_free {
            self.chunks[a].prev
        } else {
            a
        }
    }

    /// The heap after the block at `a` was merged with the one before it, if that is free.
    pub open spec fn merged_before(self, a: u64) -> TlsfView {
        if self.chunks[a].prev_free {
            self.taken(self.chunks[a].prev).fused(self.chunks[a].prev)
        } else {
            self
        }
    }

    /// The heap after the block at `a` was merged with the one after it, if that is free.
    pub open spec fn merged_after(self, a: u64) -> TlsfView {
        if self.is_free(self.next(a)) {
            self.taken(self.next(a)).fused(a)
        } else {
            self
        }
    }

    /// The heap after the block at `a` was given back.
    pub open spec fn after_dealloc(self, a: u64) -> TlsfView {
        let m = self.merged_start(a);
        let v = self.merged_before(a).merged_after(m).given(m);
        let after = v.next(m);
        v.with_prev(after, m).with_prev_free(after, true)
    }

    /// A heap whose pool is the `size` bytes at `base`: one free block and the header that
    /// ends the pool.
    pub open spec fn with_pool(self, base: u64, size: int) -> TlsfView {
        TlsfView {
            base: base as int,
            size,
            chunks: Map::empty().insert(
                base,
                Chunk { size: (size - 2 * HEADER) as u64, free: false, prev: 0, prev_free: false },
            ),
            lists: self.lists,
        }.given(base)
    }
}

// ---------------------------------------------------------------------------
// The steps keep the blocks in order
// ---------------------------------------------------------------------------

impl TlsfView {
    /// Blocks of the same sizes at the same places cover the pool as well.
    pub proof fn lemma_same_tiles(self, w: TlsfView)
        requires
            self.tiled(),
            w.base == self.base,
            w.size == self.size,
            forall|a: u64| #[trigger] w.is_chunk(a) <==> self.is_chunk(a),
            forall|a: u64| #[trigger] w.is_chunk(a) ==> w.chunks[a].size == self.chunks[a].size,
        ensures
            w.tiled(),
    {
        assert forall|a: u64| #[trigger] w.is_chunk(a) implies w.chunk_ok(a) by {
            assert(self.is_chunk(a));
            assert(self.chunk_ok(a));
            assert(w.next(a) == self.next(a));
            if a + HEADER + w.chunks[a].size < w.end() {
                assert(self.is_chunk(self.next(a)));
                assert(w.is_chunk(w.next(a)));
            }
        }
        assert(w.base > 0 ==> w.is_chunk(w.base as u64));
        assert forall|a: u64, b: u64|
            #![trigger w.is_chunk(a), w.is_chunk(b)]
            w.is_chunk(a) && w.is_chunk(b) && a < b implies a + HEADER + w.chunks[a].size <= b by {
            assert(self.is_chunk(a) && self.is_chunk(b));
        }
    }

    /// Taking a free block off its list leaves the heap tiled and listed.
    pub proof fn lemma_taken(self, a: u64)
        requires
            self.tiled(),
            self.listed(),
            self.is_free(a),
        ensures
            self.taken(a).tiled(),
            self.taken(a).listed(),
            self.taken(a).is_live(a),
            0 <= bucket(self.chunks[a].size as int) < BUCKETS,
            ({
                let l = self.lists[bucket(self.chunks[a].size as int)];
                0 <= l.index_of(a) < l.len() && l[l.index_of(a)] == a
            }),
            forall|c: u64| #[trigger] self.taken(a).is_chunk(c) <==> self.is_chunk(c),
            forall|c: u64| #[trigger] self.taken(a).is_free(c) <==> self.is_free(c) && c != a,
    {
        let w = self.taken(a);
        let b = bucket(self.chunks[a].size as int);
        assert(self.chunk_ok(a));
        lemma_bucket(self.chunks[a].size as int);
        let l = self.lists[b];
        assert(l.contains(a));
        assert(l.no_duplicates());
        let at = l.index_of(a);
        let r = l.remove(at);
        assert forall|c: u64| #[trigger] w.is_chunk(c) <==> self.is_chunk(c) by {}
        self.lemma_same_tiles(w);
        assert forall|c: u64| #[trigger] r.contains(c) <==> l.contains(c) && c != a by {
            if r.contains(c) {
                let i = choose|i: int| 0 <= i < r.len() && r[i] == c;
                let k = if i < at {
                    i
                } else {
                    i + 1
                };
                assert(l[k] == c);
            }
            if l.contains(c) && c != a {
                let i = choose|i: int| 0 <= i < l.len() && l[i] == c;
                let k = if i < at {
                    i
                } else {
                    i - 1
                };
                assert(r[k] == c);
            }
        }
        assert forall|k: int, c: u64|
            0 <= k < BUCKETS && #[trigger] w.lists[k].contains(c) implies w.is_free(c) && bucket(
            w.chunks[c].size as int,
        ) == k by {
            assert(self.lists[k].contains(c));
        }
        assert forall|c: u64| #[trigger] w.is_free(c) implies w.lists[bucket(
            w.chunks[c].size as int,
        )].contains(c) by {
            assert(self.is_free(c));
            assert(self.chunk_ok(c));
            lemma_bucket(self.chunks[c].size as int);
        }
        assert forall|k: int| 0 <= k < BUCKETS implies #[trigger] w.lists[k].no_duplicates() by {
            assert(self.lists[k].no_duplicates());
        }
    }

    /// Putting a block on its list leaves the heap tiled and listed.
    pub proof fn lemma_given(self, a: u64)
        requires
            self.tiled(),
            self.listed(),
            self.is_live(a),
        ensures
            self.given(a).tiled(),
            self.given(a).listed(),
            self.given(a).is_free(a),
            0 <= bucket(self.chunks[a].size as int) < BUCKETS,
            forall|c: u64| #[trigger] self.given(a).is_chunk(c) <==> self.is_chunk(c),
            forall|c: u64| #[trigger] self.given(a).is_free(c) <==> self.is_free(c) || c == a,
    {
        let w = self.given(a);
        let b = bucket(self.chunks[a].size as int);
        assert(self.chunk_ok(a));
        lemma_bucket(self.chunks[a].size as int);
        let l = self.lists[b];
        let r = seq![a] + l;
        assert forall|c: u64| #[trigger] w.is_chunk(c) <==> self.is_chunk(c) by {}
        self.lemma_same_tiles(w);
        assert forall|c: u64| #[trigger] r.contains(c) <==> l.contains(c) || c == a by {
            if l.contains(c) {
                let i = choose|i: int| 0 <= i < l.len() && l[i] == c;
                assert(r[i + 1] == c);
            }
            assert(r[0] == a);
        }
        assert(!l.contains(a));
        assert forall|k: int, c: u64|
            0 <= k < BUCKETS && #[trigger] w.lists[k].contains(c) implies w.is_free(c) && bucket(
            w.chunks[c].size as int,
        ) == k by {
            if c != a {
                assert(self.lists[k].contains(c));
            } else {
                assert(!self.lists[k].contains(c));
            }
        }
        assert forall|c: u64| #[trigger] w.is_free(c) implies w.lists[bucket(
            w.chunks[c].size as int,
        )].contains(c) by {
            if c != a {
                assert(self.is_free(c));
                assert(self.chunk_ok(c));
                lemma_bucket(self.chunks[c].size as int);
            }
        }
        assert forall|k: int| 0 <= k < BUCKETS implies #[trigger] w.lists[k].no_duplicates() by {
            assert(self.lists[k].no_duplicates());
            if k == b {
                assert forall|i: int, j: int|
                    0 <= i < r.len() && 0 <= j < r.len() && i != j implies r[i] != r[j] by {
                    if i > 0 {
                        assert(l[i - 1] == r[i]);
                    }
                    if j > 0 {
                        assert(l[j - 1] == r[j]);
                    }
                }
            }
        }
    }

    /// Cutting a block that is on no list leaves the heap tiled and listed.
    #[verifier::rlimit(40)]
    pub proof fn lemma_cut(self, a: u64, size: u64)
        requires
            self.tiled(),
            self.listed(),
            self.is_live(a),
            BLOCK_MIN <= size,
            size % 8 == 0,
            Self::splits(self.chunks[a].size as int, size as int),
        ensures
            self.cut(a, size).tiled(),
            self.cut(a, size).listed(),
            !self.is_chunk((a + HEADER + size) as u64),
            self.cut(a, size).is_live((a + HEADER + size) as u64),
            a + HEADER + size <= u64::MAX,
            forall|c: u64| #[trigger]
                self.cut(a, size).is_chunk(c) <==> self.is_chunk(c) || c == a + HEADER + size,
            forall|c: u64| #[trigger] self.cut(a, size).is_free(c) <==> self.is_free(c),
            self.cut(a, size).next((a + HEADER + size) as u64) == self.next(a),
    {
        let w = self.cut(a, size);
        let n = (a + HEADER + size) as u64;
        assert(self.chunk_ok(a));
        if self.is_chunk(n) {
            assert(a < n);
        }
        assert forall|c: u64| #[trigger] w.is_chunk(c) <==> self.is_chunk(c) || c == n by {}
        assert(self.chunks[a].size - size - HEADER >= BLOCK_MIN);
        assert forall|c: u64| #[trigger] w.is_chunk(c) implies w.chunk_ok(c) by {
            if c == n {
                assert(w.next(n) == self.next(a));
                if n + HEADER + w.chunks[n].size < w.end() {
                    assert(self.is_chunk(self.next(a)));
                }
            } else if c == a {
                assert(w.next(a) == n);
            } else {
                assert(self.is_chunk(c));
                assert(self.chunk_ok(c));
                assert(w.next(c) == self.next(c));
            }
        }
        assert forall|c: u64, d: u64|
            #![trigger w.is_chunk(c), w.is_chunk(d)]
            w.is_chunk(c) && w.is_chunk(d) && c < d implies c + HEADER + w.chunks[c].size <= d by {
            assert(c == n || self.is_chunk(c));
            assert(d == n || self.is_chunk(d));
            assert(self.is_chunk(a));
            if c == n {
                if d <= a {
                    assert(false);
                }
            }
        }
        assert forall|k: int, c: u64|
            0 <= k < BUCKETS && #[trigger] w.lists[k].contains(c) implies w.is_free(c) && bucket(
            w.chunks[c].size as int,
        ) == k by {
            assert(self.lists[k].contains(c));
        }
        assert forall|c: u64| #[trigger] w.is_free(c) implies w.lists[bucket(
            w.chunks[c].size as int,
        )].contains(c) by {
            assert(self.is_free(c));
        }
        assert forall|k: int| 0 <= k < BUCKETS implies #[trigger] w.lists[k].no_duplicates() by {
            assert(self.lists[k].no_duplicates());
        }
    }

    /// Making the next block part of one, neither on a list, leaves the heap tiled and
    /// listed.
    pub proof fn lemma_fused(self, a: u64)
        requires
            self.tiled(),
            self.listed(),
            self.is_live(a),
            self.is_live(self.next(a)),
        ensures
            self.fused(a).tiled(),
            self.fused(a).listed(),
            self.fused(a).is_live(a),
            a < self.next(a),
            forall|c: u64| #[trigger]
                self.fused(a).is_chunk(c) <==> self.is_chunk(c) && c != self.next(a),
            forall|c: u64| #[trigger] self.fused(a).is_free(c) <==> self.is_free(c),
            self.fused(a).next(a) == self.next(self.next(a)),
            self.fused(a).chunks[a].size == self.chunks[a].size + HEADER + self.chunks[self.next(
                a,
            )].size,
    {
        let w = self.fused(a);
        let n = self.next(a);
        assert(self.chunk_ok(a));
        assert(self.chunk_ok(n));
        assert(w.chunks[a].size == self.chunks[a].size + HEADER + self.chunks[n].size);
        assert(w.next(a) == self.next(n));
        assert forall|c: u64| #[trigger] w.is_chunk(c) <==> self.is_chunk(c) && c != n by {}
        assert forall|c: u64| #[trigger] w.is_chunk(c) implies w.chunk_ok(c) by {
            assert(self.is_chunk(c));
            assert(self.chunk_ok(c));
            if c == a {
                if n + HEADER + self.chunks[n].size < self.end() {
                    assert(self.is_chunk(self.next(n)));
                    assert(w.is_chunk(w.next(a)));
                }
            } else {
                assert(w.next(c) == self.next(c));
                if c + HEADER + w.chunks[c].size < w.end() {
                    assert(self.is_chunk(self.next(c)));
                    if self.next(c) == n {
                        if c < a {
                            assert(c + HEADER + self.chunks[c].size <= a);
                        } else {
                            assert(a < c);
                        }
                    }
                }
            }
        }
        assert(w.base > 0 ==> w.is_chunk(w.base as u64));
        assert forall|c: u64, d: u64|
            #![trigger w.is_chunk(c), w.is_chunk(d)]
            w.is_chunk(c) && w.is_chunk(d) && c < d implies c + HEADER + w.chunks[c].size <= d by {
            assert(self.is_chunk(c) && self.is_chunk(d));
            if c == a {
                assert(n <= d);
                assert(self.is_chunk(n));
                assert(n != d);
            }
        }
        assert forall|k: int, c: u64|
            0 <= k < BUCKETS && #[trigger] w.lists[k].contains(c) implies w.is_free(c) && bucket(
            w.chunks[c].size as int,
        ) == k by {
            assert(self.lists[k].contains(c));
            assert(self.is_free(c));
        }
        assert forall|c: u64| #[trigger] w.is_free(c) implies w.lists[bucket(
            w.chunks[c].size as int,
        )].contains(c) by {
            assert(self.is_free(c));
        }
        assert forall|k: int| 0 <= k < BUCKETS implies #[trigger] w.lists[k].no_duplicates() by {
            assert(self.lists[k].no_duplicates());
        }
    }

    /// What a header tells of the preceding block has no part in tiling and listing.
    pub proof fn lemma_told(self, w: TlsfView, a: u64)
        requires
            self.tiled(),
            self.listed(),
            (exists|prev: u64| w == #[trigger] self.with_prev(a, prev)) || (exists|f: bool|
                w == #[trigger] self.with_prev_free(a, f)),
        ensures
            w.tiled(),
            w.listed(),
            forall|c: u64| #[trigger] w.is_chunk(c) <==> self.is_chunk(c),
            forall|c: u64| #[trigger] w.is_free(c) <==> self.is_free(c),
            forall|c: u64| #[trigger]
                w.is_chunk(c) ==> w.chunks[c].size == self.chunks[c].size && w.chunks[c].free
                    == self.chunks[c].free,
    {
        assert forall|c: u64| #[trigger] w.is_chunk(c) <==> self.is_chunk(c) by {}
        self.lemma_same_tiles(w);
        assert forall|k: int, c: u64|
            0 <= k < BUCKETS && #[trigger] w.lists[k].contains(c) implies w.is_free(c) && bucket(
            w.chunks[c].size as int,
        ) == k by {
            assert(self.lists[k].contains(c));
        }
        assert forall|c: u64| #[trigger] w.is_free(c) implies w.lists[bucket(
            w.chunks[c].size as int,
        )].contains(c) by {
            assert(self.is_free(c));
        }
        assert forall|k: int| 0 <= k < BUCKETS implies #[trigger] w.lists[k].no_duplicates() by {
            assert(self.lists[k].no_duplicates());
        }
    }
}

} // verus!
