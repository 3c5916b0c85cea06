//! What holds of every heap, whatever was allocated and given back.

use crate::tlsf::model::{
    bucket, first_filled, grain, law_bucket_fits, law_class, lemma_bucket, lemma_bucket_monotone,
    lemma_first_filled, lemma_limit, magnitude, padded, rounded, Chunk, TlsfView, BLOCK_MIN,
    BUCKETS, HEADER, SIZE_LIMIT,
};
use vstd::arithmetic::power2::{lemma_pow2_strictly_increases, lemma_pow2_unfold, pow2};
use vstd::prelude::*;

verus! {

/// Only one block is followed by a given header.
proof fn lemma_prev_unique(v: TlsfView, a: u64, b: u64)
    requires
        v.tiled(),
        v.is_chunk(a),
        v.is_chunk(b),
        v.next(a) == v.next(b),
    ensures
        a == b,
{
    assert(v.chunk_ok(a));
    assert(v.chunk_ok(b));
}

/// The header of the block after one names that one.
proof fn lemma_next_prev(v: TlsfView, a: u64)
    requires
        v.valid(),
        v.is_chunk(a),
        v.is_chunk(v.next(a)),
    ensures
        a < v.next(a),
        v.chunks[v.next(a)].prev == a,
        v.chunks[v.next(a)].prev_free == v.chunks[a].free,
{
    let n = v.next(a);
    assert(v.chunk_ok(a));
    assert(n > a);
    assert(n != v.base);
    lemma_prev_unique(v, v.chunks[n].prev, a);
}

/// A block or the end of the pool follows a block.
pub proof fn lemma_tiled_after(v: TlsfView, a: u64)
    requires
        v.tiled(),
        v.is_chunk(a),
    ensures
        v.base > 0,
        a < v.next(a),
        v.next(a) == a + HEADER + v.chunks[a].size,
        v.is_chunk(v.next(a)) || v.next(a) == v.end(),
        v.is_chunk(v.next(a)) ==> v.next(a) < v.end(),
{
    assert(v.chunk_ok(a));
    if v.is_chunk(v.next(a)) {
        assert(v.chunk_ok(v.next(a)));
    }
}

/// A block or the end of the pool follows a block, and tells of it.
pub proof fn lemma_after(v: TlsfView, a: u64)
    requires
        v.valid(),
        v.is_chunk(a),
    ensures
        v.base > 0,
        a < v.next(a),
        v.next(a) == a + HEADER + v.chunks[a].size,
        v.is_chunk(v.next(a)) || v.next(a) == v.end(),
        v.is_chunk(v.next(a)) ==> v.chunks[v.next(a)].prev == a && v.chunks[v.next(a)].prev_free
            == v.chunks[a].free,
{
    lemma_tiled_after(v, a);
    if v.is_chunk(v.next(a)) {
        lemma_next_prev(v, a);
    }
}

/// A padded request is a payload size.
pub proof fn lemma_padded(size: int)
    requires
        size < SIZE_LIMIT,
    ensures
        BLOCK_MIN <= padded(size) <= SIZE_LIMIT,
        size <= padded(size),
        padded(size) < (if size < BLOCK_MIN {
            BLOCK_MIN as int
        } else {
            size
        }) + 8,
        padded(size) % 8 == 0,
{
}

/// The payload for a request is the least multiple of eight that has room for it and for the
/// links of a free block.
pub proof fn law_padded(size: int, n: int)
    requires
        0 <= size,
    ensures
        padded(size) % 8 == 0,
        padded(size) >= size,
        padded(size) >= 32,
        n % 8 == 0 && n >= size && n >= 32 ==> n >= padded(size),
{
}

/// A rounded size has a bucket exactly if it is within the limit, and is larger than the size
/// by less than a part in thirty-two.
proof fn lemma_rounded(want: int)
    requires
        BLOCK_MIN <= want,
    ensures
        want <= rounded(want),
        32 * (rounded(want) - want) < want,
        0 <= bucket(rounded(want)),
        bucket(rounded(want)) < BUCKETS <==> rounded(want) < SIZE_LIMIT,
{
    law_class(want);
    lemma_limit(want);
    let r = rounded(want);
    law_class(r);
    lemma_limit(r);
    let m = magnitude(want);
    assert(32 * grain(want) <= want);
}

/// A request is met exactly if a free block lies in the bucket of its rounded size or in a
/// later one.
pub proof fn law_room(v: TlsfView, size: int)
    requires
        v.valid(),
        0 <= size,
    ensures
        v.has_room(size) <==> exists|a: u64| #[trigger]
            v.is_free(a) && bucket(v.chunks[a].size as int) >= bucket(rounded(padded(size))),
{
    let want = padded(size);
    let from = bucket(rounded(want));
    lemma_rounded(want);
    if v.has_room(size) {
        lemma_first_filled(v.lists, from);
        let b = first_filled(v.lists, from);
        let a = v.lists[b][0];
        assert(v.lists[b].contains(a));
        assert(v.is_free(a));
    }
    if exists|a: u64| #[trigger] v.is_free(a) && bucket(v.chunks[a].size as int) >= from {
        let a = choose|a: u64| #[trigger]
            v.is_free(a) && bucket(v.chunks[a].size as int) >= from;
        let b = bucket(v.chunks[a].size as int);
        assert(v.is_chunk(a));
        assert(v.chunk_ok(a));
        lemma_bucket(v.chunks[a].size as int);
        assert(v.lists[b].contains(a));
        lemma_first_filled(v.lists, from);
        assert(v.lists[b].len() > 0);
    }
}

/// A request is met whenever a free block is larger than it by a part in thirty-two, counted
/// from what it is padded to at most; and it is met only if some free block is large enough.
pub proof fn law_room_by_size(v: TlsfView, size: int)
    requires
        v.valid(),
        0 <= size,
    ensures
        forall|a: u64| #[trigger]
            v.is_free(a) && 32 * v.chunks[a].size >= 33 * ((if size < 32 {
                32
            } else {
                size
            }) + 7) ==> v.has_room(size),
        v.has_room(size) ==> exists|a: u64| #[trigger] v.is_free(a) && v.chunks[a].size >= size,
{
    let want = padded(size);
    law_padded(size, want);
    lemma_rounded(want);
    assert forall|a: u64| #[trigger]
        v.is_free(a) && 32 * v.chunks[a].size >= 33 * ((if size < 32 {
            32
        } else {
            size
        }) + 7) implies v.has_room(size) by {
        lemma_bucket_monotone(rounded(want), v.chunks[a].size as int);
        law_room(v, size);
    }
    if v.has_room(size) {
        law_alloc_fits(v, size);
    }
}

/// Where a request is met, a smaller one would be met too.
pub proof fn law_room_monotone(v: TlsfView, size: int, less: int)
    requires
        v.valid(),
        0 <= less <= size,
        v.has_room(size),
    ensures
        v.has_room(less),
{
    let s = padded(less);
    let t = padded(size);
    law_padded(less, t);
    law_padded(size, t);
    lemma_rounded(s);
    lemma_rounded(t);
    assert(rounded(s) <= rounded(t)) by {
        lemma_grain_monotone(s, t);
    }
    lemma_bucket_monotone(rounded(s), rounded(t));
    law_room(v, size);
    law_room(v, less);
}

/// A larger size has no smaller grain.
proof fn lemma_grain_monotone(s: int, t: int)
    requires
        BLOCK_MIN <= s <= t,
    ensures
        grain(s) <= grain(t),
{
    law_class(s);
    law_class(t);
    lemma_limit(s);
    lemma_limit(t);
    let f = magnitude(s);
    let g = magnitude(t);
    if g < f {
        assert(2 * pow2(g as nat) <= pow2(f as nat)) by {
            lemma_pow2_unfold((g + 1) as nat);
            if g + 1 < f {
                lemma_pow2_strictly_increases((g + 1) as nat, f as nat);
            }
        }
    } else if f < g {
        lemma_pow2_strictly_increases((f - 5) as nat, (g - 5) as nat);
    }
}

/// A request that is met gets a block that was free and is large enough; its payload
/// starts at a multiple of eight.
pub proof fn law_alloc_fits(v: TlsfView, size: int)
    requires
        v.valid(),
        v.has_room(size),
    ensures
        v.is_free(v.fit(size)),
        size <= padded(size) <= v.chunks[v.fit(size)].size,
        (v.fit(size) + HEADER) % 8 == 0,
{
    let want = padded(size);
    lemma_padded(size);
    assert(rounded(want) >= want) by {
        if want < SIZE_LIMIT {
            lemma_bucket(want);
        } else {
            vstd::arithmetic::power2::lemma_pow2_pos((magnitude(want) - 5) as nat);
        }
    }
    lemma_bucket(rounded(want));
    let from = bucket(rounded(want));
    lemma_first_filled(v.lists, from);
    let b = first_filled(v.lists, from);
    let a = v.lists[b][0];
    assert(v.lists[b].contains(a));
    assert(v.is_chunk(a));
    assert(v.chunk_ok(a));
    law_bucket_fits(want, v.chunks[a].size as int);
}

/// Meeting a request keeps the heap valid.
#[verifier::rlimit(40)]
pub proof fn law_alloc_valid(v: TlsfView, size: int)
    requires
        v.valid(),
        v.has_room(size),
    ensures
        v.after_alloc(size).valid(),
        v.after_alloc(size).is_live(v.fit(size)),
        padded(size) <= v.after_alloc(size).chunks[v.fit(size)].size < padded(size) + HEADER
            + BLOCK_MIN,
{
    law_alloc_fits(v, size);
    lemma_padded(size);
    let a = v.fit(size);
    let want = padded(size) as u64;
    let t = v.taken(a);
    v.lemma_taken(a);
    assert(v.is_chunk(a));
    assert(v.chunk_ok(a));
    let after = v.next(a);
    if v.is_chunk(after) {
        lemma_next_prev(v, a);
    }
    if TlsfView::splits(v.chunks[a].size as int, want as int) {
        let rest = (a + HEADER + want) as u64;
        t.lemma_cut(a, want);
        let c = t.cut(a, want);
        c.lemma_given(rest);
        let x = c.given(rest);
        let y = x.with_prev(x.next(rest), rest);
        x.lemma_told(y, x.next(rest));
        let z = y.with_prev_free(y.next(a), false);
        y.lemma_told(z, y.next(a));
        assert(z == v.after_alloc(size));
        assert(x.next(rest) == after);
        assert(y.next(a) == rest);
        assert forall|d: u64| #[trigger] z.is_chunk(d) implies {
            let prev = z.chunks[d].prev;
            &&& d == z.base <==> prev == 0
            &&& prev != 0 ==> z.chunks.dom().contains(prev) && z.next(prev) == d
            &&& z.chunks[d].prev_free == (prev != 0 && z.chunks[prev].free)
            &&& z.chunks[d].free ==> !z.chunks[d].prev_free
        } by {
            if d == rest {
                assert(z.chunks[d].prev == a);
            } else if d == after {
                assert(v.is_chunk(after));
                assert(z.chunks[d].prev == rest);
            } else {
                assert(v.is_chunk(d));
                let p = v.chunks[d].prev;
                assert(z.chunks[d].prev == p);
                if p != 0 {
                    assert(v.is_chunk(p));
                    assert(p != a);
                    assert(z.chunks[p].size == v.chunks[p].size);
                    assert(z.chunks[p].free == v.chunks[p].free);
                }
            }
        }
    } else {
        let z = t.with_prev_free(t.next(a), false);
        t.lemma_told(z, t.next(a));
        assert(z == v.after_alloc(size));
        assert(t.next(a) == after);
        assert forall|d: u64| #[trigger] z.is_chunk(d) implies {
            let prev = z.chunks[d].prev;
            &&& d == z.base <==> prev == 0
            &&& prev != 0 ==> z.chunks.dom().contains(prev) && z.next(prev) == d
            &&& z.chunks[d].prev_free == (prev != 0 && z.chunks[prev].free)
            &&& z.chunks[d].free ==> !z.chunks[d].prev_free
        } by {
            assert(v.is_chunk(d));
            let p = v.chunks[d].prev;
            assert(z.chunks[d].prev == p);
            if p != 0 {
                assert(v.is_chunk(p));
                assert(z.chunks[p].size == v.chunks[p].size);
                if p != a {
                    assert(z.chunks[p].free == v.chunks[p].free);
                } else {
                    assert(d == after);
                }
            }
        }
    }
}

/// What merging with the preceding block comes to.
pub proof fn lemma_merged_before(v: TlsfView, a: u64)
    requires
        v.valid(),
        v.is_live(a),
    ensures
        ({
            let m = v.merged_start(a);
            let w = v.merged_before(a);
            &&& w.tiled()
            &&& w.listed()
            &&& w.is_live(m)
            &&& v.is_chunk(m)
            &&& m <= a
            &&& !v.chunks[m].prev_free
            &&& w.next(m) == v.next(a)
            &&& w.chunks[m].prev == v.chunks[m].prev
            &&& w.chunks[m].prev_free == v.chunks[m].prev_free
            &&& m != a ==> v.chunks[a].prev == m && v.next(m) == a
            &&& forall|c: u64| #[trigger] w.is_chunk(c) <==> v.is_chunk(c) && (c == m || c != a)
            &&& forall|c: u64| #[trigger] w.is_chunk(c) && c != m ==> w.chunks[c] == v.chunks[c]
            &&& w.base == v.base && w.size == v.size
        }),
{
    assert(v.is_chunk(a));
    assert(v.chunk_ok(a));
    if v.chunks[a].prev_free {
        let p = v.chunks[a].prev;
        assert(v.is_chunk(p));
        assert(v.is_free(p));
        v.lemma_taken(p);
        let t = v.taken(p);
        assert(t.next(p) == a);
        t.lemma_fused(p);
    }
}

/// What merging with the following block comes to.
pub proof fn lemma_merged_after(v: TlsfView, w: TlsfView, a: u64, m: u64)
    requires
        v.valid(),
        w.tiled(),
        w.listed(),
        w.is_live(m),
        w.base == v.base,
        w.size == v.size,
        w.next(m) == v.next(a),
        v.is_chunk(a),
        m <= a,
        m != a ==> v.next(m) == a && v.is_chunk(m),
        forall|c: u64| #[trigger] w.is_chunk(c) <==> v.is_chunk(c) && (c == m || c != a),
        forall|c: u64| #[trigger] w.is_chunk(c) && c != m ==> w.chunks[c] == v.chunks[c],
    ensures
        ({
            let n = v.next(a);
            let x = w.merged_after(m);
            let after = if v.is_free(n) {
                v.next(n)
            } else {
                n
            };
            &&& x.tiled()
            &&& x.listed()
            &&& x.is_live(m)
            &&& x.next(m) == after
            &&& after > m
            &&& v.is_chunk(after) ==> !v.chunks[after].free
            &&& v.is_free(n) ==> n != m
            &&& v.is_chunk(after) <==> x.is_chunk(after)
            &&& after == v.end() || x.is_chunk(after)
            &&& x.chunks[m].prev == w.chunks[m].prev
            &&& x.chunks[m].prev_free == w.chunks[m].prev_free
            &&& forall|c: u64| #[trigger]
                x.is_chunk(c) <==> w.is_chunk(c) && !(c == n && v.is_free(n))
            &&& forall|c: u64| #[trigger] x.is_chunk(c) && c != m ==> x.chunks[c] == v.chunks[c]
            &&& x.base == v.base && x.size == v.size
        }),
{
    let n = v.next(a);
    assert(v.chunk_ok(a));
    assert(w.chunk_ok(m));
    assert(n > a);
    assert(w.is_chunk(n) <==> v.is_chunk(n));
    if v.is_chunk(n) {
        assert(w.chunks[n] == v.chunks[n]);
        assert(v.chunk_ok(n));
    }
    if v.is_free(n) {
        assert(w.is_free(n));
        w.lemma_taken(n);
        let t = w.taken(n);
        assert(t.next(m) == n);
        t.lemma_fused(m);
        let x = t.fused(m);
        assert(x.next(m) == v.next(n));
        if v.is_chunk(v.next(n)) {
            lemma_next_prev(v, n);
            assert(w.is_chunk(v.next(n)));
        }
        assert(x.chunk_ok(m));
    } else {
        assert(w.merged_after(m) == w);
    }
}

/// Giving a block back keeps the heap valid.
#[verifier::rlimit(40)]
pub proof fn law_dealloc_valid(v: TlsfView, a: u64)
    requires
        v.valid(),
        v.is_live(a),
    ensures
        v.after_dealloc(a).valid(),
        v.after_dealloc(a).is_free(v.merged_start(a)),
{
    let m = v.merged_start(a);
    let n = v.next(a);
    let w = v.merged_before(a);
    lemma_merged_before(v, a);
    assert(v.is_chunk(a));
    lemma_merged_after(v, w, a, m);
    let x = w.merged_after(m);
    x.lemma_given(m);
    let y = x.given(m);
    let after = y.next(m);
    assert(after == x.next(m));
    let y2 = y.with_prev(after, m);
    y.lemma_told(y2, after);
    let z = y2.with_prev_free(after, true);
    y2.lemma_told(z, after);
    assert(z == v.after_dealloc(a));
    assert forall|d: u64| #[trigger] z.is_chunk(d) implies {
        let prev = z.chunks[d].prev;
        &&& d == z.base <==> prev == 0
        &&& prev != 0 ==> z.chunks.dom().contains(prev) && z.next(prev) == d
        &&& z.chunks[d].prev_free == (prev != 0 && z.chunks[prev].free)
        &&& z.chunks[d].free ==> !z.chunks[d].prev_free
    } by {
        assert(x.is_chunk(d));
        assert(v.is_chunk(d));
        assert(v.chunk_ok(d));
        assert(z.next(m) == after);
        if d == after {
            assert(z.chunks[d].prev == m);
            assert(v.chunk_ok(m));
            assert(d != v.base);
        } else {
            let p = v.chunks[d].prev;
            assert(z.chunks[d].prev == p);
            assert(z.chunks[d].prev_free == v.chunks[d].prev_free);
            if p != 0 {
                assert(v.is_chunk(p) && v.next(p) == d);
                assert(v.chunk_ok(p));
                if d == m {
                    assert(p < m);
                }
                if p == m {
                    if m != a {
                        assert(d == a);
                    } else {
                        assert(d == n);
                    }
                    assert(false);
                }
                if p == a {
                    assert(d == n);
                    assert(false);
                }
                if v.is_free(n) && p == n {
                    assert(d == after);
                }
                assert(x.is_chunk(p));
                assert(z.chunks[p].size == v.chunks[p].size);
                assert(z.chunks[p].free == v.chunks[p].free);
            }
        }
    }
}

/// No two free blocks touch.
pub proof fn law_no_free_neighbours(v: TlsfView, a: u64)
    requires
        v.valid(),
        v.is_free(a),
    ensures
        !v.is_free(v.next(a)),
{
    if v.is_chunk(v.next(a)) {
        assert(v.is_chunk(a));
        lemma_next_prev(v, a);
    }
}

/// The payloads of two blocks share no byte, nor does a payload hold a header.
pub proof fn law_payloads_apart(v: TlsfView, a: u64, b: u64, x: int)
    requires
        v.valid(),
        v.payload(a, x),
    ensures
        v.payload(b, x) ==> a == b,
        !v.in_header(x),
{
    assert(v.is_chunk(a));
    assert(v.chunk_ok(a));
    if v.payload(b, x) {
        assert(v.is_chunk(b));
        assert(v.chunk_ok(b));
    }
}

/// Meeting a request leaves every block that is handed out as it is, apart from what its
/// header tells of the block before it.
pub proof fn law_alloc_keeps_live(v: TlsfView, size: int, c: u64)
    requires
        v.valid(),
        v.has_room(size),
        v.is_live(c),
    ensures
        v.after_alloc(size).is_live(c),
        v.after_alloc(size).chunks[c].size == v.chunks[c].size,
        c != v.fit(size),
{
    law_alloc_fits(v, size);
    lemma_padded(size);
    let a = v.fit(size);
    v.lemma_taken(a);
    assert(v.is_chunk(a) && v.is_chunk(c));
    assert(v.chunk_ok(a));
    assert(v.chunk_ok(c));
}

/// Giving a block back leaves every other block that is handed out as it is, apart from
/// what its header tells of the block before it.
pub proof fn law_dealloc_keeps_live(v: TlsfView, a: u64, c: u64)
    requires
        v.valid(),
        v.is_live(a),
        v.is_live(c),
        a != c,
    ensures
        v.after_dealloc(a).is_live(c),
        v.after_dealloc(a).chunks[c].size == v.chunks[c].size,
{
    let m = v.merged_start(a);
    let w = v.merged_before(a);
    lemma_merged_before(v, a);
    assert(v.is_chunk(a));
    lemma_merged_after(v, w, a, m);
    let x = w.merged_after(m);
    assert(v.is_chunk(c));
    assert(c != m) by {
        if m != a {
            assert(v.chunks[a].prev_free);
            assert(v.chunks[m].free);
        }
    }
    assert(w.is_chunk(c));
    assert(x.is_chunk(c));
}

/// Giving back at once what was allocated restores the heap: every block, every header
/// and every list, in order.
#[verifier::rlimit(40)]
pub proof fn law_alloc_dealloc(v: TlsfView, size: int)
    requires
        v.valid(),
        v.has_room(size),
    ensures
        v.after_alloc(size).after_dealloc(v.fit(size)) == v,
{
    law_alloc_fits(v, size);
    law_alloc_valid(v, size);
    lemma_padded(size);
    let a = v.fit(size);
    let want = padded(size) as u64;
    let old_chunk = v.chunks[a];
    let b = bucket(old_chunk.size as int);
    assert(v.is_chunk(a));
    assert(v.chunk_ok(a));
    lemma_bucket(old_chunk.size as int);
    let after = v.next(a);
    if v.is_chunk(after) {
        lemma_next_prev(v, a);
    }
    let from = bucket(rounded(want as int));
    assert(rounded(want as int) >= want) by {
        if want < SIZE_LIMIT {
            lemma_bucket(want as int);
        }
    }
    lemma_bucket(rounded(want as int));
    lemma_first_filled(v.lists, from);
    let l = v.lists[first_filled(v.lists, from)];
    assert(l[0] == a && l.contains(a));
    assert(l == v.lists[b]);
    assert(l.no_duplicates());
    v.lemma_taken(a);
    assert(l.index_of(a) == 0);
    assert(seq![a] + l.remove(0) =~= l);
    let t = v.taken(a);
    let w = v.after_alloc(size);
    assert(w.chunks[a].prev_free == old_chunk.prev_free);
    assert(!w.chunks[a].prev_free);
    assert(w.merged_start(a) == a);
    assert(w.merged_before(a) == w);
    if TlsfView::splits(old_chunk.size as int, want as int) {
        let rest = (a + HEADER + want) as u64;
        let rest_size = (old_chunk.size - want - HEADER) as u64;
        let rb = bucket(rest_size as int);
        t.lemma_cut(a, want);
        lemma_bucket(rest_size as int);
        assert(w.next(a) == rest);
        assert(w.is_free(rest));
        assert(w.chunks[rest].size == rest_size);
        let rl = w.lists[rb];
        assert(rl =~= seq![rest] + t.lists[rb]);
        assert(rl[0] == rest && rl.contains(rest));
        assert(rl.no_duplicates());
        w.lemma_taken(rest);
        assert(rl.index_of(rest) == 0);
        assert(rl.remove(0) =~= t.lists[rb]);
        let x = w.taken(rest).fused(a);
        assert(x.lists =~= t.lists);
        assert(x.chunks[a].size == old_chunk.size);
        let y = x.given(a);
        assert(y.lists =~= v.lists);
        assert(y.next(a) == after);
        let z = w.after_dealloc(a);
        assert(z.chunks =~= v.chunks);
    } else {
        assert(w.next(a) == after);
        assert(!w.is_free(after)) by {
            if w.is_chunk(after) {
                assert(v.is_chunk(after));
            }
        }
        assert(w.merged_after(a) == w);
        let y = w.given(a);
        assert(y.lists =~= v.lists);
        assert(y.next(a) == after);
        let z = w.after_dealloc(a);
        assert(z.chunks =~= v.chunks);
    }
}

/// A request that is met gets no more than what it is padded to and what is too little to be a
/// block of its own; what is left of the block that it comes from is one free block. Every
/// other free block stays as it is.
pub proof fn law_alloc_thrift(v: TlsfView, size: int, c: u64)
    requires
        v.valid(),
        0 <= size,
        v.has_room(size),
    ensures
        ({
            let a = v.fit(size);
            let w = v.after_alloc(size);
            &&& size <= w.chunks[a].size
            &&& w.chunks[a].size < (if size < 32 {
                32
            } else {
                size
            }) + 8 + 64
            &&& w.next(a) == v.next(a) || w.is_free(w.next(a)) && w.next(w.next(a)) == v.next(a)
            &&& v.is_free(c) && c != a ==> w.is_free(c) && w.chunks[c].size == v.chunks[c].size
        }),
{
    let a = v.fit(size);
    let w = v.after_alloc(size);
    law_alloc_fits(v, size);
    law_alloc_valid(v, size);
    law_padded(size, padded(size));
    lemma_padded(size);
    v.lemma_taken(a);
    assert(v.is_chunk(a));
    assert(v.chunk_ok(a));
    if v.is_free(c) && c != a {
        assert(v.is_chunk(c));
        assert(v.chunk_ok(c));
        assert(w.is_chunk(c));
    }
    if v.is_chunk(v.next(a)) {
        assert(v.chunk_ok(v.next(a)));
    }
}

/// Giving a block back frees every byte of its payload, and every byte that was in a free
/// payload stays in one.
#[verifier::rlimit(40)]
pub proof fn law_dealloc_frees(v: TlsfView, a: u64, c: u64, x: int)
    requires
        v.valid(),
        v.is_live(a),
        v.payload(c, x),
        c == a || v.is_free(c),
    ensures
        exists|b: u64| #[trigger]
            v.after_dealloc(a).is_free(b) && v.after_dealloc(a).payload(b, x),
{
    let m = v.merged_start(a);
    let n = v.next(a);
    let w = v.merged_before(a);
    lemma_merged_before(v, a);
    assert(v.is_chunk(a));
    lemma_merged_after(v, w, a, m);
    law_dealloc_valid(v, a);
    let x1 = w.merged_after(m);
    let z = v.after_dealloc(a);
    let after = x1.next(m);
    assert(v.is_chunk(c));
    assert(v.chunk_ok(c) && v.chunk_ok(a) && v.chunk_ok(m));
    assert(z.is_free(m));
    assert(z.chunks[m].size == x1.chunks[m].size);
    assert(x1.chunk_ok(m));
    assert(z.next(m) == after);
    if c == a || c == m || c == n {
        if c == n {
            assert(v.is_free(n));
        }
        assert(z.payload(m, x));
    } else {
        assert(w.is_chunk(c));
        assert(x1.is_chunk(c));
        assert(z.is_chunk(c));
        assert(z.chunks[c].free && z.chunks[c].size == v.chunks[c].size);
        assert(z.is_free(c) && z.payload(c, x));
    }
}

/// A fresh pool is one free block that takes all of it but the headers at its two ends, so
/// that every request is met that leaves a part in thirty-three of it.
pub proof fn law_pool(base: u64, size: int, want: int)
    requires
        base > 0,
        base % 8 == 0,
        size > 2 * HEADER + BLOCK_MIN,
        size % 8 == 0,
        size < SIZE_LIMIT + 2 * HEADER,
        base + size <= u64::MAX,
        0 <= want,
    ensures
        ({
            let v = TlsfView::empty().with_pool(base, size);
            &&& v.valid()
            &&& v.base == base
            &&& v.size == size
            &&& forall|a: u64| #[trigger] v.is_chunk(a) <==> a == base
            &&& v.is_free(base)
            &&& v.chunks[base].size == size - 64
            &&& 33 * ((if want < 32 {
                32
            } else {
                want
            }) + 7) <= 32 * (size - 64) ==> v.has_room(want)
        }),
{
    let e = TlsfView::empty();
    let u = TlsfView {
        base: base as int,
        size,
        chunks: Map::empty().insert(
            base,
            Chunk { size: (size - 2 * HEADER) as u64, free: false, prev: 0, prev_free: false },
        ),
        lists: e.lists,
    };
    assert(u.is_chunk(base));
    assert(u.tiled());
    assert forall|b: int, a: u64| 0 <= b < BUCKETS implies !#[trigger] u.lists[b].contains(a) by {
        assert(u.lists[b] =~= Seq::empty());
    }
    assert forall|b: int| 0 <= b < BUCKETS implies #[trigger] u.lists[b].no_duplicates() by {
        assert(u.lists[b] =~= Seq::empty());
    }
    assert(u.listed());
    u.lemma_given(base);
    let v = e.with_pool(base, size);
    assert(v == u.given(base));
    assert forall|a: u64| #[trigger] v.is_chunk(a) <==> a == base by {}
    assert(v.settled());
    law_room_by_size(v, want);
    assert(v.is_free(base));
}

/// A request gets a block from the first bucket that will do: no free block of an earlier
/// bucket from that of the rounded size on.
pub proof fn law_good_fit(v: TlsfView, size: int, c: u64)
    requires
        v.valid(),
        0 <= size,
        v.is_free(c),
        bucket(v.chunks[c].size as int) >= bucket(rounded(padded(size))),
    ensures
        v.has_room(size),
        v.is_free(v.fit(size)),
        bucket(rounded(padded(size))) <= bucket(v.chunks[v.fit(size)].size as int) <= bucket(
            v.chunks[c].size as int,
        ),
{
    let want = padded(size);
    let from = bucket(rounded(want));
    law_room(v, size);
    lemma_rounded(want);
    lemma_first_filled(v.lists, from);
    let b = first_filled(v.lists, from);
    let a = v.lists[b][0];
    assert(v.lists[b].contains(a));
    assert(v.is_chunk(c));
    assert(v.chunk_ok(c));
    lemma_bucket(v.chunks[c].size as int);
    assert(v.lists[bucket(v.chunks[c].size as int)].contains(c));
}

/// What an operation of the heap keeps is every byte outside the pool and every byte of the
/// payload of a block that is handed out.
pub proof fn law_keeps_live(
    v: TlsfView,
    before: &crate::memory::Memory,
    after: &crate::memory::Memory,
    a: u64,
    x: int,
)
    requires
        v.keeps_live(before, after),
    ensures
        v.is_live(a) && a + 32 <= x < a + 32 + v.chunks[a].size ==> after.at(x) == before.at(x),
        before.holds(x, 1) && (x < v.base || v.base + v.size <= x) ==> after.at(x) == before.at(x),
{
    if v.is_live(a) && a + 32 <= x < a + 32 + v.chunks[a].size {
        assert(v.payload(a, x));
    }
}

/// The sizes that everything here is measured by.
pub proof fn law_sizes()
    ensures
        HEADER == 32,
        BLOCK_MIN == 32,
        SIZE_LIMIT == 0x4000_0000,
        BUCKETS == 30 * 32,
        TlsfView::empty().base == 0,
        forall|a: u64| !#[trigger] TlsfView::empty().is_chunk(a),
        forall|size: int| 0 <= size ==> !#[trigger] TlsfView::empty().has_room(size),
{
    let v = TlsfView::empty();
    assert forall|size: int| 0 <= size implies !#[trigger] v.has_room(size) by {
        if v.has_room(size) {
            let from = bucket(rounded(padded(size)));
            lemma_rounded(padded(size));
            lemma_first_filled(v.lists, from);
            assert(v.lists[first_filled(v.lists, from)] =~= Seq::empty());
        }
    }
}

} // verus!
