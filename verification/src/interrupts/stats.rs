//! How often each vector fired.

use vstd::prelude::*;

verus! {

/// Number of vectors.
pub const VECTORS: usize = 256;

/// One counter for each vector.
pub struct Counters {
    counts: [u64; VECTORS],
}

/// The counters of the vectors below `n` that are not zero, each with its vector, in order.
pub open spec fn active(counts: Seq<u64>, n: int) -> Seq<(u8, u64)>
    decreases n,
{
    if n <= 0 {
        Seq::empty()
    } else if counts[n - 1] > 0 {
        active(counts, n - 1).push(((n - 1) as u8, counts[n - 1]))
    } else {
        active(counts, n - 1)
    }
}

impl View for Counters {
    type V = Seq<u64>;

    closed spec fn view(&self) -> Seq<u64> {
        self.counts@
    }
}

impl Counters {
    /// All counters at zero.
    pub fn new() -> (c: Self)
        ensures
            c@ == Seq::new(VECTORS as nat, |i: int| 0u64),
    {
        let c = Counters { counts: [0;VECTORS] };
        assert(c@ =~= Seq::new(VECTORS as nat, |i: int| 0u64));
        c
    }

    /// There is a counter for each vector.
    pub proof fn lemma_len(&self)
        ensures
            self@.len() == VECTORS,
    {
    }
}

/// The counters after `vector` fired once more; a full counter starts over.
pub open spec fn recorded(counts: Seq<u64>, vector: u8) -> Seq<u64> {
    counts.update(
        vector as int,
        if counts[vector as int] == u64::MAX {
            0
        } else {
            (counts[vector as int] + 1) as u64
        },
    )
}

/// Counts that `vector` fired.
pub fn record(table: &mut Counters, vector: u8)
    ensures
        final(table)@ == recorded(old(table)@, vector),
{
    let v: usize = vector as usize;
    table.counts[v] = table.counts[v].wrapping_add(1);
    assert(table@ =~= recorded(old(table)@, vector));
}

/// How often `vector` fired.
pub fn count(table: &Counters, vector: u8) -> (n: u64)
    ensures
        n == table@[vector as int],
{
    table.counts[vector as usize]
}

/// The vectors that fired, each with its count, in order.
pub fn snapshot_active(table: &Counters) -> (r: Vec<(u8, u64)>)
    ensures
        r@ == active(table@, VECTORS as int),
{
    let mut r: Vec<(u8, u64)> = Vec::new();
    let mut v: usize = 0;
    while v < VECTORS
        invariant
            v <= VECTORS,
            table@.len() == VECTORS,
            r@ == active(table@, v as int),
        decreases VECTORS - v,
    {
        let n: u64 = table.counts[v];
        if n > 0 {
            r.push((v as u8, n));
        }
        v = v + 1;
    }
    r
}

/// Sets all counters to zero.
pub fn reset_all(table: &mut Counters)
    ensures
        final(table)@ == Seq::new(VECTORS as nat, |i: int| 0u64),
{
    table.counts = [0;VECTORS];
    assert(table@ =~= Seq::new(VECTORS as nat, |i: int| 0u64));
}

/// Recording one vector leaves the count of every other as it is.
pub proof fn law_record_one(counts: Seq<u64>, vector: u8, other: u8)
    requires
        counts.len() == VECTORS,
        counts[vector as int] < u64::MAX,
    ensures
        recorded(counts, vector)[vector as int] == counts[vector as int] + 1,
        other != vector ==> recorded(counts, vector)[other as int] == counts[other as int],
{
}

/// A snapshot holds exactly the vectors that fired, with their counts, each once and in
/// order.
pub proof fn law_snapshot(counts: Seq<u64>, n: int)
    requires
        counts.len() == VECTORS,
        0 <= n <= VECTORS,
    ensures
        forall|v: u8|
            v < n ==> (counts[v as int] > 0 <==> active(counts, n).contains((v, counts[v as int]))),
        forall|i: int|
            0 <= i < active(counts, n).len() ==> (#[trigger] active(counts, n)[i]).0 < n && active(
                counts,
                n,
            )[i].1 == counts[active(counts, n)[i].0 as int] && active(counts, n)[i].1 > 0,
        forall|i: int, j: int|
            0 <= i < j < active(counts, n).len() ==> (#[trigger] active(counts, n)[i]).0 < (
            #[trigger] active(counts, n)[j]).0,
    decreases n,
{
    if n > 0 {
        law_snapshot(counts, n - 1);
        let before = active(counts, n - 1);
        let after = active(counts, n);
        if counts[n - 1] > 0 {
            assert(after[before.len() as int] == ((n - 1) as u8, counts[n - 1]));
        }
        assert forall|v: u8| v < n implies (counts[v as int] > 0 <==> after.contains(
            (v, counts[v as int]),
        )) by {
            let e = (v, counts[v as int]);
            if v < n - 1 {
                if counts[v as int] > 0 {
                    let i = choose|i: int| 0 <= i < before.len() && before[i] == e;
                    assert(after[i] == e);
                }
                if after.contains(e) {
                    let i = choose|i: int| 0 <= i < after.len() && after[i] == e;
                    assert(before[i] == e);
                }
            } else if counts[v as int] == 0 && after.contains(e) {
                let i = choose|i: int| 0 <= i < after.len() && after[i] == e;
                assert(before[i].1 > 0);
            }
        }
    }
}

/// A counter counts every time that its vector fired, modulo what it can hold.
pub proof fn law_record_wraps(counts: Seq<u64>, vector: u8)
    requires
        counts.len() == VECTORS,
    ensures
        recorded(counts, vector).len() == 256,
        (recorded(counts, vector)[vector as int] - counts[vector as int] - 1)
            % 0x1_0000_0000_0000_0000 == 0,
        forall|other: int|
            0 <= other < 256 && other != vector ==> #[trigger] recorded(counts, vector)[other]
                == counts[other],
{
}

} // verus!
