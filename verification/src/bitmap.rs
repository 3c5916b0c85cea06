//! Fixed-size bitmap with one bit per pair of buddy blocks.

use vstd::prelude::*;

verus! {

/// Words in a bitmap.
pub const BITMAP_WORDS: usize = 17;

/// Bits in a bitmap.
pub const BITMAP_BITS: u64 = 1088;

/// One bit per buddy pair of an order.
#[derive(Clone, Copy)]
pub struct Bitmap {
    words: [u64; BITMAP_WORDS],
}

/// Bit `i` of a word.
pub open spec fn word_bit(w: u64, i: u64) -> bool {
    (w >> i) & 1 == 1
}

proof fn lemma_toggle(w: u64, i: u64, j: u64)
    by (bit_vector)
    requires
        i < 64,
        j < 64,
    ensures
        word_bit(w ^ (1u64 << i), j) == (word_bit(w, j) != (i == j)),
{
}

impl Bitmap {
    /// Bit `i`.
    pub closed spec fn bit(&self, i: int) -> bool {
        word_bit(self.words@[i / 64], (i % 64) as u64)
    }

    /// A bitmap with every bit clear.
    pub fn new() -> (b: Self)
        ensures
            forall|i: int| 0 <= i < BITMAP_BITS ==> !#[trigger] b.bit(i),
    {
        proof {
            assert forall|j: u64| !#[trigger] word_bit(0, j) by {
                assert(!word_bit(0, j)) by (bit_vector);
            }
        }
        Bitmap { words: [0;BITMAP_WORDS] }
    }

    /// Flips bit `bit`; every other bit stays.
    pub fn toggle(&mut self, bit: u64)
        requires
            bit < BITMAP_BITS,
        ensures
            forall|i: int|
                0 <= i < BITMAP_BITS ==> #[trigger] final(self).bit(i) == (old(self).bit(i) != (i
                    == bit)),
    {
        let w: usize = (bit / 64) as usize;
        self.words[w] = self.words[w] ^ (1u64 << (bit % 64));
        proof {
            assert forall|i: int| 0 <= i < BITMAP_BITS implies #[trigger] self.bit(i) == (old(
                self,
            ).bit(i) != (i == bit)) by {
                if i / 64 == bit / 64 {
                    lemma_toggle(old(self).words@[i / 64], (bit % 64) as u64, (i % 64) as u64);
                }
            }
        }
    }

    /// Reads bit `bit`.
    pub fn test(&self, bit: u64) -> (set: bool)
        requires
            bit < BITMAP_BITS,
        ensures
            set == self.bit(bit as int),
    {
        let w: usize = (bit / 64) as usize;
        (self.words[w] >> (bit % 64)) & 1 == 1
    }
}

} // verus!
