//! Byte-addressed memory that the allocators manage.
//!
//! A [`Memory`] is a contiguous range of addresses with a byte behind each of them. The
//! allocators thread their free lists and headers through the memory they hand out, so
//! every operation of theirs takes the memory it works on.

use vstd::prelude::*;

verus! {

/// The word that eight bytes spell, least significant byte first.
pub open spec fn word_of(b0: u8, b1: u8, b2: u8, b3: u8, b4: u8, b5: u8, b6: u8, b7: u8) -> u64 {
    (b0 as u64) | (b1 as u64) << 8u64 | (b2 as u64) << 16u64 | (b3 as u64) << 24u64 | (b4 as u64)
        << 32u64 | (b5 as u64) << 40u64 | (b6 as u64) << 48u64 | (b7 as u64) << 56u64
}

/// The half-word that two bytes spell, least significant byte first.
pub open spec fn half_of(b0: u8, b1: u8) -> u16 {
    (b0 as u16) | (b1 as u16) << 8u16
}

/// A contiguous range of addresses starting at `base`, one byte per address.
pub struct Memory {
    base: u64,
    bytes: Vec<u8>,
}

impl Memory {
    /// The lowest address of the range.
    pub closed spec fn base(&self) -> int {
        self.base as int
    }

    /// The address one past the range.
    pub closed spec fn end(&self) -> int {
        self.base + self.bytes@.len()
    }

    /// The byte at `addr`.
    pub closed spec fn at(&self, addr: int) -> u8 {
        self.bytes@[addr - self.base]
    }

    /// No address of the range is null, and none overflows a machine word.
    pub open spec fn wf(&self) -> bool {
        &&& self.base() > 0
        &&& self.end() <= u64::MAX
        &&& self.indexable()
    }

    /// Every byte has a machine-word index.
    pub closed spec fn indexable(&self) -> bool {
        self.bytes@.len() <= usize::MAX
    }

    /// The range holds the `len` bytes from `addr` on.
    pub open spec fn holds(&self, addr: int, len: int) -> bool {
        self.base() <= addr && addr + len <= self.end()
    }

    /// The eight-byte word at `addr`.
    #[verifier::opaque]
    pub open spec fn word(&self, addr: int) -> u64 {
        word_of(
            self.at(addr),
            self.at(addr + 1),
            self.at(addr + 2),
            self.at(addr + 3),
            self.at(addr + 4),
            self.at(addr + 5),
            self.at(addr + 6),
            self.at(addr + 7),
        )
    }

    /// The two-byte half-word at `addr`.
    #[verifier::opaque]
    pub open spec fn half(&self, addr: int) -> u16 {
        half_of(self.at(addr), self.at(addr + 1))
    }

    /// Both memories hold the same bytes from `lo` up to, not including, `hi`.
    pub open spec fn agrees(&self, other: &Memory, lo: int, hi: int) -> bool {
        forall|a: int| lo <= a < hi ==> #[trigger] self.at(a) == other.at(a)
    }

    /// Words and half-words that lie where two memories agree are equal.
    pub proof fn lemma_agrees(&self, other: &Memory, lo: int, hi: int)
        requires
            self.agrees(other, lo, hi),
        ensures
            forall|a: int| lo <= a && a + 8 <= hi ==> #[trigger] self.word(a) == other.word(a),
            forall|a: int| lo <= a && a + 2 <= hi ==> #[trigger] self.half(a) == other.half(a),
    {
        reveal(Memory::word);
        reveal(Memory::half);
    }

    /// Both memories span the same addresses.
    pub open spec fn same_range(&self, other: &Memory) -> bool {
        self.base() == other.base() && self.end() == other.end()
    }

    /// Wraps `bytes` as the memory that starts at address `base`.
    pub fn new(base: u64, bytes: Vec<u8>) -> (m: Self)
        requires
            base > 0,
            base + bytes@.len() <= u64::MAX,
        ensures
            m.wf(),
            m.base() == base,
            m.end() == base + bytes@.len(),
            forall|a: int| m.holds(a, 1) ==> #[trigger] m.at(a) == bytes@[a - base],
    {
        let len: usize = bytes.len();
        assert(bytes@.len() == len);
        Memory { base, bytes }
    }

    /// Tells whether the range holds the `len` bytes from `addr` on.
    pub fn covers(&self, addr: u64, len: u64) -> (b: bool)
        requires
            self.wf(),
        ensures
            b == self.holds(addr as int, len as int),
    {
        let end: u64 = self.base + self.bytes.len() as u64;
        self.base <= addr && addr <= end && len <= end - addr
    }

    /// Reads the word at `addr`.
    pub fn read_u64(&self, addr: u64) -> (v: u64)
        requires
            self.wf(),
            self.holds(addr as int, 8),
        ensures
            v == self.word(addr as int),
    {
        reveal(Memory::word);
        reveal(Memory::half);
        let o: usize = (addr - self.base) as usize;
        (self.bytes[o] as u64) | (self.bytes[o + 1] as u64) << 8u64 | (self.bytes[o + 2] as u64)
            << 16u64 | (self.bytes[o + 3] as u64) << 24u64 | (self.bytes[o + 4] as u64) << 32u64 | (
        self.bytes[o + 5] as u64) << 40u64 | (self.bytes[o + 6] as u64) << 48u64 | (self.bytes[o
            + 7] as u64) << 56u64
    }

    /// Writes `v` as the word at `addr`; every other byte stays as it was.
    pub fn write_u64(&mut self, addr: u64, v: u64)
        requires
            old(self).wf(),
            old(self).holds(addr as int, 8),
        ensures
            final(self).wf(),
            final(self).same_range(old(self)),
            final(self).word(addr as int) == v,
            forall|a: int|
                old(self).holds(a, 1) && !(addr <= a < addr + 8) ==> #[trigger] final(self).at(a)
                    == old(self).at(a),
            forall|a: int|
                #![trigger final(self).word(a)]
                old(self).holds(a, 8) && (a + 8 <= addr || addr + 8 <= a) ==> final(self).word(a)
                    == old(self).word(a),
            forall|a: int|
                #![trigger final(self).half(a)]
                old(self).holds(a, 2) && (a + 2 <= addr || addr + 8 <= a) ==> final(self).half(a)
                    == old(self).half(a),
    {
        let ghost before = *self;
        let o: usize = (addr - self.base) as usize;
        self.bytes[o] = (v & 0xff) as u8;
        self.bytes[o + 1] = ((v >> 8u64) & 0xff) as u8;
        self.bytes[o + 2] = ((v >> 16u64) & 0xff) as u8;
        self.bytes[o + 3] = ((v >> 24u64) & 0xff) as u8;
        self.bytes[o + 4] = ((v >> 32u64) & 0xff) as u8;
        self.bytes[o + 5] = ((v >> 40u64) & 0xff) as u8;
        self.bytes[o + 6] = ((v >> 48u64) & 0xff) as u8;
        self.bytes[o + 7] = ((v >> 56u64) & 0xff) as u8;
        proof {
            assert(self.word(addr as int) == v) by {
                reveal(Memory::word);
                assert(word_of(
                    (v & 0xff) as u8,
                    ((v >> 8u64) & 0xff) as u8,
                    ((v >> 16u64) & 0xff) as u8,
                    ((v >> 24u64) & 0xff) as u8,
                    ((v >> 32u64) & 0xff) as u8,
                    ((v >> 40u64) & 0xff) as u8,
                    ((v >> 48u64) & 0xff) as u8,
                    ((v >> 56u64) & 0xff) as u8,
                ) == v) by (bit_vector);
            }
            self.lemma_agrees(&before, self.base(), addr as int);
            self.lemma_agrees(&before, addr + 8, self.end());
        }
    }

    /// Reads the half-word at `addr`.
    pub fn read_u16(&self, addr: u64) -> (v: u16)
        requires
            self.wf(),
            self.holds(addr as int, 2),
        ensures
            v == self.half(addr as int),
    {
        reveal(Memory::word);
        reveal(Memory::half);
        let o: usize = (addr - self.base) as usize;
        (self.bytes[o] as u16) | (self.bytes[o + 1] as u16) << 8u16
    }

    /// Writes `v` as the half-word at `addr`; every other byte stays as it was.
    pub fn write_u16(&mut self, addr: u64, v: u16)
        requires
            old(self).wf(),
            old(self).holds(addr as int, 2),
        ensures
            final(self).wf(),
            final(self).same_range(old(self)),
            final(self).half(addr as int) == v,
            forall|a: int|
                old(self).holds(a, 1) && !(addr <= a < addr + 2) ==> #[trigger] final(self).at(a)
                    == old(self).at(a),
            forall|a: int|
                #![trigger final(self).word(a)]
                old(self).holds(a, 8) && (a + 8 <= addr || addr + 2 <= a) ==> final(self).word(a)
                    == old(self).word(a),
            forall|a: int|
                #![trigger final(self).half(a)]
                old(self).holds(a, 2) && (a + 2 <= addr || addr + 2 <= a) ==> final(self).half(a)
                    == old(self).half(a),
    {
        reveal(Memory::word);
        reveal(Memory::half);
        let o: usize = (addr - self.base) as usize;
        self.bytes[o] = (v & 0xff) as u8;
        self.bytes[o + 1] = ((v >> 8u16) & 0xff) as u8;
        proof {
            assert(half_of((v & 0xff) as u8, ((v >> 8u16) & 0xff) as u8) == v) by (bit_vector);
        }
    }
}

/// A word is the sum of its bytes, each weighed by its place.
pub proof fn law_word(b0: u8, b1: u8, b2: u8, b3: u8, b4: u8, b5: u8, b6: u8, b7: u8)
    ensures
        word_of(b0, b1, b2, b3, b4, b5, b6, b7) == b0 + 0x100 * b1 + 0x1_0000 * b2 + 0x100_0000 * b3
            + 0x1_0000_0000 * b4 + 0x100_0000_0000 * b5 + 0x1_0000_0000_0000 * b6
            + 0x100_0000_0000_0000 * b7,
        half_of(b0, b1) == b0 + 0x100 * b1,
{
    assert(word_of(b0, b1, b2, b3, b4, b5, b6, b7) == b0 + 0x100 * b1 + 0x1_0000 * b2 + 0x100_0000
        * b3 + 0x1_0000_0000 * b4 + 0x100_0000_0000 * b5 + 0x1_0000_0000_0000 * b6
        + 0x100_0000_0000_0000 * b7) by (bit_vector);
    assert(half_of(b0, b1) == b0 + 0x100 * b1) by (bit_vector);
}

/// A range is held exactly if it starts no earlier and ends no later than the memory does, and
/// memories of the same range hold the same ones.
pub proof fn law_holds(m: &Memory, n: &Memory, addr: int, len: int)
    ensures
        m.holds(addr, len) <==> m.base() <= addr && addr + len <= m.end(),
        m.same_range(n) ==> (m.holds(addr, len) <==> n.holds(addr, len)),
        m.wf() ==> 0 < m.base() && m.end() <= u64::MAX,
{
}

/// A word that is in memory lies there byte by byte, the lowest first.
pub proof fn law_word_in_memory(m: &Memory, addr: int)
    ensures
        m.word(addr) == m.at(addr) + 0x100 * m.at(addr + 1) + 0x1_0000 * m.at(addr + 2) + 0x100_0000
            * m.at(addr + 3) + 0x1_0000_0000 * m.at(addr + 4) + 0x100_0000_0000 * m.at(addr + 5)
            + 0x1_0000_0000_0000 * m.at(addr + 6) + 0x100_0000_0000_0000 * m.at(addr + 7),
        m.half(addr) == m.at(addr) + 0x100 * m.at(addr + 1),
{
    reveal(Memory::word);
    reveal(Memory::half);
    law_word(
        m.at(addr),
        m.at(addr + 1),
        m.at(addr + 2),
        m.at(addr + 3),
        m.at(addr + 4),
        m.at(addr + 5),
        m.at(addr + 6),
        m.at(addr + 7),
    );
}

} // verus!
