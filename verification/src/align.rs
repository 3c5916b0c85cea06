//! Rounding of addresses.

use vstd::prelude::*;

verus! {

/// `a` is a power of two.
pub open spec fn power_of_two(a: u64) -> bool {
    a > 0 && a & ((a - 1) as u64) == 0
}

/// The least multiple of `align` from `x` on.
pub open spec fn aligned_up(x: int, align: int) -> int {
    (x + align - 1) / align * align
}

/// The greatest multiple of `align` up to `x`.
pub open spec fn aligned_down(x: int, align: int) -> int {
    x / align * align
}

/// Rounding up gives a multiple, moves by less than the alignment, and leaves multiples
/// alone.
pub proof fn law_aligned_up(x: int, align: int)
    requires
        0 <= x,
        align > 0,
    ensures
        x <= aligned_up(x, align) < x + align,
        aligned_up(x, align) % align == 0,
        x % align == 0 ==> aligned_up(x, align) == x,
{
    let q = (x + align - 1) / align;
    vstd::arithmetic::div_mod::lemma_fundamental_div_mod(x + align - 1, align);
    vstd::arithmetic::div_mod::lemma_mod_multiples_basic(q, align);
    assert(q * align == align * q) by (nonlinear_arith);
    if x % align == 0 {
        let k = x / align;
        vstd::arithmetic::div_mod::lemma_fundamental_div_mod(x, align);
        assert(x + align - 1 == k * align + (align - 1)) by (nonlinear_arith)
            requires
                x == align * k + 0,
        ;
        vstd::arithmetic::div_mod::lemma_fundamental_div_mod_converse(
            x + align - 1,
            align,
            k,
            align - 1,
        );
        assert(k * align == align * k) by (nonlinear_arith);
    }
}

/// Rounding down gives a multiple, moves by less than the alignment, and leaves multiples
/// alone.
pub proof fn law_aligned_down(x: int, align: int)
    requires
        0 <= x,
        align > 0,
    ensures
        x - align < aligned_down(x, align) <= x,
        0 <= aligned_down(x, align),
        aligned_down(x, align) % align == 0,
        x % align == 0 ==> aligned_down(x, align) == x,
{
    let q = x / align;
    vstd::arithmetic::div_mod::lemma_fundamental_div_mod(x, align);
    vstd::arithmetic::div_mod::lemma_mod_multiples_basic(q, align);
    vstd::arithmetic::div_mod::lemma_div_pos_is_pos(x, align);
    assert(q * align == align * q) by (nonlinear_arith);
    assert(0 <= q * align) by (nonlinear_arith)
        requires
            0 <= q,
            0 < align,
    ;
}

/// Rounds `addr` up to a multiple of `align`.
pub fn align_up(addr: u64, align: u64) -> (a: u64)
    requires
        power_of_two(align),
        addr + align - 1 <= u64::MAX,
    ensures
        a == aligned_up(addr as int, align as int),
        a % align == 0,
        addr <= a < addr + align,
{
    proof {
        law_aligned_up(addr as int, align as int);
        law_aligned_down(addr + align - 1, align as int);
    }
    (addr + (align - 1)) / align * align
}

/// Rounds `addr` down to a multiple of `align`.
pub fn align_down(addr: u64, align: u64) -> (a: u64)
    requires
        power_of_two(align),
    ensures
        a == aligned_down(addr as int, align as int),
        a % align == 0,
        addr - align < a <= addr,
{
    proof {
        law_aligned_down(addr as int, align as int);
    }
    addr / align * align
}

/// The powers of two are those, and nothing else is one.
pub proof fn law_power_of_two(a: u64, k: u64)
    ensures
        k < 64 ==> power_of_two(1u64 << k),
        !power_of_two(0),
        power_of_two(a) && a > 1 ==> a % 2 == 0 && power_of_two((a / 2) as u64),
        power_of_two(a) && a < 0x8000_0000_0000_0000 ==> power_of_two((2 * a) as u64),
{
    assert(k < 64 ==> {
        let p = 1u64 << k;
        p > 0 && p & ((p - 1) as u64) == 0
    }) by (bit_vector);
    assert(a > 1 && a & ((a - 1) as u64) == 0 ==> a % 2 == 0 && (a / 2) > 0 && (a / 2) & (((a / 2)
        - 1) as u64) == 0) by (bit_vector);
    assert(0 < a && a < 0x8000_0000_0000_0000 && a & ((a - 1) as u64) == 0 ==> ((2 * a) as u64) & ((
    ((2 * a) as u64) - 1) as u64) == 0) by (bit_vector);
}

/// Rounding up gives the least multiple from the address on, and rounding down the greatest
/// up to it.
pub proof fn law_nearest(x: int, align: int, m: int)
    requires
        0 <= x,
        align > 0,
        m % align == 0,
    ensures
        m >= x ==> m >= aligned_up(x, align),
        m <= x ==> m <= aligned_down(x, align),
{
    law_aligned_up(x, align);
    law_aligned_down(x, align);
    let (u, d) = (aligned_up(x, align), aligned_down(x, align));
    vstd::arithmetic::div_mod::lemma_fundamental_div_mod(m, align);
    vstd::arithmetic::div_mod::lemma_fundamental_div_mod(u, align);
    vstd::arithmetic::div_mod::lemma_fundamental_div_mod(d, align);
    let (p, q, r) = (m / align, u / align, d / align);
    if m >= x {
        assert(p >= q) by (nonlinear_arith)
            requires
                align * p > align * q - align,
                align > 0,
        ;
        assert(align * p >= align * q) by (nonlinear_arith)
            requires
                p >= q,
                align > 0,
        ;
    }
    if m <= x {
        assert(p <= r) by (nonlinear_arith)
            requires
                align * p < align * r + align,
                align > 0,
        ;
        assert(align * p <= align * r) by (nonlinear_arith)
            requires
                p <= r,
                align > 0,
        ;
    }
}

} // verus!
