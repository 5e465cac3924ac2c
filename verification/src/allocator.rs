//! Address alignment arithmetic shared by every allocator.
//!
//! Each allocation strategy rounds a candidate address up to the caller's
//! requested power-of-two alignment. The executable [`align_up`] does this
//! with the usual mask trick; its contract ties the result to the purely
//! arithmetic [`align_up_spec`], which the rest of the crate reasons about.

pub mod bump;
pub mod fixed_size_block;
pub mod linked_list;

use vstd::prelude::*;

verus! {

use vstd::arithmetic::power2::{is_pow2, is_pow2_exists, is_pow2_equiv, lemma2_to64,
    lemma2_to64_rest};
use vstd::arithmetic::power::{pow, lemma_pow_positive};
use vstd::arithmetic::div_mod::{
    lemma_fundamental_div_mod, lemma_mod_multiples_basic, lemma_mod_division_less_than_divisor,
    lemma_mod_self_0,
};
use vstd::arithmetic::mul::{lemma_mul_inequality, lemma_mul_is_commutative};

/// A pair `(addr, size)` standing for the address range `[addr, addr + size)`.
/// The allocators track the ranges they have handed out in this form.
pub open spec fn ranges_disjoint(a: (int, int), b: (int, int)) -> bool {
    a.0 + a.1 <= b.0 || b.0 + b.1 <= a.0
}

/// The range `x` lies inside the range `y`.
pub open spec fn range_within(x: (int, int), y: (int, int)) -> bool {
    y.0 <= x.0 && x.0 + x.1 <= y.0 + y.1
}

/// The smallest multiple of `align` that is greater than or equal to `addr`.
pub open spec fn align_up_spec(addr: int, align: int) -> int
    recommends
        align >= 1,
        addr >= 0,
{
    ((addr + align - 1) / align) * align
}

/// `align_up_spec` lands on a multiple of `align` within `align` bytes
/// above (or at) `addr`.
pub proof fn lemma_align_up(addr: int, align: int)
    requires
        align >= 1,
        addr >= 0,
    ensures
        align_up_spec(addr, align) % align == 0,
        addr <= align_up_spec(addr, align) < addr + align,
{
    let s = addr + align - 1;
    lemma_fundamental_div_mod(s, align);
    lemma_mod_division_less_than_divisor(s, align);
    lemma_mod_multiples_basic(s / align, align);
    lemma_mul_is_commutative(s / align, align);
}

/// Two multiples of `d` that are less than `d` apart are equal.
pub proof fn lemma_multiples_apart(x: int, y: int, d: int)
    requires
        d >= 1,
        x % d == 0,
        y % d == 0,
        x < y,
    ensures
        x + d <= y,
{
    lemma_fundamental_div_mod(x, d);
    lemma_fundamental_div_mod(y, d);
    let qx = x / d;
    let qy = y / d;
    if qx >= qy {
        lemma_mul_inequality(qy, qx, d);
        lemma_mul_is_commutative(qy, d);
        lemma_mul_is_commutative(qx, d);
        assert(false);
    }
    lemma_mul_inequality(qx + 1, qy, d);
    lemma_mul_is_commutative(qx + 1, d);
    lemma_mul_is_commutative(qy, d);
    assert((qx + 1) * d == qx * d + d) by (nonlinear_arith);
    assert(qx * d == d * qx) by (nonlinear_arith);
}

/// There is exactly one multiple of `align` in `[addr, addr + align)`,
/// so any such multiple is `align_up_spec(addr, align)`.
pub proof fn lemma_align_up_unique(addr: int, align: int, m: int)
    requires
        align >= 1,
        addr >= 0,
        m % align == 0,
        addr <= m < addr + align,
    ensures
        m == align_up_spec(addr, align),
{
    let r = align_up_spec(addr, align);
    lemma_align_up(addr, align);
    if m < r {
        lemma_multiples_apart(m, r, align);
        assert(false);
    }
    if r < m {
        lemma_multiples_apart(r, m, align);
        assert(false);
    }
}

/// An already-aligned address is left unchanged.
pub proof fn lemma_align_up_aligned(addr: int, align: int)
    requires
        align >= 1,
        addr >= 0,
        addr % align == 0,
    ensures
        align_up_spec(addr, align) == addr,
{
    lemma_align_up_unique(addr, align, addr);
}

/// A power of two has the bit shape `one set bit`, so masking with
/// `align - 1` clears it to zero.
pub proof fn lemma_pow2_mask(a: usize)
    requires
        is_pow2(a as int),
    ensures
        a >= 1,
        a & ((a - 1) as usize) == 0,
    decreases a,
{
    reveal(is_pow2);
    if a == 1 {
        assert(1usize & 0usize == 0) by (bit_vector);
    } else {
        let h: usize = a / 2;
        lemma_pow2_mask(h);
        assert(a & ((a - 1) as usize) == 0) by (bit_vector)
            requires
                a % 2 == 0usize,
                h == a / 2,
                h >= 1usize,
                h & ((h - 1) as usize) == 0usize,
        ;
    }
}

/// A value whose low bits (below the power of two `a`) are all clear is
/// a multiple of `a`.
pub proof fn lemma_mask_divides(x: usize, a: usize)
    requires
        is_pow2(a as int),
        x & ((a - 1) as usize) == 0,
    ensures
        x as int % a as int == 0,
    decreases a,
{
    reveal(is_pow2);
    if a == 1 {
        assert(x as int % 1int == 0);
    } else {
        let h: usize = a / 2;
        let x2: usize = x / 2;
        assert(x % 2 == 0usize && x2 & ((h - 1) as usize) == 0usize) by (bit_vector)
            requires
                x & ((a - 1) as usize) == 0usize,
                a == h + h,
                h >= 1usize,
                x2 == x / 2,
        ;
        lemma_mask_divides(x2, h);
        lemma_fundamental_div_mod(x2 as int, h as int);
        let k = x2 as int / h as int;
        assert(x as int == a as int * k) by (nonlinear_arith)
            requires
                x as int == 2 * (x2 as int),
                x2 as int == h as int * k + 0,
                a as int == 2 * (h as int),
        ;
        lemma_mod_multiples_basic(k, a as int);
        lemma_mul_is_commutative(k, a as int);
    }
}

/// A smaller power of two divides a larger one.
pub proof fn lemma_pow2_divides(a: int, b: int)
    requires
        is_pow2(a),
        is_pow2(b),
        a <= b,
    ensures
        b % a == 0,
    decreases b,
{
    reveal(is_pow2);
    if a == 1 {
        assert(b % 1 == 0);
    } else if a == b {
        lemma_mod_self_0(a);
    } else {
        let a2 = a / 2;
        let b2 = b / 2;
        lemma_fundamental_div_mod(a, 2);
        lemma_fundamental_div_mod(b, 2);
        lemma_pow2_divides(a2, b2);
        let k = b2 / a2;
        lemma_fundamental_div_mod(b2, a2);
        assert(b == a * k) by (nonlinear_arith)
            requires
                b == 2 * b2,
                b2 == a2 * k + 0,
                a == 2 * a2,
        ;
        lemma_mod_multiples_basic(k, a);
        lemma_mul_is_commutative(k, a);
    }
}

/// A value divisible by `b` is divisible by any divisor `a` of `b`.
pub proof fn lemma_mod_transitive(x: int, a: int, b: int)
    requires
        a >= 1,
        b >= 1,
        x >= 0,
        x % b == 0,
        b % a == 0,
    ensures
        x % a == 0,
{
    lemma_fundamental_div_mod(x, b);
    lemma_fundamental_div_mod(b, a);
    let q = x / b;
    let p = b / a;
    assert(x == (q * p) * a) by (nonlinear_arith)
        requires
            x == b * q + 0,
            b == a * p + 0,
    ;
    lemma_mod_multiples_basic(q * p, a);
}

/// One past the top of the address space is itself a power of two.
pub proof fn lemma_address_space_pow2()
    ensures
        is_pow2(usize::MAX as int + 1),
{
    assert(usize::MAX == u32::MAX || usize::MAX == u64::MAX);
    lemma2_to64();
    lemma2_to64_rest();
    let n = usize::MAX as int + 1;
    lemma_pow_positive(2, 32);
    lemma_pow_positive(2, 64);
    if usize::MAX == u32::MAX {
        assert(pow(2, 32) == n);
    } else {
        assert(pow(2, 64) == n);
    }
    assert(is_pow2_exists(n));
    is_pow2_equiv(n);
}

/// If rounding `addr` up to `align` would pass the top of the address
/// space, then no aligned address at or above `addr` is representable.
pub proof fn lemma_align_up_overflow(addr: usize, align: usize)
    requires
        is_pow2(align as int),
        addr + align - 1 > usize::MAX,
    ensures
        align_up_spec(addr as int, align as int) > usize::MAX,
{
    lemma_align_up(addr as int, align as int);
    lemma_pow2_mask(align);
    let r = align_up_spec(addr as int, align as int);
    if r <= usize::MAX {
        lemma_address_space_pow2();
        lemma_pow2_divides(align as int, usize::MAX as int + 1);
        lemma_multiples_apart(r, usize::MAX as int + 1, align as int);
        assert(false);
    }
}

/// Round `addr` up to the next multiple of `align`.
///
/// `align` must be a power of two, which lets a single mask do the
/// rounding; this runs on every allocation, so it stays branch-free.
#[verifier::rlimit(60)]
pub fn align_up(addr: usize, align: usize) -> (r: usize)
    requires
        is_pow2(align as int),
        addr + align - 1 <= usize::MAX,
    ensures
        r == align_up_spec(addr as int, align as int),
        r as int % align as int == 0,
        addr <= r < addr + align,
{
    proof {
        lemma_pow2_mask(align);
        lemma_align_up(addr as int, align as int);
    }
    let mask: usize = align - 1;
    let m: usize = addr + mask;
    let r: usize = m & !mask;
    proof {
        assert((m - mask) as usize <= r <= m) by (bit_vector)
            requires
                r == m & !mask,
                m >= mask,
        ;
        assert(r & mask == 0usize) by (bit_vector)
            requires
                r == m & !mask,
        ;
        lemma_mask_divides(r, align);
        lemma_align_up_unique(addr as int, align as int, r as int);
    }
    r
}

} // verus!
