//! Small integer helpers shared by the grid, cache and lighting code.

use vstd::prelude::*;

verus! {

/// Floor division of `n` by `d`.
pub fn ifdiv(n: usize, d: usize) -> (r: usize)
    requires
        d > 0,
    ensures
        r == n as int / d as int,
{
    n / d
}

/// Ceiling division of `n` by `d`.
pub fn icdiv(n: usize, d: usize) -> (r: usize)
    requires
        d > 0,
    ensures
        r == (n + d - 1) as int / d as int,
{
    if n == 0 {
        proof {
            vstd::arithmetic::div_mod::lemma_basic_div_specific_divisor(d as int);
        }
        0
    } else {
        let r = (n - 1) / d + 1;
        proof {
            vstd::arithmetic::div_mod::lemma_div_plus_one((n - 1) as int, d as int);
            vstd::arithmetic::div_mod::lemma_div_nonincreasing((n - 1) as int, d as int);
        }
        r
    }
}

/// Shifts a key-history bit queue left one frame, keeping the current
/// (least-significant) key state in place.
pub fn queue_shift_u8(n: &mut u8)
    ensures
        *final(n) == (*old(n) & 1) | ((*old(n) << 1) & 0xff),
{
    *n = *n & 1 | *n << 1;
    proof {
        let m = *old(n);
        assert((m & 1 | m << 1) == ((m & 1) | ((m << 1) & 0xff))) by (bit_vector);
    }
}

/// Marks the key as held in the current frame.
pub fn queue_set_u8(n: &mut u8)
    ensures
        *final(n) == *old(n) | 1,
        *final(n) & 1 == 1,
{
    *n |= 1;
    proof {
        let m = *old(n);
        assert((m | 1) & 1 == 1) by (bit_vector);
    }
}

/// Marks the key as released in the current frame.
pub fn queue_clear_u8(n: &mut u8)
    ensures
        *final(n) == *old(n) & !1,
        *final(n) & 1 == 0,
{
    *n &= !1;
    proof {
        let m = *old(n);
        assert((m & !1) & 1 == 0) by (bit_vector);
    }
}

/// True exactly when the key went down this frame: held now, not held in the
/// previous frame.
pub fn queue_pressed_u8(n: u8) -> (r: bool)
    ensures
        r == (n & 1 == 1 && n & 2 == 0),
{
    n & 0b1 == 1 && n & 0b10 == 0
}

/// Smallest power-of-two exponent whose power covers `n`: the grids are sized
/// by rounding a cell count up to the next power of two.
pub fn ceil_log2(n: usize) -> (r: usize)
    requires
        1 <= n <= 0x8000_0000,
    ensures
        n <= vstd::arithmetic::power2::pow2(r as nat),
        r > 0 ==> vstd::arithmetic::power2::pow2((r - 1) as nat) < n,
{
    proof {
        vstd::arithmetic::power2::lemma2_to64();
    }
    let mut e: usize = 0;
    let mut p: usize = 1;
    while p < n
        invariant
            1 <= n <= 0x8000_0000,
            p == vstd::arithmetic::power2::pow2(e as nat),
            1 <= p,
            e <= 31,
            e > 0 ==> vstd::arithmetic::power2::pow2((e - 1) as nat) < n,
        decreases 32 - e,
    {
        proof {
            vstd::arithmetic::power2::lemma2_to64();
            if e >= 31 {
                assert(p >= 0x8000_0000);
            }
            vstd::arithmetic::power2::lemma_pow2_unfold((e + 1) as nat);
            if e + 1 < 31 {
                vstd::arithmetic::power2::lemma_pow2_strictly_increases((e + 1) as nat, 31);
            }
        }
        p = p * 2;
        e = e + 1;
    }
    e
}

} // verus!
