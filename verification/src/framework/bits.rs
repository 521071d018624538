//! Powers of two that cover a size.

use crate::framework::poly;
use vstd::arithmetic::power2::pow2;
use vstd::prelude::*;

verus! {

/// The exponent of the smallest power of two that is at least `n`.
pub open spec fn ceil_log2(n: nat) -> nat
    decreases n,
{
    if n <= 1 {
        0
    } else {
        1 + ceil_log2((n + 1) / 2)
    }
}

/// The smallest power of two that is at least `n`.
pub open spec fn cover(n: nat) -> nat {
    pow2(ceil_log2(n))
}

/// The cover of a size is at least the size, and half of it is less.
pub proof fn law_cover(n: nat)
    ensures
        cover(n) >= n,
        ceil_log2(n) > 0 ==> pow2((ceil_log2(n) - 1) as nat) < n,
    decreases n,
{
    poly::lemma_pow2_zero();
    if n > 1 {
        let h = (n + 1) / 2;
        law_cover(h);
        poly::lemma_pow2_step(ceil_log2(n));
        if ceil_log2(h) > 0 {
            poly::lemma_pow2_step(ceil_log2(h));
        }
    }
}

/// A power of two covers itself.
pub proof fn lemma_cover_power(e: nat)
    ensures
        ceil_log2(pow2(e)) == e,
    decreases e,
{
    poly::lemma_pow2_zero();
    if e > 0 {
        poly::lemma_pow2_step(e);
        lemma_cover_power((e - 1) as nat);
        let h = pow2((e - 1) as nat);
        assert((2 * h + 1) / 2 == h);
    }
}

/// The number of zero bits below the lowest one of a word; the width of the word if it is zero.
pub open spec fn low_zeros(n: nat) -> nat
    decreases n,
{
    if n == 0 {
        usize::BITS as nat
    } else if n % 2 == 1 {
        0
    } else {
        1 + low_zeros(n / 2)
    }
}

/// A power of two has as many low zeros as its exponent says.
pub proof fn lemma_low_zeros_power(e: nat)
    ensures
        low_zeros(pow2(e)) == e,
    decreases e,
{
    poly::lemma_pow2_zero();
    if e > 0 {
        poly::lemma_pow2_step(e);
        lemma_low_zeros_power((e - 1) as nat);
        vstd::arithmetic::power2::lemma_pow2_pos(e);
    }
}

/// The number of zero bits below the lowest one of a word.
pub fn trailing_zeros(n: usize) -> (r: usize)
    ensures
        r == low_zeros(n as nat),
{
    if n == 0 {
        return usize::BITS as usize;
    }
    let mut left: usize = n;
    let mut out: usize = 0;
    while left % 2 == 0
        invariant
            left > 0,
            out + low_zeros(left as nat) == low_zeros(n as nat),
            out + left <= n,
        decreases left,
    {
        left = left / 2;
        out = out + 1;
    }
    out
}

/// The exponent of the smallest power of two that is at least `n`.
pub fn log2_ceil(n: usize) -> (r: usize)
    ensures
        r == ceil_log2(n as nat),
{
    let mut left: usize = n;
    let mut out: usize = 0;
    while left > 1
        invariant
            out + ceil_log2(left as nat) == ceil_log2(n as nat),
            left <= n,
            out + left <= n || n <= 1,
        decreases left,
    {
        left = left - left / 2;
        out = out + 1;
    }
    out
}

} // verus!
