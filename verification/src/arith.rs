//! Arithmetic groundwork: powers of two, divisibility and alignment facts
//! used throughout the address-space reasoning, plus the executable
//! power-of-two helpers the block operations need.

use vstd::prelude::*;
use vstd::arithmetic::power2::{pow2, lemma_pow2_adds, lemma_pow2_pos, lemma2_to64};
use vstd::arithmetic::div_mod::{lemma_fundamental_div_mod, lemma_mod_multiples_basic};

verus! {

/// The two address widths this library works with, as powers of two.
pub proof fn lemma_pow2_widths()
    ensures
        pow2(32) == 0x1_0000_0000,
        pow2(64) == 0x1_0000_0000_0000_0000,
        pow2(128) == 0x1_0000_0000_0000_0000_0000_0000_0000_0000,
{
    lemma2_to64();
    lemma_pow2_adds(64, 64);
}

/// Powers of two are monotone in the exponent.
pub proof fn lemma_pow2_le(e1: nat, e2: nat)
    requires
        e1 <= e2,
    ensures
        pow2(e1) <= pow2(e2),
{
    if e1 < e2 {
        vstd::arithmetic::power2::lemma_pow2_strictly_increases(e1, e2);
    }
}

/// A positive difference of two multiples of `s` is at least `s`.
pub proof fn lemma_multiple_gap(x: int, y: int, s: int)
    requires
        s > 0,
        x % s == 0,
        y % s == 0,
        x < y,
    ensures
        x + s <= y,
{
    lemma_fundamental_div_mod(x, s);
    lemma_fundamental_div_mod(y, s);
    assert(x + s <= y) by (nonlinear_arith)
        requires
            s > 0,
            x == s * (x / s),
            y == s * (y / s),
            x < y,
    ;
}

/// Divisibility is transitive: a multiple of `s2` is a multiple of every
/// divisor `s1` of `s2`.
pub proof fn lemma_divides_trans(x: int, s1: int, s2: int)
    requires
        s1 > 0,
        s2 > 0,
        x % s2 == 0,
        s2 % s1 == 0,
    ensures
        x % s1 == 0,
{
    lemma_fundamental_div_mod(x, s2);
    lemma_fundamental_div_mod(s2, s1);
    let k = (s2 / s1) * (x / s2);
    assert(x == k * s1) by (nonlinear_arith)
        requires
            x == s2 * (x / s2),
            s2 == s1 * (s2 / s1),
            k == (s2 / s1) * (x / s2),
    ;
    lemma_mod_multiples_basic(k, s1);
}

/// The smaller of two powers of two divides the larger.
pub proof fn lemma_pow2_divides(e1: nat, e2: nat)
    requires
        e1 <= e2,
    ensures
        pow2(e2) as int % pow2(e1) as int == 0,
{
    lemma_pow2_adds(e1, (e2 - e1) as nat);
    lemma_pow2_pos(e1);
    lemma_pow2_pos((e2 - e1) as nat);
    lemma_mod_multiples_basic(pow2((e2 - e1) as nat) as int, pow2(e1) as int);
}

/// Executable `2^k - 1` for any `k <= 128`; the result always fits in a
/// `u128`, even for the full width.
pub fn low_ones(k: u8) -> (r: u128)
    requires
        k <= 128,
    ensures
        r == pow2(k as nat) - 1,
{
    proof {
        lemma2_to64();
    }
    let mut m: u128 = 0;
    let mut i: u8 = 0;
    while i < k
        invariant
            i <= k <= 128,
            m == pow2(i as nat) - 1,
        decreases k - i,
    {
        proof {
            vstd::arithmetic::power2::lemma_pow2_unfold((i + 1) as nat);
            if i + 1 < 128 {
                vstd::arithmetic::power2::lemma_pow2_strictly_increases((i + 1) as nat, 128);
            }
            lemma_pow2_widths();
            assert(2 * m + 1 == pow2((i + 1) as nat) - 1);
            assert(pow2((i + 1) as nat) <= pow2(128));
        }
        m = 2 * m + 1;
        i = i + 1;
    }
    m
}

/// Executable `2^k` for `k <= 127`.
pub fn pow2_u128(k: u8) -> (r: u128)
    requires
        k <= 127,
    ensures
        r == pow2(k as nat),
{
    proof {
        vstd::arithmetic::power2::lemma_pow2_strictly_increases(k as nat, 128);
        lemma_pow2_widths();
        lemma_pow2_pos(k as nat);
    }
    low_ones(k) + 1
}

} // verus!
