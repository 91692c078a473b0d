//! Powers of two within `i64`.
use vstd::arithmetic::power2::{
    lemma2_to64, lemma2_to64_rest, lemma_pow2_pos, lemma_pow2_strictly_increases,
    lemma_pow2_unfold, pow2,
};
use vstd::prelude::*;

verus! {

/// `m` is two to some power.
pub open spec fn is_power_of_two(m: int) -> bool {
    exists|k: nat| m == pow2(k)
}

/// Powers of two grow with the exponent.
pub proof fn lemma_pow2_monotone(e1: nat, e2: nat)
    requires
        e1 <= e2,
    ensures
        pow2(e1) <= pow2(e2),
{
    if e1 < e2 {
        lemma_pow2_strictly_increases(e1, e2);
    }
}

/// The powers of two that fit in an `i64` are those with exponent up to 62.
pub proof fn lemma_pow2_fits(e: nat)
    ensures
        e <= 62 ==> pow2(e) <= 0x4000_0000_0000_0000,
        e >= 63 ==> pow2(e) >= 0x8000_0000_0000_0000,
{
    lemma2_to64_rest();
    if e <= 62 {
        lemma_pow2_monotone(e, 62);
    } else {
        lemma_pow2_monotone(63, e);
    }
}

/// A power of two between two consecutive powers of two is the lower one.
pub proof fn lemma_power_of_two_between(m: int, k: nat)
    requires
        is_power_of_two(m),
        pow2(k) <= m < pow2(k + 1),
    ensures
        m == pow2(k),
{
    let e = choose|e: nat| m == pow2(e);
    if e < k {
        lemma_pow2_strictly_increases(e, k);
    } else if e > k {
        lemma_pow2_monotone(k + 1, e);
    }
}

/// Two to the power `e`.
pub fn power_of_two(e: u32) -> (r: i64)
    requires
        e <= 62,
    ensures
        r == pow2(e as nat),
{
    let mut r: i64 = 1;
    let mut i: u32 = 0;
    proof {
        lemma2_to64();
    }
    while i < e
        invariant
            i <= e <= 62,
            r == pow2(i as nat),
        decreases e - i,
    {
        proof {
            lemma_pow2_unfold((i + 1) as nat);
            lemma_pow2_fits((i + 1) as nat);
        }
        r = r * 2;
        i = i + 1;
    }
    r
}

/// The exponent of the largest power of two that is at most `m`.
pub fn floor_log2(m: i64) -> (k: u32)
    requires
        m >= 1,
    ensures
        k <= 62,
        pow2(k as nat) <= m < pow2((k + 1) as nat),
{
    let mut k: u32 = 0;
    let mut t: i64 = m;
    proof {
        lemma2_to64();
        assert(1 * t == t);
    }
    while t > 1
        invariant
            t >= 1,
            k <= 62,
            pow2(k as nat) * t <= m,
            m < pow2(k as nat) * (t + 1),
        decreases t,
    {
        proof {
            let w = pow2(k as nat) as int;
            let half = (t / 2) as int;
            lemma_pow2_unfold((k + 1) as nat);
            lemma_pow2_pos(k as nat);
            assert((2 * w) * half <= m && m < (2 * w) * (half + 1) && 2 * w <= m)
                by (nonlinear_arith)
                requires
                    w * t <= m,
                    m < w * (t + 1),
                    w > 0,
                    t >= 2,
                    2 * half <= t < 2 * half + 2,
            ;
            lemma_pow2_fits((k + 1) as nat);
        }
        t = t / 2;
        k = k + 1;
    }
    proof {
        lemma_pow2_unfold((k + 1) as nat);
        assert(pow2(k as nat) * 1 == pow2(k as nat));
        assert(pow2(k as nat) * 2 == 2 * pow2(k as nat));
    }
    k
}

} // verus!
