//! Run-time tests for the moduli that the solver supports, and a solver
//! that refuses all others.
use crate::binary::{floor_log2, is_power_of_two, lemma_power_of_two_between, power_of_two};
use crate::primes::is_prime;
use crate::solver::{
    congruence_roots, holds_roots, is_supported_modulus, solve_quadratic_congruence,
};
use vstd::arithmetic::div_mod::{lemma_fundamental_div_mod, lemma_mod_multiples_basic};
use vstd::arithmetic::power2::{lemma_pow2_pos, pow2};
use vstd::prelude::*;

verus! {

/// Whether `p` is a prime, by trial division.
pub fn check_prime(p: i64) -> (ok: bool)
    ensures
        ok == is_prime(p as int),
{
    if p < 2 {
        return false;
    }
    let mut d: i64 = 2;
    while d <= p / d
        invariant
            2 <= d <= p,
            forall|y: int| 2 <= y < d ==> #[trigger] (p as int % y) != 0,
        decreases p - d,
    {
        proof {
            lemma_fundamental_div_mod(p as int, d as int);
            assert(2 * d <= p) by (nonlinear_arith)
                requires
                    p == d * (p / d) + p % d,
                    0 <= p % d,
                    2 <= d <= p / d,
            ;
        }
        if p % d == 0 {
            return false;
        }
        d = d + 1;
    }
    proof {
        assert forall|y: int| 1 < y < p implies #[trigger] (p as int % y) != 0 by {
            if p as int % y == 0 {
                let e = p as int / y;
                lemma_fundamental_div_mod(p as int, y);
                lemma_fundamental_div_mod(p as int, d as int);
                assert(2 <= e < d || 2 <= y < d) by (nonlinear_arith)
                    requires
                        p == y * e,
                        1 < y < p,
                        p == d * (p / d) + p % d,
                        0 <= p % d < d,
                        p / d < d,
                        2 <= d,
                ;
                lemma_mod_multiples_basic(y, e);
                assert(p as int % e == 0);
            }
        }
    }
    true
}

/// Whether `m` is a power of two.
pub fn check_power_of_two(m: i64) -> (ok: bool)
    ensures
        ok == is_power_of_two(m as int),
{
    if m < 1 {
        proof {
            if is_power_of_two(m as int) {
                let k = choose|k: nat| m == pow2(k);
                lemma_pow2_pos(k);
            }
        }
        return false;
    }
    let k: u32 = floor_log2(m);
    proof {
        if is_power_of_two(m as int) {
            lemma_power_of_two_between(m as int, k as nat);
        }
    }
    power_of_two(k) == m
}

/// Whether `m` is a modulus that the solver supports: a power of two from 2
/// on, or an odd prime.
pub fn check_modulus(m: i64) -> (ok: bool)
    ensures
        ok == is_supported_modulus(m as int),
{
    if m <= 1 {
        return false;
    }
    if m % 2 == 0 {
        check_power_of_two(m)
    } else {
        check_prime(m)
    }
}

/// The modulus is neither a power of two from 2 on nor an odd prime.
#[derive(Clone, Copy, Debug, PartialEq, Eq, Structural)]
pub struct UnsupportedModulus {
    pub modulus: i64,
}

/// Solves `x * x = b (mod m)` where `m` is a supported modulus, and refuses
/// every other modulus.
pub fn solve_checked(b: i64, m: i64) -> (result: Result<Option<Vec<i64>>, UnsupportedModulus>)
    ensures
        is_supported_modulus(m as int) ==> result is Ok && holds_roots(
            result->Ok_0,
            congruence_roots(b as int, m as int),
        ),
        !is_supported_modulus(m as int) ==> result == Err::<Option<Vec<i64>>, UnsupportedModulus>(
            UnsupportedModulus { modulus: m },
        ),
{
    if check_modulus(m) {
        Ok(solve_quadratic_congruence(b, m))
    } else {
        Err(UnsupportedModulus { modulus: m })
    }
}

} // verus!
