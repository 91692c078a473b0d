//! The Legendre symbol, computed by Euler's criterion.
use crate::modular::mod_exp;
use crate::primes::is_odd_prime;
use crate::residues::{euler_power, legendre, lemma_euler_power_of_square};
use crate::tonelli::lemma_euler_criterion;
use vstd::prelude::*;

verus! {

/// The Legendre symbol of `a` over the odd prime `p`: 1 where `a` is a
/// quadratic residue that `p` does not divide, 0 where `p` divides `a`, and
/// -1 where `a` is not a quadratic residue.
///
/// The value is read off the Euler power of `a`, the residue of `a` to the
/// power `(p - 1) / 2`: the residue `p - 1` stands for -1.
pub fn legendre_symbol(a: i64, p: i64) -> (result: i64)
    requires
        is_odd_prime(p as int),
    ensures
        result == legendre(a as int, p as int),
        result == if euler_power(a as int, p as int) == p - 1 {
            -1
        } else {
            euler_power(a as int, p as int)
        },
        -1 <= result <= 1,
{
    let ls: i64 = mod_exp(a, (p - 1) / 2, p);
    proof {
        lemma_euler_criterion(a as int, p as int);
    }
    if ls == p - 1 {
        -1
    } else {
        ls
    }
}

/// The square of a number that the odd prime `p` does not divide has
/// Legendre symbol 1.
pub proof fn lemma_legendre_of_square(x: int, p: int)
    requires
        is_odd_prime(p),
        x % p != 0,
    ensures
        legendre((x * x) % p, p) == 1,
        legendre(x * x, p) == 1,
{
    lemma_euler_power_of_square(x, p);
    lemma_euler_criterion((x * x) % p, p);
    lemma_euler_criterion(x * x, p);
}

} // verus!
