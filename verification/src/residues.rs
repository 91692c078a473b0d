//! Quadratic residues modulo an odd prime and Euler's criterion.
use crate::modular::lemma_pow_congruent;
use crate::polynomial::{eval, lemma_eval_power_minus_one, lemma_root_bound, power_minus_one};
use crate::primes::{
    is_odd_prime, lemma_fermat, lemma_odd_prime_is_odd, lemma_square_root_of_one,
};
use vstd::arithmetic::div_mod::{
    lemma_mod_bound, lemma_mod_equivalence, lemma_mul_mod_noop_general, lemma_small_mod,
};
use vstd::arithmetic::power::{
    lemma0_pow, lemma1_pow, lemma_pow_adds, lemma_pow_mod_noop, lemma_pow_multiplies,
    lemma_square_is_pow2, pow,
};
use vstd::prelude::*;
use vstd::set_lib::{lemma_int_range, set_int_range};

verus! {

/// `x` is a residue modulo `m` whose square is congruent to `b`.
pub open spec fn is_square_root(x: int, b: int, m: int) -> bool {
    0 <= x < m && (x * x) % m == b % m
}

/// `a` is congruent to a square modulo `p`.
pub open spec fn is_quadratic_residue(a: int, p: int) -> bool {
    exists|x: int| is_square_root(x, a, p)
}

/// The Legendre symbol of `a` over the odd prime `p`: 0 where `p` divides
/// `a`, 1 where `a` is a quadratic residue that `p` does not divide, and -1
/// where `a` is not a quadratic residue.
pub open spec fn legendre(a: int, p: int) -> int {
    if a % p == 0 {
        0
    } else if is_quadratic_residue(a, p) {
        1
    } else {
        -1
    }
}

/// The residue of `a` to the power `(p - 1) / 2` modulo `p`.
pub open spec fn euler_power(a: int, p: int) -> int {
    pow(a, ((p - 1) / 2) as nat) % p
}

/// Congruent numbers have the same Euler power.
pub proof fn lemma_euler_power_congruent(a1: int, a2: int, p: int)
    requires
        p > 0,
        a1 % p == a2 % p,
    ensures
        euler_power(a1, p) == euler_power(a2, p),
{
    lemma_pow_congruent(a1, a2, ((p - 1) / 2) as nat, p);
}

/// The Euler power modulo an odd prime is 0 for the multiples of the prime,
/// and 1 or `p - 1` for all other numbers.
pub proof fn lemma_euler_power_values(a: int, p: int)
    requires
        is_odd_prime(p),
    ensures
        a % p == 0 ==> euler_power(a, p) == 0,
        a % p != 0 ==> euler_power(a, p) == 1 || euler_power(a, p) == p - 1,
{
    let k: nat = ((p - 1) / 2) as nat;
    let e = euler_power(a, p);
    lemma_mod_bound(pow(a, k), p);
    if a % p == 0 {
        lemma_pow_mod_noop(a, k, p);
        lemma0_pow(k);
        lemma_small_mod(0, p as nat);
    } else {
        lemma_mul_mod_noop_general(pow(a, k), pow(a, k), p);
        lemma_pow_adds(a, k, k);
        lemma_odd_prime_is_odd(p);
        assert(k + k == p - 1);
        lemma_fermat(a, p);
        lemma_square_root_of_one(p, e);
    }
}

/// Euler's criterion, from a square to its Euler power: the square of a
/// number that the odd prime `p` does not divide has Euler power 1.
pub proof fn lemma_euler_power_of_square(x: int, p: int)
    requires
        is_odd_prime(p),
        x % p != 0,
    ensures
        euler_power(x * x, p) == 1,
        euler_power((x * x) % p, p) == 1,
{
    let k: nat = ((p - 1) / 2) as nat;
    lemma_square_is_pow2(x);
    lemma_pow_multiplies(x, 2, k);
    lemma_odd_prime_is_odd(p);
    assert(2 * k == p - 1);
    lemma_fermat(x, p);
    lemma_pow_mod_noop(x * x, k, p);
}

/// A quadratic residue that the odd prime `p` does not divide has Euler
/// power 1.
pub proof fn lemma_residue_has_euler_power_one(a: int, p: int)
    requires
        is_odd_prime(p),
        a % p != 0,
        is_quadratic_residue(a, p),
    ensures
        euler_power(a, p) == 1,
{
    let x = choose|x: int| is_square_root(x, a, p);
    lemma_small_mod(x as nat, p as nat);
    if x == 0 {
        assert(x * x == 0);
        lemma_small_mod(0, p as nat);
    }
    lemma_euler_power_of_square(x, p);
    lemma_mod_bound(x * x, p);
    lemma_euler_power_congruent(x * x, a, p);
}

/// Every odd prime `p` has a residue between 2 and `p - 1` whose Euler
/// power is `p - 1`.
pub proof fn lemma_euler_power_minus_one_exists(p: int)
    requires
        is_odd_prime(p),
    ensures
        exists|z: int| 2 <= z < p && #[trigger] euler_power(z, p) == p - 1,
{
    let k: nat = ((p - 1) / 2) as nat;
    let s = set_int_range(1, p);
    lemma_int_range(1, p);
    lemma_small_mod(1, p as nat);
    if forall|x: int| s.contains(x) ==> #[trigger] euler_power(x, p) == 1 {
        let c = power_minus_one(k);
        lemma_eval_power_minus_one(k, 0);
        assert forall|x: int| #[trigger] s.contains(x) implies 0 <= x < p && eval(c, x) % p == 0 by {
            lemma_eval_power_minus_one(k, x);
            assert(euler_power(x, p) == 1);
            lemma_mod_equivalence(pow(x, k), 1, p);
        }
        lemma_root_bound(c, p, s);
        lemma_odd_prime_is_odd(p);
        assert(false);
    }
    let z = choose|x: int| s.contains(x) && euler_power(x, p) != 1;
    lemma1_pow(k);
    lemma_small_mod(z as nat, p as nat);
    lemma_euler_power_values(z, p);
    assert(euler_power(z, p) == p - 1);
}

} // verus!
