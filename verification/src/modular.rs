//! Residues, modular multiplication and modular exponentiation on `i64`.
use vstd::arithmetic::div_mod::{lemma_mod_twice, lemma_mul_mod_noop_general, lemma_small_mod};
use vstd::arithmetic::mul::lemma_mul_is_associative;
use vstd::arithmetic::power::{
    lemma_pow0, lemma_pow1, lemma_pow_adds, lemma_pow_mod_noop, lemma_pow_multiplies,
    lemma_square_is_pow2, pow,
};
use vstd::prelude::*;

verus! {

/// Products of congruent factors are congruent.
pub proof fn lemma_mul_congruent(a1: int, a2: int, b1: int, b2: int, m: int)
    requires
        m > 0,
        a1 % m == a2 % m,
        b1 % m == b2 % m,
    ensures
        (a1 * b1) % m == (a2 * b2) % m,
{
    lemma_mul_mod_noop_general(a1, b1, m);
    lemma_mul_mod_noop_general(a2, b2, m);
}

/// Powers of congruent bases are congruent.
pub proof fn lemma_pow_congruent(a1: int, a2: int, e: nat, m: int)
    requires
        m > 0,
        a1 % m == a2 % m,
    ensures
        pow(a1, e) % m == pow(a2, e) % m,
{
    lemma_pow_mod_noop(a1, e, m);
    lemma_pow_mod_noop(a2, e, m);
}

/// One round of binary exponentiation: a power of `b` is a power of `b * b`
/// with half the exponent, times `b` when the exponent is odd.
pub proof fn lemma_pow_halve(b: int, e: nat)
    requires
        e > 0,
    ensures
        e % 2 == 0 ==> pow(b, e) == pow(b * b, e / 2),
        e % 2 == 1 ==> pow(b, e) == b * pow(b * b, e / 2),
{
    let h: nat = e / 2;
    lemma_square_is_pow2(b);
    lemma_pow_multiplies(b, 2, h);
    if e % 2 == 1 {
        lemma_pow_adds(b, 1, 2 * h);
        lemma_pow1(b);
    }
}

/// The least non-negative residue of `a` modulo `m`.
pub fn reduce(a: i64, m: i64) -> (r: i64)
    requires
        m >= 1,
    ensures
        r == (a as int) % (m as int),
        0 <= r < m,
{
    a.checked_rem_euclid(m).unwrap()
}

/// The product of two residues modulo `m`, computed through a 128-bit
/// intermediate so that every 64-bit modulus is supported.
pub fn mul_mod(a: i64, b: i64, m: i64) -> (r: i64)
    requires
        m >= 1,
        0 <= a < m,
        0 <= b < m,
    ensures
        r == (a as int * b as int) % (m as int),
        0 <= r < m,
{
    assert(0 <= (a as int) * (b as int) < 0x4000_0000_0000_0000_0000_0000_0000_0000) by (nonlinear_arith)
        requires
            0 <= a < 0x8000_0000_0000_0000,
            0 <= b < 0x8000_0000_0000_0000,
    ;
    let wide: i128 = (a as i128) * (b as i128);
    let rem: i128 = wide % (m as i128);
    rem as i64
}

/// Computes `base` to the power `exp` modulo `modulus` by binary
/// exponentiation.
pub fn mod_exp(base: i64, exp: i64, modulus: i64) -> (result: i64)
    requires
        exp >= 0,
        modulus >= 1,
    ensures
        result == pow(base as int, exp as nat) % (modulus as int),
        0 <= result < modulus,
{
    let ghost m: int = modulus as int;
    let mut result: i64 = reduce(1, modulus);
    let mut b: i64 = reduce(base, modulus);
    let mut e: i64 = exp;
    proof {
        lemma_pow_mod_noop(base as int, exp as nat, m);
        lemma_mul_mod_noop_general(1, pow(b as int, exp as nat), m);
    }
    while e > 0
        invariant
            m == modulus,
            modulus >= 1,
            0 <= e,
            0 <= result < modulus,
            0 <= b < modulus,
            (result * pow(b as int, e as nat)) % m == pow(base as int, exp as nat) % m,
        decreases e,
    {
        let ghost r0: int = result as int;
        let ghost b0: int = b as int;
        let ghost e0: nat = e as nat;
        if e % 2 == 1 {
            result = mul_mod(result, b, modulus);
        }
        e = e / 2;
        b = mul_mod(b, b, modulus);
        proof {
            let squares: int = pow(b0 * b0, e as nat);
            lemma_pow_halve(b0, e0);
            lemma_mod_twice(b0 * b0, m);
            lemma_small_mod(b as nat, m as nat);
            lemma_pow_congruent(b as int, b0 * b0, e as nat, m);
            if e0 % 2 == 1 {
                lemma_small_mod(result as nat, m as nat);
                lemma_mul_congruent(result as int, r0 * b0, pow(b as int, e as nat), squares, m);
                lemma_mul_is_associative(r0, b0, squares);
            } else {
                lemma_mul_congruent(result as int, r0, pow(b as int, e as nat), squares, m);
            }
        }
    }
    proof {
        lemma_pow0(b as int);
        lemma_small_mod(result as nat, m as nat);
    }
    result
}

} // verus!
