//! The solver for `x * x = b (mod m)`.
use crate::binary::is_power_of_two;
use crate::power_of_two::{power_of_two_roots, solve_mod_power_of_two};
use crate::prime_solver::{prime_roots, solve_mod_odd_prime};
use crate::primes::is_prime;
use crate::residues::{is_square_root, legendre};
use crate::tonelli::lemma_tonelli_root;
use vstd::prelude::*;

verus! {

/// `result` is the answer `expected`: it holds the same roots in the same
/// order, or both say that there is no solution.
pub open spec fn holds_roots(result: Option<Vec<i64>>, expected: Option<Seq<int>>) -> bool {
    match result {
        Some(v) => {
            &&& expected is Some
            &&& v@.len() == expected->Some_0.len()
            &&& forall|i: int| 0 <= i < v@.len() ==> #[trigger] v@[i] == expected->Some_0[i]
        },
        None => expected is None,
    }
}

/// The moduli that the solver is made for: the powers of two from 2 on and
/// the odd primes.
pub open spec fn is_supported_modulus(m: int) -> bool {
    m > 1 && if m % 2 == 0 {
        is_power_of_two(m)
    } else {
        is_prime(m)
    }
}

/// The answer of the solver: that of the power-of-two solver for an even
/// modulus, that of the prime solver for an odd one.
pub open spec fn congruence_roots(b: int, m: int) -> Option<Seq<int>> {
    if m % 2 == 0 {
        power_of_two_roots(b, m)
    } else {
        prime_roots(b, m)
    }
}

/// Solves `x * x = b (mod m)` for a modulus `m` that is a power of two or
/// an odd prime.
///
/// An even modulus goes to [`solve_mod_power_of_two`], an odd one to
/// [`solve_mod_odd_prime`]. `None` says that no solution was found; it is
/// not an empty sequence of roots.
pub fn solve_quadratic_congruence(b: i64, m: i64) -> (result: Option<Vec<i64>>)
    requires
        is_supported_modulus(m as int),
    ensures
        holds_roots(result, congruence_roots(b as int, m as int)),
        m == 2 ==> holds_roots(result, Some(seq![(b as int) % 2])),
        result matches Some(v) ==> v@.len() >= 1 && forall|i: int|
            0 <= i < v@.len() ==> 0 <= #[trigger] v@[i] < m,
        m % 2 == 1 ==> (result is Some <==> legendre(b as int, m as int) == 1),
        m % 2 == 1 ==> (result matches Some(v) ==> {
            &&& v@.len() == 2
            &&& v@[0] != v@[1]
            &&& forall|i: int|
                0 <= i < v@.len() ==> (#[trigger] v@[i] * v@[i]) % (m as int) == (b as int) % (
                m as int)
            &&& forall|x: int| #[trigger]
                is_square_root(x, b as int, m as int) ==> x == v@[0] || x == v@[1]
        }),
{
    if m % 2 == 0 {
        return solve_mod_power_of_two(b, m);
    }
    solve_mod_odd_prime(b, m)
}

/// The solver's answer is a function of its input: two results for the same
/// `b` and `m` agree, root by root and in the same order.
pub proof fn lemma_solve_is_deterministic(
    b: i64,
    m: i64,
    first: Option<Vec<i64>>,
    second: Option<Vec<i64>>,
)
    requires
        holds_roots(first, congruence_roots(b as int, m as int)),
        holds_roots(second, congruence_roots(b as int, m as int)),
    ensures
        first is None <==> second is None,
        first matches Some(u) ==> second matches Some(v) && u@ == v@,
{
    if let Some(u) = first {
        let v = second->Some_0;
        assert(u@ =~= v@);
    }
}

/// Every root that the solver returns for an odd prime modulus is a square
/// root of `b`, and every square root of `b` is returned.
pub proof fn lemma_prime_roots_are_the_square_roots(b: int, p: int)
    requires
        is_prime(p),
        p % 2 == 1,
    ensures
        prime_roots(b, p) matches Some(roots) ==> {
            &&& forall|i: int| 0 <= i < roots.len() ==> is_square_root(#[trigger] roots[i], b, p)
            &&& forall|x: int| #[trigger] is_square_root(x, b, p) ==> roots.contains(x)
        },
{
    if let Some(roots) = prime_roots(b, p) {
        lemma_tonelli_root(b, p);
        assert forall|x: int| #[trigger] is_square_root(x, b, p) implies roots.contains(x) by {
            if x == roots[0] {
            } else {
                assert(x == roots[1]);
            }
        }
    }
}

} // verus!
