//! Square roots modulo an odd prime by the Tonelli-Shanks algorithm.
use crate::binary::{lemma_pow2_fits, power_of_two};
use crate::legendre::legendre_symbol;
use crate::modular::{mod_exp, mul_mod};
use crate::primes::{is_odd_prime, lemma_odd_prime_is_odd};
use crate::residues::{is_square_root, legendre};
use crate::solver::holds_roots;
use crate::tonelli::{
    iterated_square, lemma_euler_criterion, lemma_iterated_square_step,
    lemma_iterated_square_zero, lemma_least_nonresidue_unique, lemma_nonresidue_exists,
    lemma_odd_part, lemma_tonelli_root, lemma_tonelli_start, lemma_tonelli_step, odd_part,
    order_search, tonelli_loop, tonelli_root, tonelli_state, two_adic_valuation,
};
use vstd::arithmetic::power2::{lemma_pow2_pos, pow2};
use vstd::prelude::*;

verus! {

/// The square roots of `b` modulo the odd prime `p`, in the order in which
/// the Tonelli-Shanks algorithm gives them; `None` where `b` is not a
/// quadratic residue or `p` divides `b`.
pub open spec fn prime_roots(b: int, p: int) -> Option<Seq<int>> {
    if legendre(b, p) == 1 {
        Some(seq![tonelli_root(b, p), p - tonelli_root(b, p)])
    } else {
        None
    }
}

/// Solves `x * x = b (mod m)` for an odd prime `m`.
///
/// Where `b` is a quadratic residue that `m` does not divide, the result
/// holds the two square roots of `b`: the one the Tonelli-Shanks iteration
/// ends in, and its negative. Otherwise there is no solution.
pub fn solve_mod_odd_prime(b: i64, m: i64) -> (result: Option<Vec<i64>>)
    requires
        is_odd_prime(m as int),
    ensures
        holds_roots(result, prime_roots(b as int, m as int)),
        result is Some <==> legendre(b as int, m as int) == 1,
        result matches Some(v) ==> {
            &&& v@.len() == 2
            &&& v@[0] != v@[1]
            &&& is_square_root(v@[0] as int, b as int, m as int)
            &&& is_square_root(v@[1] as int, b as int, m as int)
            &&& forall|x: int| #[trigger]
                is_square_root(x, b as int, m as int) ==> x == v@[0] || x == v@[1]
        },
{
    let ghost p: int = m as int;
    let ghost bi: int = b as int;
    if legendre_symbol(b, m) != 1 {
        return None;
    }
    proof {
        lemma_euler_criterion(bi, p);
        lemma_tonelli_root(bi, p);
        lemma_odd_prime_is_odd(p);
        lemma_odd_part(p - 1);
        lemma_pow2_fits(two_adic_valuation(p - 1));
        lemma_pow2_pos(two_adic_valuation(p - 1));
        assert(pow2(two_adic_valuation(p - 1)) <= p - 1) by (nonlinear_arith)
            requires
                p - 1 == odd_part(p - 1) * pow2(two_adic_valuation(p - 1)),
                odd_part(p - 1) >= 1,
                pow2(two_adic_valuation(p - 1)) > 0,
        ;
    }
    // m - 1 = q * 2^s with q odd.
    let mut q: i64 = m - 1;
    let mut s: u32 = 0;
    while q % 2 == 0
        invariant
            1 <= q <= m - 1,
            odd_part(q as int) == odd_part(p - 1),
            s + two_adic_valuation(q as int) == two_adic_valuation(p - 1),
            two_adic_valuation(p - 1) <= 62,
        decreases q,
    {
        q = q / 2;
        s = s + 1;
    }
    // The least quadratic non-residue.
    let mut z: i64 = 2;
    proof {
        lemma_nonresidue_exists(p);
    }
    let ghost w: int = choose|w: int| 2 <= w < p && #[trigger] legendre(w, p) == -1;
    while legendre_symbol(z, m) != -1
        invariant
            p == m,
            is_odd_prime(p),
            2 <= z <= w < p,
            legendre(w, p) == -1,
            forall|y: int| 2 <= y < z ==> #[trigger] legendre(y, p) != -1,
        decreases p - z,
    {
        z = z + 1;
    }
    proof {
        lemma_least_nonresidue_unique(z as int, p);
        lemma_euler_criterion(z as int, p);
        lemma_tonelli_start(bi, p, z as int);
    }
    let mut c: i64 = mod_exp(z, q, m);
    let mut r: i64 = mod_exp(b, (q + 1) / 2, m);
    let mut t: i64 = mod_exp(b, q, m);
    let mut m_s: u32 = s;
    while t != 1
        invariant
            p == m,
            bi == b,
            is_odd_prime(p),
            m_s <= 62,
            tonelli_state(bi, p, r as int, c as int, t as int, m_s as nat),
            tonelli_loop(r as int, c as int, t as int, m_s as nat, p) == tonelli_root(bi, p),
        decreases m_s,
    {
        proof {
            lemma_tonelli_step(bi, p, r as int, c as int, t as int, m_s as nat);
            lemma_iterated_square_zero(t as int, p);
        }
        // The least i with t^(2^i) = 1.
        let mut t2i: i64 = t;
        let mut i: u32 = 0;
        let mut j: u32 = 1;
        while j < m_s
            invariant_except_break
                i == 0,
                t2i == iterated_square(t as int, (j - 1) as nat, p),
            invariant
                p == m,
                p > 1,
                1 <= j <= m_s,
                0 <= t2i < m,
                order_search(t as int, p, 1, m_s as nat) == order_search(
                    t as int,
                    p,
                    j as nat,
                    m_s as nat,
                ),
            ensures
                i == order_search(t as int, p, 1, m_s as nat),
            decreases m_s - j,
        {
            proof {
                lemma_iterated_square_step(t as int, (j - 1) as nat, p);
            }
            t2i = mul_mod(t2i, t2i, m);
            if t2i == 1 {
                i = j;
                break ;
            }
            j = j + 1;
        }
        let b2i: i64 = mod_exp(c, power_of_two(m_s - i - 1), m);
        r = mul_mod(r, b2i, m);
        c = mul_mod(b2i, b2i, m);
        t = mul_mod(t, c, m);
        m_s = i;
    }
    let mut roots: Vec<i64> = Vec::new();
    roots.push(r);
    roots.push(m - r);
    Some(roots)
}

} // verus!
