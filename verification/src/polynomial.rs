//! Polynomials with integer coefficients and the number of their roots
//! modulo a prime.
use crate::primes::{is_prime, lemma_euclid};
use vstd::arithmetic::div_mod::{lemma_mod_equivalence, lemma_small_mod};
use vstd::arithmetic::power::{lemma_pow0, lemma_pow1, lemma_pow_adds, pow};
use vstd::prelude::*;

verus! {

/// The value at `x` of the polynomial whose coefficients are `c`, the
/// constant term first.
pub open spec fn eval(c: Seq<int>, x: int) -> int
    decreases c.len(),
{
    if c.len() == 0 {
        0
    } else {
        c[0] + x * eval(c.drop_first(), x)
    }
}

/// The coefficients of the quotient of the polynomial `c` by `x - a`.
pub open spec fn quotient(c: Seq<int>, a: int) -> Seq<int>
    decreases c.len(),
{
    if c.len() <= 1 {
        Seq::empty()
    } else {
        seq![eval(c.drop_first(), a)] + quotient(c.drop_first(), a)
    }
}

/// Division of a polynomial by `x - a` leaves its value at `a` as remainder.
pub proof fn lemma_division(c: Seq<int>, a: int, x: int)
    ensures
        eval(c, x) == (x - a) * eval(quotient(c, a), x) + eval(c, a),
    decreases c.len(),
{
    if c.len() == 0 {
        assert((x - a) * 0 == 0);
    } else if c.len() == 1 {
        assert((x - a) * 0 == 0);
        assert(eval(c.drop_first(), x) == 0);
        assert(eval(c.drop_first(), a) == 0);
        assert(x * 0 == 0 && a * 0 == 0);
    } else {
        let rest = c.drop_first();
        let q = quotient(c, a);
        lemma_division(rest, a, x);
        assert(q.drop_first() =~= quotient(rest, a));
        assert(q[0] == eval(rest, a));
        let eq = eval(quotient(rest, a), x);
        let r = eval(rest, a);
        let c0 = c[0];
        assert(eval(q, x) == r + x * eq);
        assert(c0 + x * ((x - a) * eq + r) == (x - a) * (r + x * eq) + (c0 + a * r))
            by (nonlinear_arith);
    }
}

/// The quotient by `x - a` is one coefficient shorter and has the same
/// leading coefficient.
pub proof fn lemma_quotient_shape(c: Seq<int>, a: int)
    requires
        c.len() >= 2,
    ensures
        quotient(c, a).len() == c.len() - 1,
        quotient(c, a).last() == c.last(),
    decreases c.len(),
{
    let rest = c.drop_first();
    if c.len() == 2 {
        assert(quotient(rest, a) =~= Seq::<int>::empty());
        assert(eval(rest.drop_first(), a) == 0);
        assert(a * 0 == 0);
        assert(eval(rest, a) == rest[0]);
    } else {
        lemma_quotient_shape(rest, a);
    }
}

/// Lagrange's bound: a polynomial whose leading coefficient a prime `p`
/// does not divide has fewer roots modulo `p` than coefficients.
pub proof fn lemma_root_bound(c: Seq<int>, p: int, roots: Set<int>)
    requires
        is_prime(p),
        c.len() >= 1,
        c.last() % p != 0,
        roots.finite(),
        forall|x: int| #[trigger] roots.contains(x) ==> 0 <= x < p && eval(c, x) % p == 0,
    ensures
        roots.len() <= c.len() - 1,
    decreases c.len(),
{
    if roots.len() != 0 {
        let a = roots.choose();
        assert(roots.contains(a));
        assert(eval(c, a) % p == 0);
        if c.len() == 1 {
            assert(eval(c.drop_first(), a) == 0);
            assert(a * 0 == 0);
            assert(eval(c, a) == c[0]);
            assert(false);
        } else {
            let g = quotient(c, a);
            let others = roots.remove(a);
            lemma_quotient_shape(c, a);
            assert forall|x: int| #[trigger] others.contains(x) implies 0 <= x < p && eval(g, x) % p
                == 0 by {
                assert(roots.contains(x));
                assert(eval(c, x) % p == 0);
                lemma_division(c, a, x);
                lemma_mod_equivalence(eval(c, x), eval(c, a), p);
                lemma_euclid(p, x - a, eval(g, x));
                lemma_mod_equivalence(x, a, p);
                lemma_small_mod(x as nat, p as nat);
                lemma_small_mod(a as nat, p as nat);
            }
            lemma_root_bound(g, p, others);
        }
    }
}

/// The coefficients of the polynomial `x^k`.
pub open spec fn monomial(k: nat) -> Seq<int> {
    Seq::new(k + 1, |i: int| if i == k { 1int } else { 0int })
}

/// The coefficients of the polynomial `x^k - 1`, for `k` at least 1.
pub open spec fn power_minus_one(k: nat) -> Seq<int> {
    seq![-1int] + monomial((k - 1) as nat)
}

/// The monomial `x^k` takes the value `pow(x, k)`.
pub proof fn lemma_eval_monomial(k: nat, x: int)
    ensures
        eval(monomial(k), x) == pow(x, k),
    decreases k,
{
    let c = monomial(k);
    if k == 0 {
        assert(eval(c.drop_first(), x) == 0);
        assert(x * 0 == 0);
        lemma_pow0(x);
    } else {
        assert(c.drop_first() =~= monomial((k - 1) as nat));
        lemma_eval_monomial((k - 1) as nat, x);
        lemma_pow_adds(x, 1, (k - 1) as nat);
        lemma_pow1(x);
    }
}

/// The polynomial `x^k - 1` takes the value `pow(x, k) - 1`.
pub proof fn lemma_eval_power_minus_one(k: nat, x: int)
    requires
        k >= 1,
    ensures
        eval(power_minus_one(k), x) == pow(x, k) - 1,
        power_minus_one(k).len() == k + 1,
        power_minus_one(k).last() == 1,
{
    let c = power_minus_one(k);
    assert(c.drop_first() =~= monomial((k - 1) as nat));
    lemma_eval_monomial((k - 1) as nat, x);
    lemma_pow_adds(x, 1, (k - 1) as nat);
    lemma_pow1(x);
}

} // verus!
