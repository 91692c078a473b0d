//! The Tonelli-Shanks iteration as a mathematical function, and the proof
//! that it ends in a square root.
use crate::modular::lemma_mul_congruent;
use crate::primes::{
    is_odd_prime, lemma_congruent_squares, lemma_odd_prime_is_odd, lemma_square_root_of_one,
};
use crate::residues::{
    euler_power, is_quadratic_residue, is_square_root, legendre,
    lemma_euler_power_minus_one_exists, lemma_euler_power_values,
    lemma_residue_has_euler_power_one,
};
use vstd::arithmetic::div_mod::{
    lemma_fundamental_div_mod, lemma_mod_bound, lemma_mod_multiples_vanish,
    lemma_mul_mod_noop_general, lemma_small_mod,
};
use vstd::arithmetic::power::{
    lemma_pow1, lemma_pow_adds, lemma_pow_distributes, lemma_pow_mod_noop, lemma_pow_multiplies,
    pow,
};
use vstd::arithmetic::power2::{
    lemma2_to64, lemma_pow2_adds, lemma_pow2_pos, lemma_pow2_unfold, pow2,
};
use vstd::prelude::*;

verus! {

/// The largest odd divisor of a positive number.
pub open spec fn odd_part(n: int) -> int
    decreases n,
{
    if n <= 0 || n % 2 != 0 {
        n
    } else {
        odd_part(n / 2)
    }
}

/// The exponent of the largest power of two that divides a positive number.
pub open spec fn two_adic_valuation(n: int) -> nat
    decreases n,
{
    if n <= 0 || n % 2 != 0 {
        0
    } else {
        1 + two_adic_valuation(n / 2)
    }
}

/// A positive number is its odd part times two to its 2-adic valuation.
pub proof fn lemma_odd_part(n: int)
    requires
        n >= 1,
    ensures
        odd_part(n) >= 1,
        odd_part(n) % 2 == 1,
        n == odd_part(n) * pow2(two_adic_valuation(n)),
    decreases n,
{
    lemma2_to64();
    if n % 2 != 0 {
        assert(n * 1 == n);
    } else {
        let h = n / 2;
        lemma_odd_part(h);
        let v = two_adic_valuation(n);
        lemma_pow2_unfold(v);
        let q = odd_part(h);
        let w = pow2((v - 1) as nat) as int;
        assert(q * (2 * w) == 2 * (q * w)) by (nonlinear_arith);
    }
}

/// The residue of `t` squared `j` times over, modulo `m`.
pub open spec fn iterated_square(t: int, j: nat, m: int) -> int {
    pow(t, pow2(j)) % m
}

/// Squaring once more.
pub proof fn lemma_iterated_square_step(t: int, j: nat, m: int)
    requires
        m > 0,
    ensures
        (iterated_square(t, j, m) * iterated_square(t, j, m)) % m == iterated_square(t, j + 1, m),
{
    lemma_pow2_unfold(j + 1);
    lemma_pow_adds(t, pow2(j), pow2(j));
    lemma_mul_mod_noop_general(pow(t, pow2(j)), pow(t, pow2(j)), m);
}

/// A residue squared no times over is itself.
pub proof fn lemma_iterated_square_zero(t: int, m: int)
    requires
        0 <= t < m,
    ensures
        iterated_square(t, 0, m) == t,
{
    lemma2_to64();
    lemma_pow1(t);
    lemma_small_mod(t as nat, m as nat);
}

/// Squaring `j1` times and then `j2` times is squaring `j1 + j2` times.
pub proof fn lemma_iterated_square_compose(c: int, j1: nat, j2: nat, m: int)
    requires
        m > 0,
    ensures
        iterated_square(iterated_square(c, j1, m), j2, m) == iterated_square(c, j1 + j2, m),
{
    lemma_pow_mod_noop(pow(c, pow2(j1)), pow2(j2), m);
    lemma_pow_multiplies(c, pow2(j1), pow2(j2));
    lemma_pow2_adds(j1, j2);
}

/// Iterated squaring distributes over products of residues.
pub proof fn lemma_iterated_square_product(x: int, y: int, j: nat, m: int)
    requires
        m > 0,
    ensures
        iterated_square((x * y) % m, j, m) == (iterated_square(x, j, m) * iterated_square(
            y,
            j,
            m,
        )) % m,
{
    lemma_pow_mod_noop(x * y, pow2(j), m);
    lemma_pow_distributes(x, y, pow2(j));
    lemma_mul_mod_noop_general(pow(x, pow2(j)), pow(y, pow2(j)), m);
}

/// The least `j` from `from` up to but not including `limit` for which `t`
/// squared `j` times over is 1 modulo `m`; 0 where there is none.
pub open spec fn order_search(t: int, m: int, from: nat, limit: nat) -> nat
    decreases limit - from,
{
    if from >= limit {
        0
    } else if iterated_square(t, from, m) == 1 {
        from
    } else {
        order_search(t, m, from + 1, limit)
    }
}

/// What `order_search` finds.
pub proof fn lemma_order_search(t: int, m: int, from: nat, limit: nat)
    requires
        1 <= from,
    ensures
        ({
            let i = order_search(t, m, from, limit);
            if i == 0 {
                forall|j: nat| from <= j < limit ==> #[trigger] iterated_square(t, j, m) != 1
            } else {
                &&& from <= i < limit
                &&& iterated_square(t, i, m) == 1
                &&& forall|j: nat| from <= j < i ==> #[trigger] iterated_square(t, j, m) != 1
            }
        }),
    decreases limit - from,
{
    if from < limit && iterated_square(t, from, m) != 1 {
        lemma_order_search(t, m, from + 1, limit);
    }
}

/// The Tonelli-Shanks iteration from the state `(r, c, t, n)`: while `t` is
/// not 1, the least `i` with `t` squared `i` times over equal to 1 is found,
/// `r` and `t` are corrected by powers of `c`, and `n` drops to `i`.
pub open spec fn tonelli_loop(r: int, c: int, t: int, n: nat, m: int) -> int
    decreases n,
{
    let i = order_search(t, m, 1, n);
    if t == 1 || i >= n {
        r
    } else {
        let b2i = iterated_square(c, (n - i - 1) as nat, m);
        let c2 = (b2i * b2i) % m;
        tonelli_loop((r * b2i) % m, c2, (t * c2) % m, i, m)
    }
}

/// What holds of the state `(r, c, t, n)` throughout the iteration for the
/// square root of `b` modulo `p`.
pub open spec fn tonelli_state(b: int, p: int, r: int, c: int, t: int, n: nat) -> bool {
    &&& n >= 1
    &&& 0 <= r < p
    &&& 0 <= c < p
    &&& 0 <= t < p
    &&& (r * r) % p == (b * t) % p
    &&& iterated_square(t, (n - 1) as nat, p) == 1
    &&& iterated_square(c, (n - 1) as nat, p) == p - 1
}

/// The square of `p - 1` is congruent to 1 modulo `p`.
proof fn lemma_minus_one_squared(p: int)
    requires
        p > 1,
    ensures
        ((p - 1) * (p - 1)) % p == 1,
{
    assert((p - 1) * (p - 1) == p * (p - 2) + 1) by (nonlinear_arith);
    lemma_mod_multiples_vanish(p - 2, 1, p);
    lemma_small_mod(1, p as nat);
}

/// One round of the iteration: from a state with `t` other than 1 the
/// search finds an exponent below `n`, and the next state is again one of
/// the iteration.
pub proof fn lemma_tonelli_step(b: int, p: int, r: int, c: int, t: int, n: nat)
    requires
        is_odd_prime(p),
        tonelli_state(b, p, r, c, t, n),
        t != 1,
    ensures
        ({
            let i = order_search(t, p, 1, n);
            let b2i = iterated_square(c, (n - i - 1) as nat, p);
            let c2 = (b2i * b2i) % p;
            &&& 1 <= i < n
            &&& tonelli_state(b, p, (r * b2i) % p, c2, (t * c2) % p, i)
        }),
{
    let i = order_search(t, p, 1, n);
    lemma_iterated_square_zero(t, p);
    lemma_order_search(t, p, 1, n);
    assert(n >= 2);
    if i == 0 {
        assert(iterated_square(t, (n - 1) as nat, p) != 1);
    }
    assert(1 <= i < n);
    let b2i = iterated_square(c, (n - i - 1) as nat, p);
    let c2 = (b2i * b2i) % p;
    let r2 = (r * b2i) % p;
    let t2 = (t * c2) % p;
    let j: nat = (i - 1) as nat;
    lemma_mod_bound(r * b2i, p);
    lemma_mod_bound(b2i * b2i, p);
    lemma_mod_bound(t * c2, p);
    lemma_mod_bound(pow(c, pow2((n - i - 1) as nat)), p);
    // `t` squared `i - 1` times over is a square root of 1 other than 1.
    let u = iterated_square(t, j, p);
    lemma_mod_bound(pow(t, pow2(j)), p);
    lemma_iterated_square_step(t, j, p);
    assert(u != 1) by {
        if j >= 1 {
            assert(iterated_square(t, j, p) != 1);
        }
    }
    lemma_square_root_of_one(p, u);
    assert(u == p - 1);
    // The new `c` squared `i - 1` times over is the old one squared `n - 1` times over.
    lemma_iterated_square_step(c, (n - i - 1) as nat, p);
    assert(c2 == iterated_square(c, (n - i) as nat, p));
    lemma_iterated_square_compose(c, (n - i) as nat, j, p);
    assert(iterated_square(c2, j, p) == p - 1);
    // The new `t` squared `i - 1` times over is the square of `p - 1`.
    lemma_iterated_square_product(t, c2, j, p);
    lemma_minus_one_squared(p);
    assert(iterated_square(t2, j, p) == 1);
    // The square of the new `r` is `b` times the new `t`.
    lemma_mul_mod_noop_general(r * b2i, r * b2i, p);
    assert((r * b2i) * (r * b2i) == (r * r) * (b2i * b2i)) by (nonlinear_arith);
    lemma_small_mod(c2 as nat, p as nat);
    lemma_mul_congruent(r * r, b * t, b2i * b2i, c2, p);
    assert((b * t) * c2 == b * (t * c2)) by (nonlinear_arith);
    lemma_mul_mod_noop_general(b, t * c2, p);
    assert((r2 * r2) % p == (b * t2) % p);
}

/// From every state of the iteration, the iteration ends in a square root
/// of `b`.
pub proof fn lemma_tonelli_loop(b: int, p: int, r: int, c: int, t: int, n: nat)
    requires
        is_odd_prime(p),
        tonelli_state(b, p, r, c, t, n),
    ensures
        is_square_root(tonelli_loop(r, c, t, n, p), b, p),
    decreases n,
{
    if t == 1 {
        assert(b * 1 == b);
    } else {
        lemma_tonelli_step(b, p, r, c, t, n);
        let i = order_search(t, p, 1, n);
        let b2i = iterated_square(c, (n - i - 1) as nat, p);
        let c2 = (b2i * b2i) % p;
        lemma_tonelli_loop(b, p, (r * b2i) % p, c2, (t * c2) % p, i);
    }
}

/// The state in which the iteration starts, for the non-residue `z`.
pub open spec fn tonelli_start(b: int, p: int, z: int) -> (int, int, int, nat) {
    let q = odd_part(p - 1);
    (
        pow(b, ((q + 1) / 2) as nat) % p,
        pow(z, q as nat) % p,
        pow(b, q as nat) % p,
        two_adic_valuation(p - 1),
    )
}

/// Where `b` has Euler power 1 and `z` has Euler power `p - 1`, the starting
/// state is a state of the iteration.
pub proof fn lemma_tonelli_start(b: int, p: int, z: int)
    requires
        is_odd_prime(p),
        euler_power(b, p) == 1,
        euler_power(z, p) == p - 1,
    ensures
        ({
            let (r, c, t, n) = tonelli_start(b, p, z);
            tonelli_state(b, p, r, c, t, n)
        }),
{
    let q = odd_part(p - 1);
    let s = two_adic_valuation(p - 1);
    let (r, c, t, n) = tonelli_start(b, p, z);
    lemma_odd_prime_is_odd(p);
    lemma_odd_part(p - 1);
    assert(s >= 1) by {
        if s == 0 {
            lemma2_to64();
            assert(q * 1 == q);
        }
    }
    let j: nat = (s - 1) as nat;
    let k: nat = ((p - 1) / 2) as nat;
    lemma_pow2_unfold(s);
    lemma_pow2_pos(j);
    assert(q * pow2(j) == k) by (nonlinear_arith)
        requires
            p - 1 == q * (2 * pow2(j)),
            k == (p - 1) / 2,
    ;
    let h: nat = ((q + 1) / 2) as nat;
    lemma_mod_bound(pow(b, h), p);
    lemma_mod_bound(pow(z, q as nat), p);
    lemma_mod_bound(pow(b, q as nat), p);
    // `t` and `c` squared `s - 1` times over are the Euler powers of `b` and `z`.
    lemma_pow_mod_noop(pow(b, q as nat), pow2(j), p);
    lemma_pow_multiplies(b, q as nat, pow2(j));
    lemma_pow_mod_noop(pow(z, q as nat), pow2(j), p);
    lemma_pow_multiplies(z, q as nat, pow2(j));
    assert(iterated_square(t, j, p) == 1);
    assert(iterated_square(c, j, p) == p - 1);
    // The square of `r` is `b` to the power `q + 1`.
    lemma_mul_mod_noop_general(pow(b, h), pow(b, h), p);
    lemma_pow_adds(b, h, h);
    assert(h + h == q + 1);
    lemma_pow_adds(b, 1, q as nat);
    lemma_pow1(b);
    lemma_mul_mod_noop_general(b, pow(b, q as nat), p);
    assert((r * r) % p == (b * t) % p);
}

/// Euler's criterion, from the Euler power to a square root: a number with
/// Euler power 1 modulo an odd prime is a quadratic residue.
pub proof fn lemma_euler_power_one_is_residue(b: int, p: int)
    requires
        is_odd_prime(p),
        euler_power(b, p) == 1,
    ensures
        is_quadratic_residue(b, p),
{
    lemma_euler_power_minus_one_exists(p);
    let z = choose|z: int| 2 <= z < p && #[trigger] euler_power(z, p) == p - 1;
    lemma_tonelli_start(b, p, z);
    let (r, c, t, n) = tonelli_start(b, p, z);
    lemma_tonelli_loop(b, p, r, c, t, n);
    assert(is_square_root(tonelli_loop(r, c, t, n, p), b, p));
}

/// Euler's criterion: the Legendre symbol over an odd prime `p` is the Euler
/// power, with `p - 1` read as -1.
pub proof fn lemma_euler_criterion(a: int, p: int)
    requires
        is_odd_prime(p),
    ensures
        legendre(a, p) == if euler_power(a, p) == p - 1 {
            -1
        } else {
            euler_power(a, p)
        },
        -1 <= legendre(a, p) <= 1,
{
    lemma_euler_power_values(a, p);
    if a % p != 0 {
        if euler_power(a, p) == 1 {
            lemma_euler_power_one_is_residue(a, p);
        } else if is_quadratic_residue(a, p) {
            lemma_residue_has_euler_power_one(a, p);
        }
    }
}

/// `z` is the least number from 2 on that is not a quadratic residue modulo `p`.
pub open spec fn is_least_nonresidue(z: int, p: int) -> bool {
    &&& 2 <= z < p
    &&& legendre(z, p) == -1
    &&& forall|y: int| 2 <= y < z ==> #[trigger] legendre(y, p) != -1
}

/// The least number from 2 on that is not a quadratic residue modulo `p`.
pub open spec fn least_nonresidue(p: int) -> int {
    choose|z: int| is_least_nonresidue(z, p)
}

/// There is only one least non-residue.
pub proof fn lemma_least_nonresidue_unique(z: int, p: int)
    requires
        is_least_nonresidue(z, p),
    ensures
        z == least_nonresidue(p),
{
    let w = least_nonresidue(p);
    assert(is_least_nonresidue(w, p));
    if z < w {
        assert(legendre(z, p) != -1);
    } else if w < z {
        assert(legendre(w, p) != -1);
    }
}

/// Every odd prime has a number between 2 and `p - 1` that is not a
/// quadratic residue.
pub proof fn lemma_nonresidue_exists(p: int)
    requires
        is_odd_prime(p),
    ensures
        exists|z: int| 2 <= z < p && #[trigger] legendre(z, p) == -1,
{
    lemma_euler_power_minus_one_exists(p);
    let z = choose|z: int| 2 <= z < p && #[trigger] euler_power(z, p) == p - 1;
    lemma_euler_criterion(z, p);
    assert(legendre(z, p) == -1);
}

/// The square root of `b` modulo the odd prime `p` that the Tonelli-Shanks
/// iteration ends in, when it starts from the least non-residue.
pub open spec fn tonelli_root(b: int, p: int) -> int {
    let (r, c, t, n) = tonelli_start(b, p, least_nonresidue(p));
    tonelli_loop(r, c, t, n, p)
}

/// For a quadratic residue `b` that the odd prime `p` does not divide,
/// `tonelli_root(b, p)` is a square root of `b`, it is not 0, and the only
/// other square root of `b` is its negative `p - tonelli_root(b, p)`.
pub proof fn lemma_tonelli_root(b: int, p: int)
    requires
        is_odd_prime(p),
        legendre(b, p) == 1,
    ensures
        0 < tonelli_root(b, p) < p,
        is_square_root(tonelli_root(b, p), b, p),
        is_square_root(p - tonelli_root(b, p), b, p),
        tonelli_root(b, p) != p - tonelli_root(b, p),
        forall|x: int| #[trigger]
            is_square_root(x, b, p) ==> x == tonelli_root(b, p) || x == p - tonelli_root(b, p),
{
    let root = tonelli_root(b, p);
    lemma_euler_criterion(b, p);
    lemma_nonresidue_exists(p);
    let w = choose|z: int| 2 <= z < p && #[trigger] legendre(z, p) == -1;
    lemma_least_exists(p, w);
    let z = least_nonresidue(p);
    assert(is_least_nonresidue(z, p));
    lemma_euler_criterion(z, p);
    lemma_tonelli_start(b, p, z);
    let (r, c, t, n) = tonelli_start(b, p, z);
    lemma_tonelli_loop(b, p, r, c, t, n);
    lemma_odd_prime_is_odd(p);
    assert(root != 0) by {
        if root == 0 {
            assert(root * root == 0) by (nonlinear_arith)
                requires
                    root == 0,
            ;
            lemma_small_mod(0, p as nat);
        }
    }
    lemma_negative_root(root, b, p);
    assert forall|x: int| #[trigger] is_square_root(x, b, p) implies x == root || x == p - root by {
        lemma_congruent_squares(p, x, root);
        lemma_small_mod(x as nat, p as nat);
        lemma_small_mod(root as nat, p as nat);
        if x != root {
            lemma_fundamental_div_mod(x + root, p);
            let k = (x + root) / p;
            assert(k == 1) by (nonlinear_arith)
                requires
                    x + root == p * k,
                    0 < x + root < 2 * p,
                    p > 0,
            ;
        }
    }
}

/// Below a non-residue there is a least one.
proof fn lemma_least_exists(p: int, w: int)
    requires
        2 <= w < p,
        legendre(w, p) == -1,
    ensures
        exists|z: int| is_least_nonresidue(z, p),
    decreases w,
{
    if forall|y: int| 2 <= y < w ==> #[trigger] legendre(y, p) != -1 {
        assert(is_least_nonresidue(w, p));
    } else {
        let y = choose|y: int| 2 <= y < w && #[trigger] legendre(y, p) == -1;
        lemma_least_exists(p, y);
    }
}

/// The negative of a square root is a square root.
pub proof fn lemma_negative_root(x: int, b: int, p: int)
    requires
        p > 0,
        0 < x < p,
        is_square_root(x, b, p),
    ensures
        is_square_root(p - x, b, p),
{
    assert((p - x) * (p - x) == p * (p - 2 * x) + x * x) by (nonlinear_arith);
    lemma_mod_multiples_vanish(p - 2 * x, x * x, p);
}

} // verus!
