//! Primes and the arithmetic of residues modulo a prime.
use crate::modular::lemma_mul_congruent;
use vstd::arithmetic::div_mod::{
    lemma_fundamental_div_mod, lemma_mod_bound, lemma_mod_equivalence, lemma_mod_multiples_basic,
    lemma_mul_mod_noop_general, lemma_small_mod, lemma_sub_mod_noop,
};
use vstd::arithmetic::power::{lemma_pow0, lemma_pow1, lemma_pow_adds, pow};
use vstd::prelude::*;
use vstd::relations::injective_on;
use vstd::set::fold::{is_fun_commutative, lemma_fold_empty, lemma_fold_insert};
use vstd::set_lib::{lemma_int_range, lemma_map_size, lemma_subset_equality, set_int_range};

verus! {

/// `p` is at least 2 and no number strictly between 1 and `p` divides it.
pub open spec fn is_prime(p: int) -> bool {
    p >= 2 && forall|d: int| 1 < d < p ==> #[trigger] (p % d) != 0
}

/// `p` is a prime other than 2.
pub open spec fn is_odd_prime(p: int) -> bool {
    is_prime(p) && p > 2
}

/// A prime other than 2 is odd.
pub proof fn lemma_odd_prime_is_odd(p: int)
    requires
        is_odd_prime(p),
    ensures
        p % 2 == 1,
{
}

/// A multiple of a multiple of `p` is a multiple of `p`.
pub proof fn lemma_multiple_of_multiple(p: int, x: int, k: int)
    requires
        p > 0,
        x % p == 0,
    ensures
        (k * x) % p == 0,
{
    lemma_mul_mod_noop_general(k, x, p);
    assert(k * 0 == 0);
    lemma_small_mod(0, p as nat);
}

/// Two positive numbers below a prime have a product that the prime does
/// not divide.
proof fn lemma_small_product_nonzero(p: int, a: int, b: int)
    requires
        is_prime(p),
        0 < a < p,
        0 < b < p,
    ensures
        (a * b) % p != 0,
    decreases a,
{
    if a == 1 {
        assert(a * b == b);
        lemma_small_mod(b as nat, p as nat);
    } else {
        let q = p / a;
        let r = p % a;
        assert(r != 0);
        lemma_fundamental_div_mod(p, a);
        lemma_mod_bound(p, a);
        lemma_small_product_nonzero(p, r, b);
        if (a * b) % p == 0 {
            assert(r * b == b * p - q * (a * b)) by (nonlinear_arith)
                requires
                    p == a * q + r,
            ;
            lemma_multiple_of_multiple(p, a * b, q);
            lemma_mod_multiples_basic(b, p);
            lemma_sub_mod_noop(b * p, q * (a * b), p);
            lemma_small_mod(0, p as nat);
            assert(false);
        }
    }
}

/// Euclid's lemma: a prime that divides a product divides one of the factors.
pub proof fn lemma_euclid(p: int, a: int, b: int)
    requires
        is_prime(p),
        (a * b) % p == 0,
    ensures
        a % p == 0 || b % p == 0,
{
    if a % p != 0 && b % p != 0 {
        lemma_mod_bound(a, p);
        lemma_mod_bound(b, p);
        lemma_mul_mod_noop_general(a, b, p);
        lemma_small_product_nonzero(p, a % p, b % p);
    }
}

/// Modulo a prime, two numbers with congruent squares are congruent up to sign.
pub proof fn lemma_congruent_squares(p: int, x: int, r: int)
    requires
        is_prime(p),
        (x * x) % p == (r * r) % p,
    ensures
        x % p == r % p || (x + r) % p == 0,
{
    assert((x - r) * (x + r) == x * x - r * r) by (nonlinear_arith);
    lemma_mod_equivalence(x * x, r * r, p);
    lemma_euclid(p, x - r, x + r);
    lemma_mod_equivalence(x, r, p);
}

/// Modulo a prime, the only residues whose square is 1 are 1 and `p - 1`.
pub proof fn lemma_square_root_of_one(p: int, x: int)
    requires
        is_prime(p),
        0 <= x < p,
        (x * x) % p == 1,
    ensures
        x == 1 || x == p - 1,
{
    assert(1int * 1int == 1);
    lemma_small_mod(1, p as nat);
    lemma_congruent_squares(p, x, 1);
    lemma_small_mod(x as nat, p as nat);
    if (x + 1) % p == 0 {
        lemma_fundamental_div_mod(x + 1, p);
        let k = (x + 1) / p;
        assert(k == 1) by (nonlinear_arith)
            requires
                x + 1 == p * k,
                0 < x + 1 <= p,
        ;
    }
}

/// Multiplication as a folding function.
pub open spec fn times() -> spec_fn(int, int) -> int {
    |acc: int, x: int| acc * x
}

/// Multiplication by the residue of `a * x` as a folding function.
pub open spec fn times_scaled(a: int, p: int) -> spec_fn(int, int) -> int {
    |acc: int, x: int| acc * ((a * x) % p)
}

/// The map from `x` to the residue of `a * x` modulo `p`.
pub open spec fn scale(a: int, p: int) -> spec_fn(int) -> int {
    |x: int| (a * x) % p
}

/// The product of the members of a finite set.
pub open spec fn product(s: Set<int>) -> int {
    s.fold(1, times())
}

/// The product of the residues of `a * x` over the members `x` of a finite set.
pub open spec fn scaled_product(s: Set<int>, a: int, p: int) -> int {
    s.fold(1, times_scaled(a, p))
}

proof fn lemma_times_commutative()
    ensures
        is_fun_commutative(times()),
{
    assert forall|a1: int, a2: int, b: int| #[trigger]
        times()(times()(b, a2), a1) == times()(times()(b, a1), a2) by {
        assert((b * a2) * a1 == (b * a1) * a2) by (nonlinear_arith);
    }
}

proof fn lemma_times_scaled_commutative(a: int, p: int)
    ensures
        is_fun_commutative(times_scaled(a, p)),
{
    let f = times_scaled(a, p);
    assert forall|a1: int, a2: int, b: int| #[trigger] f(f(b, a2), a1) == f(f(b, a1), a2) by {
        let u = (a * a1) % p;
        let v = (a * a2) % p;
        assert((b * v) * u == (b * u) * v) by (nonlinear_arith);
    }
}

/// Any member of a finite set can be taken out of its product.
proof fn lemma_product_remove(s: Set<int>, x: int)
    requires
        s.finite(),
        s.contains(x),
    ensures
        product(s) == product(s.remove(x)) * x,
{
    lemma_times_commutative();
    lemma_fold_insert(s.remove(x), 1, times(), x);
    assert(s.remove(x).insert(x) =~= s);
}

/// Any member of a finite set can be taken out of its scaled product.
proof fn lemma_scaled_product_remove(s: Set<int>, a: int, p: int, x: int)
    requires
        s.finite(),
        s.contains(x),
    ensures
        scaled_product(s, a, p) == scaled_product(s.remove(x), a, p) * ((a * x) % p),
{
    lemma_times_scaled_commutative(a, p);
    lemma_fold_insert(s.remove(x), 1, times_scaled(a, p), x);
    assert(s.remove(x).insert(x) =~= s);
}

/// Where scaling is injective on a set, the scaled product of the set is
/// the product of its image.
proof fn lemma_scaled_product_is_image_product(s: Set<int>, a: int, p: int)
    requires
        s.finite(),
        injective_on(scale(a, p), s),
    ensures
        s.map(scale(a, p)).finite(),
        scaled_product(s, a, p) == product(s.map(scale(a, p))),
    decreases s.len(),
{
    let f = scale(a, p);
    s.lemma_map_finite(f);
    if s.len() == 0 {
        assert(s =~= Set::<int>::empty());
        assert(s.map(f) =~= Set::<int>::empty());
        lemma_fold_empty::<int, int>(1, times());
        lemma_fold_empty::<int, int>(1, times_scaled(a, p));
    } else {
        let x = s.choose();
        let t = s.remove(x);
        lemma_scaled_product_is_image_product(t, a, p);
        lemma_scaled_product_remove(s, a, p, x);
        t.lemma_set_map_insert_commute(x, f);
        assert(t.insert(x) =~= s);
        assert(s.map(f) =~= t.map(f).insert(f(x)));
        assert(!t.map(f).contains(f(x))) by {
            if t.map(f).contains(f(x)) {
                let y = choose|y: int| t.contains(y) && f(x) == f(y);
                assert(s.contains(y) && s.contains(x));
                assert(y == x);
            }
        }
        assert(t.map(f).insert(f(x)).remove(f(x)) =~= t.map(f));
        lemma_product_remove(s.map(f), f(x));
    }
}

/// The scaled product of a set is congruent to the product of the set times
/// a power of the scaling factor.
proof fn lemma_scaled_product_is_power_times_product(s: Set<int>, a: int, p: int)
    requires
        s.finite(),
        p > 0,
    ensures
        scaled_product(s, a, p) % p == (pow(a, s.len()) * product(s)) % p,
    decreases s.len(),
{
    if s.len() == 0 {
        assert(s =~= Set::<int>::empty());
        lemma_fold_empty::<int, int>(1, times());
        lemma_fold_empty::<int, int>(1, times_scaled(a, p));
        lemma_pow0(a);
    } else {
        let x = s.choose();
        let t = s.remove(x);
        lemma_scaled_product_is_power_times_product(t, a, p);
        lemma_scaled_product_remove(s, a, p, x);
        lemma_product_remove(s, x);
        let n = t.len();
        lemma_pow_adds(a, n, 1);
        lemma_pow1(a);
        assert(s.len() == n + 1);
        lemma_mod_bound(a * x, p);
        lemma_small_mod(((a * x) % p) as nat, p as nat);
        lemma_mul_congruent(
            scaled_product(t, a, p),
            pow(a, n) * product(t),
            (a * x) % p,
            a * x,
            p,
        );
        assert((pow(a, n) * product(t)) * (a * x) == (pow(a, n) * a) * (product(t) * x))
            by (nonlinear_arith);
    }
}

/// A prime does not divide the product of a set of positive numbers below it.
proof fn lemma_product_nonzero(s: Set<int>, p: int)
    requires
        is_prime(p),
        s.finite(),
        s.subset_of(set_int_range(1, p)),
    ensures
        product(s) % p != 0,
    decreases s.len(),
{
    if s.len() == 0 {
        assert(s =~= Set::<int>::empty());
        lemma_fold_empty::<int, int>(1, times());
        lemma_small_mod(1, p as nat);
    } else {
        let x = s.choose();
        let t = s.remove(x);
        lemma_product_nonzero(t, p);
        lemma_product_remove(s, x);
        assert(set_int_range(1, p).contains(x));
        lemma_small_mod(x as nat, p as nat);
        if product(s) % p == 0 {
            lemma_euclid(p, product(t), x);
        }
    }
}

/// Modulo a prime, multiplication by a unit cancels.
pub proof fn lemma_cancel(p: int, a: int, x: int, y: int)
    requires
        is_prime(p),
        a % p != 0,
        (a * x) % p == (a * y) % p,
    ensures
        x % p == y % p,
{
    lemma_mod_equivalence(a * x, a * y, p);
    assert(a * x - a * y == a * (x - y)) by (nonlinear_arith);
    lemma_euclid(p, a, x - y);
    lemma_mod_equivalence(x, y, p);
}

/// Fermat's little theorem: a number that a prime `p` does not divide, raised
/// to the power `p - 1`, is congruent to 1 modulo `p`.
pub proof fn lemma_fermat(a: int, p: int)
    requires
        is_prime(p),
        a % p != 0,
    ensures
        pow(a, (p - 1) as nat) % p == 1,
{
    let s = set_int_range(1, p);
    let f = scale(a, p);
    let image = s.map(f);
    lemma_int_range(1, p);
    assert forall|x: int| s.contains(x) implies s.contains(#[trigger] f(x)) by {
        lemma_mod_bound(a * x, p);
        lemma_small_mod(x as nat, p as nat);
        if (a * x) % p == 0 {
            lemma_euclid(p, a, x);
        }
    }
    assert forall|x: int, y: int|
        s.contains(x) && s.contains(y) && #[trigger] f(x) == #[trigger] f(y) implies x == y by {
        lemma_cancel(p, a, x, y);
        lemma_small_mod(x as nat, p as nat);
        lemma_small_mod(y as nat, p as nat);
    }
    assert(injective_on(f, s));
    lemma_map_size(s, image, f);
    assert(image.subset_of(s)) by {
        assert forall|y: int| image.contains(y) implies s.contains(y) by {
            let x = choose|x: int| s.contains(x) && y == f(x);
            assert(s.contains(f(x)));
        }
    }
    lemma_subset_equality(image, s);
    assert(image == s);
    lemma_scaled_product_is_image_product(s, a, p);
    lemma_scaled_product_is_power_times_product(s, a, p);
    lemma_product_nonzero(s, p);
    let w = product(s);
    let e = pow(a, (p - 1) as nat);
    assert((e * w) % p == w % p);
    lemma_mod_equivalence(e * w, w, p);
    assert(e * w - w == w * (e - 1)) by (nonlinear_arith);
    lemma_euclid(p, w, e - 1);
    lemma_mod_equivalence(e, 1, p);
    lemma_small_mod(1, p as nat);
}

} // verus!
