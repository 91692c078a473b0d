//! Square roots modulo a power of two, by lifting.
use crate::binary::{
    floor_log2, is_power_of_two, lemma_pow2_fits, lemma_pow2_monotone,
    lemma_power_of_two_between, power_of_two,
};
use crate::modular::reduce;
use crate::residues::is_square_root;
use crate::solver::holds_roots;
use vstd::arithmetic::div_mod::{
    lemma_fundamental_div_mod, lemma_mod_add_multiples_vanish, lemma_small_mod,
};
use vstd::arithmetic::power2::{
    lemma2_to64, lemma_pow2_pos, lemma_pow2_strictly_increases, lemma_pow2_unfold, pow2,
};
use vstd::prelude::*;

verus! {

/// The root that lifting leaves at position `j`: first 1 and `m - 1`, then
/// the odd numbers from 3 upwards.
pub open spec fn lifted_root_at(j: int, m: int) -> int {
    if j == 0 {
        1
    } else if j == 1 {
        m - 1
    } else {
        2 * j - 1
    }
}

/// What lifting from the roots 1 and `m - 1` ends in for the modulus `m`, a
/// power of two from 4 on: the `m / 2` odd residues, in the order 1, `m - 1`,
/// 3, 5, ..., `m - 3`.
pub open spec fn lifted_roots(m: int) -> Seq<int> {
    Seq::new((m / 2) as nat, |j: int| lifted_root_at(j, m))
}

/// The answer for a modulus `m` that is a power of two: the residue of `b`
/// for the modulus 2; for a larger modulus the lifted roots where `b` is
/// odd, and no solution where `b` is even.
pub open spec fn power_of_two_roots(b: int, m: int) -> Option<Seq<int>> {
    if m == 2 {
        Some(seq![b % 2])
    } else if b % 2 == 1 {
        Some(lifted_roots(m))
    } else {
        None
    }
}

/// The position of the odd residue `v` among the lifted roots.
pub open spec fn position(v: int, m: int) -> int {
    if v == 1 {
        0
    } else if v == m - 1 {
        1
    } else {
        (v + 1) / 2
    }
}

/// Every odd residue stands among the lifted roots, at its position and
/// nowhere else.
pub proof fn lemma_position(v: int, m: int)
    requires
        m >= 4,
        m % 2 == 0,
        1 <= v < m,
        v % 2 == 1,
    ensures
        0 <= position(v, m) < m / 2,
        lifted_root_at(position(v, m), m) == v,
        forall|j: int| 0 <= j < m / 2 && #[trigger] lifted_root_at(j, m) == v ==> j == position(v, m),
{
}

/// The lifted roots for the modulus `m` are the odd residues modulo `m`,
/// each of them once.
pub proof fn lemma_lifted_roots_are_the_odd_residues(m: int)
    requires
        m >= 4,
        m % 2 == 0,
    ensures
        lifted_roots(m).len() == m / 2,
        forall|j: int|
            0 <= j < m / 2 ==> 1 <= #[trigger] lifted_roots(m)[j] < m && lifted_roots(m)[j] % 2
                == 1,
        forall|i: int, j: int|
            0 <= i < j < m / 2 ==> #[trigger] lifted_roots(m)[i] != #[trigger] lifted_roots(m)[j],
        forall|v: int| 1 <= v < m && v % 2 == 1 ==> #[trigger] lifted_roots(m).contains(v),
{
    assert forall|v: int| 1 <= v < m && v % 2 == 1 implies #[trigger] lifted_roots(m).contains(
        v,
    ) by {
        lemma_position(v, m);
        assert(lifted_roots(m)[position(v, m)] == v);
    }
}

/// For an odd `b`, every square root of `b` modulo `m` is among the lifted
/// roots.
pub proof fn lemma_lifted_roots_hold_the_square_roots(b: int, m: int)
    requires
        m >= 4,
        m % 2 == 0,
        b % 2 == 1,
    ensures
        forall|x: int| #[trigger] is_square_root(x, b, m) ==> lifted_roots(m).contains(x),
{
    assert forall|x: int| #[trigger] is_square_root(x, b, m) implies lifted_roots(m).contains(
        x,
    ) by {
        let half = m / 2;
        let y = x / 2;
        lemma_fundamental_div_mod(x * x, m);
        lemma_fundamental_div_mod(b, m);
        let q1 = (x * x) / m;
        let q2 = b / m;
        assert(m * q1 == 2 * (half * q1) && m * q2 == 2 * (half * q2)) by (nonlinear_arith)
            requires
                m == 2 * half,
        ;
        if x % 2 == 0 {
            assert(x * x == 2 * (y * x)) by (nonlinear_arith)
                requires
                    x == 2 * y,
            ;
            assert(false);
        }
        lemma_lifted_roots_are_the_odd_residues(m);
    }
}

/// The number of roots when `idx` of the `n` roots of a round of lifting
/// have been shifted, where `half` is the number of odd residues.
pub open spec fn lifted_len(n: int, idx: int, half: int) -> int {
    let grown = if idx <= 1 {
        n + idx
    } else {
        n + idx - 1
    };
    if grown <= half {
        grown
    } else {
        half
    }
}

/// Whether `x` occurs in `v`.
pub fn contains(v: &Vec<i64>, x: i64) -> (found: bool)
    ensures
        found == v@.contains(x),
{
    let mut i: usize = 0;
    while i < v.len()
        invariant
            i <= v.len(),
            forall|j: int| 0 <= j < i ==> v@[j] != x,
        decreases v.len() - i,
    {
        if v[i] == x {
            return true;
        }
        i = i + 1;
    }
    false
}

/// Solves `x * x = b (mod m)` for a modulus `m` that is a power of two.
///
/// For the modulus 2 the one root is the residue of `b`. For a larger
/// modulus and an odd `b`, the roots 1 and `m - 1` are lifted: for each
/// step `2^i` with `i` from 1 up to but not including the exponent of `m`,
/// every root found so far is shifted by the step, and the shifted value is
/// added where it is new. An even `b` is given no solution.
pub fn solve_mod_power_of_two(b: i64, m: i64) -> (result: Option<Vec<i64>>)
    requires
        m >= 2,
        is_power_of_two(m as int),
    ensures
        holds_roots(result, power_of_two_roots(b as int, m as int)),
        result is Some <==> m == 2 || (b as int) % 2 == 1,
        result matches Some(v) ==> {
            &&& v@.len() == if m == 2 {
                1int
            } else {
                m as int / 2
            }
            &&& forall|j: int| 0 <= j < v@.len() ==> 0 <= #[trigger] v@[j] < m
            &&& forall|i: int, j: int|
                0 <= i < j < v@.len() ==> #[trigger] v@[i] != #[trigger] v@[j]
        },
{
    if m == 2 {
        let mut roots: Vec<i64> = Vec::new();
        roots.push(reduce(b, 2));
        return Some(roots);
    }
    let k: u32 = floor_log2(m);
    proof {
        lemma_power_of_two_between(m as int, k as nat);
        lemma2_to64();
        if k >= 1 {
            lemma_pow2_unfold(k as nat);
        }
    }
    if reduce(b, 2) == 1 {
        let ghost half: int = m as int / 2;
        let mut solutions: Vec<i64> = Vec::new();
        solutions.push(1);
        solutions.push(m - 1);
        let mut i: u32 = 1;
        while i < k
            invariant
                1 <= i <= k <= 62,
                m == pow2(k as nat),
                m == 2 * half,
                half >= 2,
                half == pow2((k - 1) as nat),
                solutions@.len() == lifted_len(pow2((i - 1) as nat) as int, 1, half),
                forall|j: int|
                    0 <= j < solutions@.len() ==> #[trigger] solutions@[j] == lifted_root_at(
                        j,
                        m as int,
                    ),
            decreases k - i,
        {
            let step: i64 = power_of_two(i);
            let n: usize = solutions.len();
            let ghost count: int = n as int;
            proof {
                lemma_pow2_unfold(i as nat);
                lemma_pow2_pos((i - 1) as nat);
                lemma_pow2_monotone(i as nat, (k - 1) as nat);
                lemma_pow2_strictly_increases((i - 1) as nat, (k - 1) as nat);
                lemma_pow2_fits(k as nat);
            }
            let mut idx: usize = 0;
            while idx < n
                invariant
                    m == 2 * half,
                    m <= 0x4000_0000_0000_0000,
                    half >= 2,
                    n == count,
                    2 <= count <= half,
                    step == 2 * (count - 1),
                    step <= half,
                    idx <= n,
                    solutions@.len() == lifted_len(count, idx as int, half),
                    forall|j: int|
                        0 <= j < solutions@.len() ==> #[trigger] solutions@[j] == lifted_root_at(
                            j,
                            m as int,
                        ),
                decreases n - idx,
            {
                let x: i64 = solutions[idx];
                let sol: i64 = (x + step) % m;
                proof {
                    if x + step < m {
                        lemma_small_mod((x + step) as nat, m as nat);
                    } else {
                        lemma_mod_add_multiples_vanish(x + step - m, m as int);
                        lemma_small_mod((x + step - m) as nat, m as nat);
                    }
                    lemma_position(sol as int, m as int);
                    let pos = position(sol as int, m as int);
                    if pos < solutions@.len() {
                        assert(solutions@[pos] == sol);
                    }
                }
                if !contains(&solutions, sol) {
                    solutions.push(sol);
                }
                idx = idx + 1;
            }
            i = i + 1;
        }
        return Some(solutions);
    }
    None
}

} // verus!
