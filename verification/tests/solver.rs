use quadratic_congruence::power_of_two::contains;
use quadratic_congruence::{
    legendre_symbol, solve_mod_odd_prime, solve_mod_power_of_two, solve_quadratic_congruence,
};

const LARGE_PRIME: i64 = 9223372036854775783;

fn brute_force_roots(b: i64, m: i64) -> Vec<i64> {
    let mut roots: Vec<i64> = Vec::new();
    for x in 0..m {
        if (x * x) % m == b.rem_euclid(m) {
            roots.push(x);
        }
    }
    roots
}

#[test]
fn solve_297_mod_313() {
    let roots = solve_quadratic_congruence(297, 313).unwrap();
    assert_eq!(roots, vec![100, 213]);
    assert_eq!(roots.len(), 2);
    assert_eq!(roots[1], 313 - roots[0]);
    assert_eq!((roots[0] * roots[0]) % 313, 297);
    assert_eq!((roots[1] * roots[1]) % 313, 297);
    assert_eq!(brute_force_roots(297, 313), vec![100, 213]);
}

#[test]
fn solve_4_mod_7() {
    assert_eq!(legendre_symbol(4, 7), 1);
    assert_eq!(solve_quadratic_congruence(4, 7), Some(vec![2, 5]));
}

#[test]
fn solve_3_mod_7_has_no_solution() {
    assert_eq!(legendre_symbol(3, 7), -1);
    assert_eq!(solve_quadratic_congruence(3, 7), None);
}

#[test]
fn solve_9_mod_16_lifts_from_1_and_15() {
    let roots = solve_quadratic_congruence(9, 16).unwrap();
    assert_eq!(roots, vec![1, 15, 3, 5, 7, 9, 11, 13]);
    for (i, x) in roots.iter().enumerate() {
        assert!(0 <= *x && *x < 16);
        assert_eq!(x % 2, 1);
        for y in &roots[..i] {
            assert_ne!(x, y);
        }
    }
    for x in brute_force_roots(9, 16) {
        assert!(roots.contains(&x));
    }
    assert_eq!(brute_force_roots(9, 16), vec![3, 5, 11, 13]);
}

#[test]
fn solve_even_b_mod_16_has_no_solution() {
    assert_eq!(solve_quadratic_congruence(2, 16), None);
    assert_eq!(brute_force_roots(2, 16), Vec::<i64>::new());
    // 4 has the square roots 2, 6, 10 and 14 modulo 16, and is still given none.
    assert_eq!(brute_force_roots(4, 16), vec![2, 6, 10, 14]);
    assert_eq!(solve_quadratic_congruence(4, 16), None);
    assert_eq!(solve_quadratic_congruence(0, 16), None);
}

#[test]
fn solve_mod_2_returns_the_residue_of_b() {
    for b in -9..10i64 {
        assert_eq!(solve_quadratic_congruence(b, 2), Some(vec![b.rem_euclid(2)]));
        assert_eq!(solve_mod_power_of_two(b, 2), Some(vec![b.rem_euclid(2)]));
    }
    assert_eq!(solve_quadratic_congruence(5, 2), Some(vec![1]));
    assert_eq!(solve_quadratic_congruence(-5, 2), Some(vec![1]));
    assert_eq!(solve_quadratic_congruence(4, 2), Some(vec![0]));
    assert_eq!(solve_quadratic_congruence(i64::MIN, 2), Some(vec![0]));
    assert_eq!(solve_quadratic_congruence(i64::MAX, 2), Some(vec![1]));
}

#[test]
fn solve_twice_gives_the_same_answer() {
    for (b, m) in [(297i64, 313i64), (4, 7), (3, 7), (9, 16), (2, 16), (1, 2), (17, 65537)] {
        let first = solve_quadratic_congruence(b, m);
        let second = solve_quadratic_congruence(b, m);
        assert_eq!(first, second);
    }
}

#[test]
fn every_root_modulo_an_odd_prime_squares_to_b() {
    for m in [3i64, 5, 7, 11, 13, 17, 41, 97, 257, 313] {
        for b in -m..2 * m {
            let residue = b.rem_euclid(m);
            match solve_quadratic_congruence(b, m) {
                Some(roots) => {
                    assert_eq!(roots.len(), 2);
                    assert_ne!(roots[0], roots[1]);
                    assert_eq!(roots[1], m - roots[0]);
                    for r in &roots {
                        assert!(0 < *r && *r < m);
                        assert_eq!((r * r) % m, residue);
                    }
                    let mut sorted = roots.clone();
                    sorted.sort();
                    assert_eq!(sorted, brute_force_roots(b, m));
                }
                None => {
                    assert!(residue == 0 || brute_force_roots(b, m).is_empty());
                }
            }
        }
    }
}

#[test]
fn a_multiple_of_the_prime_has_no_solution() {
    assert_eq!(solve_quadratic_congruence(0, 7), None);
    assert_eq!(solve_quadratic_congruence(7, 7), None);
    assert_eq!(solve_quadratic_congruence(14, 7), None);
    assert_eq!(solve_quadratic_congruence(-7, 7), None);
    assert_eq!(solve_quadratic_congruence(0, 3), None);
    assert_eq!(brute_force_roots(0, 7), vec![0]);
}

#[test]
fn a_negative_b_is_reduced_first() {
    assert_eq!(solve_quadratic_congruence(-3, 7), Some(vec![2, 5]));
    assert_eq!(solve_quadratic_congruence(-10, 313), None);
    assert_eq!(solve_quadratic_congruence(297 - 313, 313), Some(vec![100, 213]));
    assert_eq!(solve_quadratic_congruence(-3, 16), Some(vec![1, 15, 3, 5, 7, 9, 11, 13]));
    assert_eq!(solve_quadratic_congruence(-7, 8), Some(vec![1, 7, 3, 5]));
    assert_eq!(solve_quadratic_congruence(-4, 8), None);
}

#[test]
fn roots_come_in_the_order_of_the_iteration() {
    assert_eq!(solve_quadratic_congruence(2, 7), Some(vec![4, 3]));
    assert_eq!(solve_quadratic_congruence(10, 13), Some(vec![7, 6]));
    assert_eq!(solve_quadratic_congruence(1, 3), Some(vec![1, 2]));
    assert_eq!(solve_quadratic_congruence(2, 3), None);
    assert_eq!(solve_quadratic_congruence(5, 41), Some(vec![28, 13]));
    assert_eq!(solve_quadratic_congruence(2, 41), Some(vec![17, 24]));
    assert_eq!(solve_quadratic_congruence(10, 41), Some(vec![16, 25]));
}

#[test]
fn primes_with_a_large_power_of_two_in_p_minus_one() {
    assert_eq!(solve_quadratic_congruence(2, 257), Some(vec![60, 197]));
    assert_eq!(solve_quadratic_congruence(3, 257), None);
    assert_eq!(solve_quadratic_congruence(17, 65537), Some(vec![55135, 10402]));
    assert_eq!(solve_quadratic_congruence(5, 65537), None);
    assert_eq!(solve_quadratic_congruence(4, 12289), Some(vec![12287, 2]));
    assert_eq!(solve_quadratic_congruence(2, 12289), Some(vec![9189, 3100]));
    // 29 * 2^57 + 1
    let p: i64 = 4179340454199820289;
    assert_eq!(solve_quadratic_congruence(4, p), Some(vec![4179340454199820287, 2]));
    assert_eq!(
        solve_quadratic_congruence(5, p),
        Some(vec![706115302554238110, 3473225151645582179])
    );
    assert_eq!(solve_quadratic_congruence(3, p), None);
}

#[test]
fn large_prime_moduli() {
    assert_eq!(
        solve_quadratic_congruence(4, LARGE_PRIME),
        Some(vec![2, 9223372036854775781])
    );
    assert_eq!(
        solve_quadratic_congruence(9, LARGE_PRIME),
        Some(vec![9223372036854775780, 3])
    );
    assert_eq!(
        solve_quadratic_congruence(2, LARGE_PRIME),
        Some(vec![3689348813882916854, 5534023222971858929])
    );
    assert_eq!(solve_quadratic_congruence(3, LARGE_PRIME), None);
    assert_eq!(solve_quadratic_congruence(i64::MAX, LARGE_PRIME), None);
    assert_eq!(solve_quadratic_congruence(i64::MIN, LARGE_PRIME), None);
    // 2^61 - 1
    assert_eq!(
        solve_quadratic_congruence(4, 2305843009213693951),
        Some(vec![2, 2305843009213693949])
    );
}

#[test]
fn solve_mod_odd_prime_agrees_with_the_solver() {
    for m in [3i64, 7, 13, 313] {
        for b in 0..m {
            assert_eq!(solve_mod_odd_prime(b, m), solve_quadratic_congruence(b, m));
            assert_eq!(solve_mod_odd_prime(b, m).is_some(), legendre_symbol(b, m) == 1);
        }
    }
}

#[test]
fn solve_mod_power_of_two_lifted_roots() {
    assert_eq!(solve_mod_power_of_two(1, 4), Some(vec![1, 3]));
    assert_eq!(solve_mod_power_of_two(3, 4), Some(vec![1, 3]));
    assert_eq!(solve_mod_power_of_two(2, 4), None);
    assert_eq!(solve_mod_power_of_two(1, 8), Some(vec![1, 7, 3, 5]));
    assert_eq!(
        solve_mod_power_of_two(7, 32),
        Some(vec![1, 31, 3, 5, 7, 9, 11, 13, 15, 17, 19, 21, 23, 25, 27, 29])
    );
    for k in 2..12u32 {
        let m: i64 = 1 << k;
        let roots = solve_mod_power_of_two(1, m).unwrap();
        assert_eq!(roots.len() as i64, m / 2);
        assert_eq!(roots[0], 1);
        assert_eq!(roots[1], m - 1);
        for j in 2..roots.len() {
            assert_eq!(roots[j], 2 * (j as i64) - 1);
        }
        assert_eq!(solve_quadratic_congruence(1, m), Some(roots));
    }
}

#[test]
fn a_solution_is_never_an_empty_sequence() {
    for m in [2i64, 4, 8, 16, 3, 5, 7, 313] {
        for b in -3..20i64 {
            if let Some(roots) = solve_quadratic_congruence(b, m) {
                assert!(!roots.is_empty());
            }
        }
    }
    assert_ne!(solve_quadratic_congruence(3, 7), Some(Vec::new()));
}

#[test]
fn contains_finds_what_is_there() {
    let v: Vec<i64> = vec![1, 15, 3];
    assert!(contains(&v, 1));
    assert!(contains(&v, 15));
    assert!(contains(&v, 3));
    assert!(!contains(&v, 5));
    assert!(!contains(&Vec::new(), 5));
}
