use quadratic_congruence::{
    check_modulus, check_power_of_two, check_prime, solve_checked, solve_quadratic_congruence,
    UnsupportedModulus,
};

#[test]
fn check_prime_small_numbers() {
    let primes: [i64; 15] = [2, 3, 5, 7, 11, 13, 17, 19, 23, 29, 31, 37, 41, 43, 47];
    for n in -5..50i64 {
        assert_eq!(check_prime(n), primes.contains(&n));
    }
}

#[test]
fn check_prime_larger_numbers() {
    assert!(check_prime(313));
    assert!(check_prime(65537));
    assert!(check_prime(2147483647));
    assert!(!check_prime(2147483649));
    assert!(!check_prime(65537 * 65537));
    assert!(!check_prime(313 * 313));
    assert!(!check_prime(i64::MIN));
}

#[test]
fn check_power_of_two_values() {
    assert!(!check_power_of_two(-4));
    assert!(!check_power_of_two(0));
    assert!(check_power_of_two(1));
    assert!(check_power_of_two(2));
    assert!(!check_power_of_two(3));
    assert!(check_power_of_two(4));
    assert!(!check_power_of_two(6));
    assert!(!check_power_of_two(12));
    assert!(check_power_of_two(1 << 62));
    assert!(!check_power_of_two((1 << 62) + 1));
    assert!(!check_power_of_two(i64::MAX));
}

#[test]
fn check_modulus_accepts_powers_of_two_and_odd_primes() {
    assert!(check_modulus(2));
    assert!(check_modulus(3));
    assert!(check_modulus(4));
    assert!(check_modulus(7));
    assert!(check_modulus(16));
    assert!(check_modulus(313));
    assert!(check_modulus(1 << 62));
}

#[test]
fn check_modulus_refuses_everything_else() {
    assert!(!check_modulus(i64::MIN));
    assert!(!check_modulus(-7));
    assert!(!check_modulus(0));
    assert!(!check_modulus(1));
    assert!(!check_modulus(6));
    assert!(!check_modulus(9));
    assert!(!check_modulus(12));
    assert!(!check_modulus(15));
    assert!(!check_modulus(313 * 313));
}

#[test]
fn solve_checked_solves_for_supported_moduli() {
    assert_eq!(solve_checked(297, 313), Ok(Some(vec![100, 213])));
    assert_eq!(solve_checked(3, 7), Ok(None));
    assert_eq!(solve_checked(9, 16), Ok(Some(vec![1, 15, 3, 5, 7, 9, 11, 13])));
    assert_eq!(solve_checked(2, 16), Ok(None));
    assert_eq!(solve_checked(5, 2), Ok(Some(vec![1])));
    for m in [2i64, 3, 4, 5, 7, 8, 11, 13, 16] {
        for b in -3..20i64 {
            assert_eq!(solve_checked(b, m), Ok(solve_quadratic_congruence(b, m)));
        }
    }
}

#[test]
fn solve_checked_refuses_unsupported_moduli() {
    for m in [i64::MIN, -7, 0, 1, 6, 9, 12, 15, 21, 100] {
        assert_eq!(solve_checked(4, m), Err(UnsupportedModulus { modulus: m }));
    }
}
