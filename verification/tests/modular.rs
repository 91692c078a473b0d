use quadratic_congruence::binary::{floor_log2, power_of_two};
use quadratic_congruence::{mod_exp, mul_mod, reduce};

const LARGE_PRIME: i64 = 9223372036854775783;

#[test]
fn reduce_gives_least_non_negative_residue() {
    assert_eq!(reduce(7, 5), 2);
    assert_eq!(reduce(-7, 5), 3);
    assert_eq!(reduce(-5, 5), 0);
    assert_eq!(reduce(0, 5), 0);
    assert_eq!(reduce(i64::MIN, 1), 0);
    assert_eq!(reduce(-1, i64::MAX), i64::MAX - 1);
    assert_eq!(reduce(i64::MIN, i64::MAX), i64::MAX - 1);
}

#[test]
fn mul_mod_small_values() {
    assert_eq!(mul_mod(3, 4, 5), 2);
    assert_eq!(mul_mod(0, 4, 5), 0);
    assert_eq!(mul_mod(0, 0, 1), 0);
    assert_eq!(mul_mod(6, 6, 7), 1);
}

#[test]
fn mul_mod_does_not_overflow_for_large_moduli() {
    assert_eq!(
        mul_mod(4611686018427387904, 4611686018427387903, LARGE_PRIME),
        6917529027641081981
    );
    assert_eq!(mul_mod(LARGE_PRIME - 1, LARGE_PRIME - 1, LARGE_PRIME), 1);
    assert_eq!(mul_mod(i64::MAX - 1, i64::MAX - 1, i64::MAX), 1);
}

#[test]
fn mod_exp_known_values() {
    assert_eq!(mod_exp(3, 200, 1000), 1);
    assert_eq!(mod_exp(5, 117, 19), 1);
    assert_eq!(mod_exp(2, 10, 1000), 24);
    assert_eq!(mod_exp(2, 10, 1025), 1024);
    assert_eq!(mod_exp(10, 1, 7), 3);
}

#[test]
fn mod_exp_of_exponent_zero_is_one_modulo_the_modulus() {
    assert_eq!(mod_exp(5, 0, 7), 1);
    assert_eq!(mod_exp(0, 0, 7), 1);
    assert_eq!(mod_exp(7, 0, 1), 0);
    assert_eq!(mod_exp(-4, 0, 2), 1);
}

#[test]
fn mod_exp_with_modulus_one_is_zero() {
    assert_eq!(mod_exp(7, 0, 1), 0);
    assert_eq!(mod_exp(7, 5, 1), 0);
    assert_eq!(mod_exp(-7, 5, 1), 0);
}

#[test]
fn mod_exp_reduces_a_negative_base_first() {
    assert_eq!(mod_exp(-2, 5, 7), 3);
    assert_eq!(mod_exp(-1, 3, 5), 4);
    assert_eq!(mod_exp(-1, 4, 5), 1);
    assert_eq!(mod_exp(i64::MIN, 3, 1000000007), 523193634);
}

#[test]
fn mod_exp_of_base_zero() {
    assert_eq!(mod_exp(0, 5, 7), 0);
    assert_eq!(mod_exp(14, 3, 7), 0);
}

#[test]
fn mod_exp_large_modulus() {
    assert_eq!(mod_exp(2, 62, LARGE_PRIME), 4611686018427387904);
    assert_eq!(mod_exp(LARGE_PRIME - 1, LARGE_PRIME - 1, LARGE_PRIME), 1);
    assert_eq!(mod_exp(123456789, i64::MAX, i64::MAX), 8958113548865898019);
}

#[test]
fn mod_exp_agrees_with_repeated_multiplication() {
    for modulus in 1..30i64 {
        for base in -12..13i64 {
            let mut expected: i64 = 1 % modulus;
            for exp in 0..12i64 {
                assert_eq!(mod_exp(base, exp, modulus), expected);
                expected = (expected * base).rem_euclid(modulus);
            }
        }
    }
}

#[test]
fn mod_exp_result_is_a_residue() {
    for modulus in 1..40i64 {
        for base in -5..40i64 {
            let r: i64 = mod_exp(base, 7, modulus);
            assert!(0 <= r && r < modulus);
        }
    }
}

#[test]
fn power_of_two_values() {
    assert_eq!(power_of_two(0), 1);
    assert_eq!(power_of_two(1), 2);
    assert_eq!(power_of_two(10), 1024);
    assert_eq!(power_of_two(62), 4611686018427387904);
}

#[test]
fn floor_log2_values() {
    assert_eq!(floor_log2(1), 0);
    assert_eq!(floor_log2(2), 1);
    assert_eq!(floor_log2(3), 1);
    assert_eq!(floor_log2(4), 2);
    assert_eq!(floor_log2(1023), 9);
    assert_eq!(floor_log2(1024), 10);
    assert_eq!(floor_log2(i64::MAX), 62);
}
