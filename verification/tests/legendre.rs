use quadratic_congruence::legendre_symbol;

const LARGE_PRIME: i64 = 9223372036854775783;

#[test]
fn legendre_symbol_modulo_thirteen() {
    let expected: [i64; 14] = [0, 1, -1, 1, 1, -1, -1, -1, -1, 1, 1, -1, 1, 0];
    for a in 0..14i64 {
        assert_eq!(legendre_symbol(a, 13), expected[a as usize]);
    }
}

#[test]
fn legendre_symbol_of_a_square_is_one() {
    for p in [3i64, 5, 7, 11, 13, 17, 257, 313] {
        for x in 1..p {
            assert_eq!(legendre_symbol((x * x) % p, p), 1);
            assert_eq!(legendre_symbol(x * x, p), 1);
        }
    }
}

#[test]
fn legendre_symbol_of_a_multiple_of_the_prime_is_zero() {
    assert_eq!(legendre_symbol(0, 7), 0);
    assert_eq!(legendre_symbol(7, 7), 0);
    assert_eq!(legendre_symbol(14, 7), 0);
    assert_eq!(legendre_symbol(-21, 7), 0);
    assert_eq!(legendre_symbol(0, 3), 0);
}

#[test]
fn legendre_symbol_of_a_non_residue_is_minus_one() {
    assert_eq!(legendre_symbol(3, 7), -1);
    assert_eq!(legendre_symbol(5, 7), -1);
    assert_eq!(legendre_symbol(6, 7), -1);
    assert_eq!(legendre_symbol(2, 3), -1);
    assert_eq!(legendre_symbol(3, 257), -1);
}

#[test]
fn legendre_symbol_of_a_negative_number() {
    assert_eq!(legendre_symbol(-3, 7), 1);
    assert_eq!(legendre_symbol(-1, 7), -1);
    assert_eq!(legendre_symbol(-1, 13), 1);
    assert_eq!(legendre_symbol(-10, 313), -1);
}

#[test]
fn legendre_symbol_counts_half_the_residues() {
    for p in [3i64, 5, 7, 11, 13, 101, 313] {
        let mut residues: i64 = 0;
        let mut non_residues: i64 = 0;
        for a in 1..p {
            match legendre_symbol(a, p) {
                1 => residues += 1,
                -1 => non_residues += 1,
                other => panic!("unexpected symbol {}", other),
            }
        }
        assert_eq!(residues, (p - 1) / 2);
        assert_eq!(non_residues, (p - 1) / 2);
    }
}

#[test]
fn legendre_symbol_large_prime() {
    assert_eq!(legendre_symbol(4, LARGE_PRIME), 1);
    assert_eq!(legendre_symbol(2, LARGE_PRIME), 1);
    assert_eq!(legendre_symbol(3, LARGE_PRIME), -1);
    assert_eq!(legendre_symbol(-1, LARGE_PRIME), -1);
    assert_eq!(legendre_symbol(i64::MIN, LARGE_PRIME), -1);
    assert_eq!(legendre_symbol(LARGE_PRIME, LARGE_PRIME), 0);
}
