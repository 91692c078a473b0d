//! Square roots modulo an odd prime or a power of two.
//!
//! The entry point is [`solve_quadratic_congruence`], which finds the
//! solutions `x` of `x * x = b (mod m)`.
pub mod binary;
pub mod legendre;
pub mod modular;
pub mod polynomial;
pub mod power_of_two;
pub mod prime_solver;
pub mod primes;
pub mod residues;
pub mod solver;
pub mod tonelli;
pub mod validation;

pub use legendre::legendre_symbol;
pub use modular::{mod_exp, mul_mod, reduce};
pub use power_of_two::solve_mod_power_of_two;
pub use prime_solver::solve_mod_odd_prime;
pub use solver::solve_quadratic_congruence;
pub use validation::{
    check_modulus, check_power_of_two, check_prime, solve_checked, UnsupportedModulus,
};
