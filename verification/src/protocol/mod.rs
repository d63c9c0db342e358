//! Number-theoretic leaves: the extended Euclidean algorithm with modular
//! inverses, and reconstruction from remainders.

pub mod crt;
pub mod gcd;
