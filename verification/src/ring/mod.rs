//! Polynomials in `R_q = Z_q[X]/(X^n + 1)`.

pub mod element;
pub mod laws;
pub mod pointwise;
