//! The negacyclic number-theoretic transform over `Z_q[X]/(X^n + 1)`.

pub mod convolution;
pub mod evaluation;
pub mod inverse;
pub mod ntt;
pub mod stages;
pub mod tables;
