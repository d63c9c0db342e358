//! A numeric stack for lattice cryptography: 1024-bit integers, a prime
//! field in Montgomery form, the negacyclic number-theoretic transform,
//! and polynomials in `Z_q[X]/(X^n + 1)` that convert lazily between
//! coefficient and transform representation.

pub mod big_int;
pub mod error;
pub mod field;
pub mod poly;
pub mod protocol;
pub mod ring;
pub mod text;

pub use crate::big_int::u1024::U1024;
pub use crate::error::MathError;
pub use crate::field::config::{DefaultFieldConfig, FieldConfig};
pub use crate::field::element::FieldElement;
pub use crate::poly::ntt::NttContext;
pub use crate::protocol::crt::{chinese_remainder, chinese_remainder_solver, CrtError};
pub use crate::protocol::gcd::{extended_gcd, mod_inverse, ExtendedGcdResult};
pub use crate::ring::element::{RingElement, RingElementState};
