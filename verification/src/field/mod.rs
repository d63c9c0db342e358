//! The prime field `Z_q` in Montgomery representation.

pub mod config;
pub mod element;
pub mod modular;
pub mod montgomery;
