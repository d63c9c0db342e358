//! Fixed-width multi-precision integers.

pub mod digest;
pub mod limbs;
pub mod u1024;
pub mod wide;
