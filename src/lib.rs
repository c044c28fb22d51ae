//! Affine arithmetic on short-Weierstrass elliptic curves over a prime field:
//! modular inversion, point addition and point doubling on `num_bigint::BigInt`
//! coordinates, each with a contract stated over mathematical integers.

pub mod bigint;
pub mod field;
pub mod curve;
