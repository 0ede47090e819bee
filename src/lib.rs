//! Overflow-safe signed modular arithmetic on `i64`, for any non-zero
//! modulus (negative ones included), with a deterministic primality test.
pub mod residue;
pub mod ops;
pub mod power;
pub mod gcd;
pub mod prime;
pub mod fermat;
pub mod laws;
