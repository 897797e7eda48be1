//! Verified implementations of classic symmetric ciphers and the arithmetic
//! they rest on: a bit-sequence buffer, a hexadecimal codec, a Feistel block
//! cipher, a shift-register stream cipher, the Caesar and Affine substitution
//! ciphers, Euclidean gcd with Bezout coefficients, modular inverses, and a
//! linear congruential generator.

pub mod affine;
pub mod bits;
pub mod caesar;
pub mod caesar_signed;
pub mod des;
pub mod gcd;
pub mod hex;
pub mod lcg;
pub mod mod_inverse;
pub mod trivium;
pub mod utils;
