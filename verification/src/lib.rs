//! Short-Weierstrass curve arithmetic in Jacobian coordinates, canonical
//! point encoding, and an FFT-friendly multiplicative evaluation domain,
//! all over a prime field of word-sized modulus.
//!
//! The field modulus is a const generic, so a curve or a domain over a new
//! prime is a type instantiation, not new code. Contracts state every result
//! as modular arithmetic over the integers.

pub mod curve;
pub mod domain;
pub mod fp;
pub mod laws;
pub mod rng;
pub mod serial;
