//! FROST (Flexible Round-Optimized Schnorr Threshold) signatures: any
//! threshold of the participants jointly produce, in two rounds, a signature
//! that verifies as a plain Schnorr signature under the group's public key.
//!
//! The protocol is generic over a ciphersuite: a prime-order group, its
//! scalar field and a family of domain-separated hash functions. Its
//! contracts are stated over the integers that scalars stand for and the
//! multiples of the generator that group elements stand for, and the laws of
//! the protocol are proved from them.
//!
//! The library draws no randomness: where an operation needs fresh random
//! values, the caller hands them in.

pub mod algebra;
pub mod bytes;
pub mod ciphersuite;
pub mod ecgfp5;
pub mod encoding;
pub mod error;
pub mod frost;
pub mod interpolation;
pub mod laws;
pub mod session;
pub mod signature;
