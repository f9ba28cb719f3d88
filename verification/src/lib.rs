//! Shamir's secret sharing over a prime finite field.
//!
//! A `(t, n)` threshold scheme splits a secret into `n` shards such that any
//! `t` of them reconstruct it. The scheme is byte-granular: each secret byte
//! is the constant term of a fresh random polynomial of degree `t - 1`,
//! evaluated at the shard indices `1 ..= n` in the field of a chosen prime.
//!
//! - [`field`] holds the field arithmetic: mathematical modulus,
//!   arbitrary-precision products, and the extended Euclidean algorithm for
//!   modular inverses.
//! - [`poly`] draws coefficients and evaluates the sharing polynomial.
//! - [`interp`] recovers a byte by Lagrange interpolation at zero.
//! - [`buffer`] stacks the per-byte scheme over whole byte buffers.
//! - [`codec`] serialises shard payloads as little-endian 16-bit values.
//! - [`header`] renders, parses and cross-validates the shard-file header.
//! - [`progress`] defines the progress observer the codecs report to.

pub mod bigint;
pub mod buffer;
pub mod codec;
pub mod error;
pub mod field;
pub mod header;
pub mod interp;
pub mod poly;
pub mod progress;
