//! A logarithmic-size inner-product argument over the Ristretto group.
//!
//! A prover who knows two scalar vectors `a` and `b` convinces a verifier
//! that `<a, b>` and the vectors themselves are consistent with a public
//! commitment, sending only `2 * log2(n)` group elements and two scalars.
//!
//! Scalar arithmetic and group operations are performed by
//! `curve25519-dalek`, hashing by `sha2`; everything around them (folding,
//! challenge replay, coefficient expansion, the transcript framing) is
//! verified here.
//!
//! - [`scalar`]: the scalar field, specified as arithmetic modulo the group
//!   order.
//! - [`point`]: group elements as canonical encodings; the results of group
//!   operations are named, not specified.
//! - [`transcript`]: the Fiat-Shamir transcript.
//! - [`inner_product_proof`]: [`inner_product_proof::Proof`], its
//!   construction and its verification.
//! - [`laws`], [`congruence`], [`completeness`]: what is proved of the
//!   argument beyond the contracts of its functions.
#![allow(non_snake_case)]

pub mod completeness;
pub mod congruence;
pub mod inner_product_proof;
pub mod laws;
pub mod point;
pub mod scalar;
pub mod transcript;
