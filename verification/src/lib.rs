//! Verified core of a SnarkPack-style Groth16 proof aggregator.
//!
//! The scalar arithmetic of the aggregation protocol is modelled over the
//! BLS12-381 scalar field: the O(log n) product-form evaluation of the
//! commitment-key polynomial, the halving (folding) of commitment keys, and
//! the structured scalar powers used for the random linear combination, each
//! with a contract over the field's residues, together with proofs that the
//! product form agrees with the expanded polynomial and that folding a
//! structured key computes that polynomial at the key's secret exponent.

pub mod codec;
pub mod errors;
pub mod field;
pub mod ip;
pub mod prover;
pub mod srs;
