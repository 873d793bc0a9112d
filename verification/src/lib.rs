//! Fiat-Shamir transcript emulation for an in-circuit proof verifier, with the
//! field-conversion primitives that make cross-field consistency provable.

pub mod bytes;
pub mod field;
pub mod conversion;
pub mod circuit;
pub mod transcript;
