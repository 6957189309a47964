//! A protocol library for privacy-preserving joint computation among
//! mutually distrusting players: secret-shared bit arithmetic (parallel
//! prefix, carry chains, bit decomposition, secure comparison) and an
//! oblivious ranking / controlled linear search built on top of it.
//!
//! The raw field-arithmetic engine is a collaborator: here it is an
//! emulated, non-interactive implementation of the same interface, so the
//! protocol suite stays engine-agnostic and every algorithm is verified
//! against the field semantics the real engine provides.

pub mod params;
pub mod field;
pub mod bits;
pub mod prefix;
pub mod carry;
pub mod compare;
pub mod rng;
pub mod decompose;
pub mod rank;
pub mod table;
