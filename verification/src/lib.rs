//! Accounting core of a fixed-denomination shielded value pool.
//!
//! Deposits bind a fixed payment to a secret commitment, which is appended to
//! an incremental Merkle accumulator. Withdrawals name a recent accumulator
//! root and a fresh nullifier; the protocol checks root freshness and
//! nullifier uniqueness, defers to an external zero-knowledge proof verifier,
//! and only then marks the nullifier spent and emits transfer instructions.

pub mod contract;
pub mod error;
pub mod field;
pub mod hash;
pub mod merkle_tree;
pub mod msg;
pub mod nullifier;
pub mod signals;
pub mod state;

pub use field::FieldElement;
