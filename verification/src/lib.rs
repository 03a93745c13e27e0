//! A CRC32 inversion engine over 4-byte inputs.
//!
//! The checksum restricted to 4-byte inputs permutes the 32-bit word space.
//! This library recovers inputs from checksums (a full preimage table or a
//! brute-force scan over a small alphabet) and replays long chains of repeated
//! checksum applications without walking them step by step (cycle-aware
//! forward and inverse evaluators, and a full functional-graph decomposition
//! of the domain into orbits).

pub mod codec;
pub mod checksum;
pub mod evaluator;
pub mod table;
pub mod orbits;
pub mod brute;
pub mod records;
