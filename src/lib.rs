//! A command-line companion library for sparse Merkle trees over 256-bit keys:
//! literal parsing, output formatting, and proof orchestration on top of the
//! `sparse-merkle-tree` crate, hashed with personalized BLAKE2b.
pub mod blake2b;
pub mod cli;
pub mod format;
pub mod parse;
pub mod tree;
pub mod prover;
