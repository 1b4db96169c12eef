//! The authenticated global state of a StarkNet-like ledger: a two-level,
//! content-addressed Merkle commitment over per-contract storage and
//! compiled-class hashes, recomputed deterministically after every batch of
//! state changes.
//!
//! The layers, leaves first: [`felt`] holds the 256-bit values everything
//! is made of; [`hashing`] the two hash domains; [`storage`] the
//! content-addressed fact store; [`tree_model`] and [`tree`] the
//! fixed-height binary Merkle trie with its batched, root-recomputing
//! update; [`leaf`] the protocol every tree leaf obeys, implemented by
//! [`simple_leaf`], [`contract_class`] and [`contract_state`];
//! [`shared_state`] the top-level aggregate with the global-root formula
//! and the state-update pipeline; [`diff`] the shape of the state diffs it
//! consumes; and [`laws`] the proved properties that tie them together.

pub mod config;
pub mod contract_class;
pub mod contract_state;
pub mod diff;
pub mod errors;
pub mod felt;
pub mod hashing;
pub mod laws;
pub mod leaf;
pub mod shared_state;
pub mod simple_leaf;
pub mod storage;
pub mod tree;
pub mod tree_model;
