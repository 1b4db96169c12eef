use vstd::prelude::*;

verus! {

/// Bits of a contract address: the height of the global contract-state
/// tree.
pub const CONTRACT_ADDRESS_BITS: u64 = 251;

/// Height of each per-contract storage tree.
pub const CONTRACT_STATES_COMMITMENT_TREE_HEIGHT: u64 = 251;

/// Height of the contract-class tree.
pub const COMPILED_CLASS_HASH_COMMITMENT_TREE_HEIGHT: u64 = 251;

} // verus!
