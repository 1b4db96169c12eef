use vstd::prelude::*;

verus! {

/// Failure kinds of the commitment engine.
///
/// Nothing inside the engine falls back silently: every operation either
/// commits its whole effect or reports one of these.
#[derive(Clone, Copy, Debug, PartialEq, Eq, Structural)]
pub enum TreeError {
    /// The storage backend itself failed; retry policy belongs to the
    /// backend, never to the tree logic.
    StorageFailure,
    /// A referenced digest has no stored preimage: the backend is
    /// incomplete or inconsistent.
    MissingFact,
    /// Stored bytes do not decode as the expected fact shape; corruption is
    /// fatal, never defaulted to an empty leaf.
    DecodeFailure,
    /// The caller broke an interface contract, e.g. supplied compiled-class
    /// updates to a state that has no contract-class tree.
    ContractViolation,
    /// Content addressing failed: a computed digest was already bound to
    /// different bytes, or a non-empty fact hashed to the empty sentinel.
    FactConflict,
}

impl TreeError {
    /// A short description, for callers that log failures.
    pub fn describe(&self) -> (r: &'static str)
        ensures
            r@.len() > 0,
    {
        proof {
            reveal_strlit("storage backend failure");
            reveal_strlit("missing fact preimage");
            reveal_strlit("fact bytes do not decode");
            reveal_strlit("interface contract violation");
            reveal_strlit("conflicting fact digest");
        }
        match self {
            TreeError::StorageFailure => "storage backend failure",
            TreeError::MissingFact => "missing fact preimage",
            TreeError::DecodeFailure => "fact bytes do not decode",
            TreeError::ContractViolation => "interface contract violation",
            TreeError::FactConflict => "conflicting fact digest",
        }
    }
}

} // verus!
