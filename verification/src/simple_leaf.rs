use vstd::prelude::*;
use crate::errors::TreeError;
use crate::felt::{
    bytes_of_felt, felt_of_bytes, felt_zero, lemma_felt_of_bytes_of, Felt,
};
use crate::leaf::LeafFact;

verus! {

/// A raw storage value: the leaf of a per-contract storage tree.  Its fact
/// bytes are the 32-byte big-endian value and its digest is the value
/// itself; the zero value is the empty leaf.
#[derive(Clone, Copy, Debug, PartialEq, Eq, Structural)]
pub struct SimpleLeafFact {
    pub value: Felt,
}

impl SimpleLeafFact {
    /// A leaf holding `value`.
    pub fn new(value: Felt) -> (r: SimpleLeafFact)
        ensures
            r == (SimpleLeafFact { value }),
    {
        SimpleLeafFact { value }
    }

    /// The empty leaf.
    pub fn empty() -> (r: SimpleLeafFact)
        ensures
            r == SimpleLeafFact::empty_spec(),
    {
        SimpleLeafFact { value: Felt::zero() }
    }
}

impl LeafFact for SimpleLeafFact {
    open spec fn digest_spec(&self) -> Felt {
        self.value
    }

    open spec fn serialized_spec(&self) -> Seq<u8> {
        bytes_of_felt(self.value)
    }

    open spec fn is_empty_spec(&self) -> bool {
        self.value == felt_zero()
    }

    open spec fn parse_spec(data: Seq<u8>) -> Option<SimpleLeafFact> {
        if data.len() == 32 {
            Some(SimpleLeafFact { value: felt_of_bytes(data) })
        } else {
            None
        }
    }

    open spec fn empty_spec() -> SimpleLeafFact {
        SimpleLeafFact { value: felt_zero() }
    }

    fn leaf_digest(&self) -> (r: Felt) {
        self.value
    }

    fn serialize(&self) -> (r: Vec<u8>) {
        self.value.to_bytes_be()
    }

    fn deserialize(data: &Vec<u8>) -> (r: Result<SimpleLeafFact, TreeError>) {
        if data.len() != 32 {
            return Err(TreeError::DecodeFailure);
        }
        Ok(SimpleLeafFact { value: Felt::from_bytes_be(data.as_slice()) })
    }

    fn empty_leaf() -> (r: SimpleLeafFact) {
        SimpleLeafFact { value: Felt::zero() }
    }

    fn is_empty(&self) -> (r: bool) {
        self.value.is_zero()
    }

    proof fn law_empty_digest(&self) {
    }

    proof fn law_empty_is_empty() {
    }

    proof fn law_roundtrip(&self) {
        lemma_felt_of_bytes_of(self.value);
    }
}

} // verus!
