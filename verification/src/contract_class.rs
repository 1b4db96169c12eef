use vstd::prelude::*;
use crate::errors::TreeError;
use crate::felt::{
    bytes_of_felt, felt_of_bytes, felt_zero, lemma_felt_of_bytes_of, Felt,
};
use crate::hashing::poseidon_felt;
use crate::leaf::LeafFact;

verus! {

/// The tag mixed into every contract-class leaf digest: the bytes of
/// `CONTRACT_CLASS_LEAF_V0`, left-padded to 32 bytes.
pub open spec fn class_leaf_version_bytes() -> Seq<u8> {
    seq![
        0u8, 0u8, 0u8, 0u8, 0u8, 0u8, 0u8, 0u8, 0u8, 0u8, 0x43u8, 0x4fu8, 0x4eu8, 0x54u8, 0x52u8,
        0x41u8, 0x43u8, 0x54u8, 0x5fu8, 0x43u8, 0x4cu8, 0x41u8, 0x53u8, 0x53u8, 0x5fu8, 0x4cu8,
        0x45u8, 0x41u8, 0x46u8, 0x5fu8, 0x56u8, 0x30u8,
    ]
}

/// The version tag as a value.
pub open spec fn class_leaf_version() -> Felt {
    felt_of_bytes(class_leaf_version_bytes())
}

/// Builds the version tag.
pub fn class_leaf_version_felt() -> (r: Felt)
    ensures
        r == class_leaf_version(),
{
    let v: Vec<u8> = vec![
        0u8, 0u8, 0u8, 0u8, 0u8, 0u8, 0u8, 0u8, 0u8, 0u8, 0x43u8, 0x4fu8, 0x4eu8, 0x54u8, 0x52u8,
        0x41u8, 0x43u8, 0x54u8, 0x5fu8, 0x43u8, 0x4cu8, 0x41u8, 0x53u8, 0x53u8, 0x5fu8, 0x4cu8,
        0x45u8, 0x41u8, 0x46u8, 0x5fu8, 0x56u8, 0x30u8,
    ];
    proof {
        assert(v@ =~= class_leaf_version_bytes());
    }
    Felt::from_bytes_be(v.as_slice())
}

/// A leaf of the contract-class tree: the compiled-class hash recorded for
/// a class hash.  Its digest tags the Poseidon hash with the leaf version
/// so that other leaf encodings can never collide with it.
#[derive(Clone, Copy, Debug, PartialEq, Eq, Structural)]
pub struct ContractClassLeaf {
    pub compiled_class_hash: Felt,
}

impl ContractClassLeaf {
    /// A leaf recording `compiled_class_hash`.
    pub fn create(compiled_class_hash: Felt) -> (r: ContractClassLeaf)
        ensures
            r == (ContractClassLeaf { compiled_class_hash }),
    {
        ContractClassLeaf { compiled_class_hash }
    }

    /// The empty leaf.
    pub fn empty() -> (r: ContractClassLeaf)
        ensures
            r == ContractClassLeaf::empty_spec(),
    {
        ContractClassLeaf { compiled_class_hash: Felt::zero() }
    }
}

impl LeafFact for ContractClassLeaf {
    open spec fn digest_spec(&self) -> Felt {
        if self.compiled_class_hash == felt_zero() {
            felt_zero()
        } else {
            poseidon_felt(class_leaf_version(), self.compiled_class_hash)
        }
    }

    open spec fn serialized_spec(&self) -> Seq<u8> {
        bytes_of_felt(self.compiled_class_hash)
    }

    open spec fn is_empty_spec(&self) -> bool {
        self.compiled_class_hash == felt_zero()
    }

    open spec fn parse_spec(data: Seq<u8>) -> Option<ContractClassLeaf> {
        if data.len() == 32 {
            Some(ContractClassLeaf { compiled_class_hash: felt_of_bytes(data) })
        } else {
            None
        }
    }

    open spec fn empty_spec() -> ContractClassLeaf {
        ContractClassLeaf { compiled_class_hash: felt_zero() }
    }

    fn leaf_digest(&self) -> (r: Felt) {
        if self.compiled_class_hash.is_zero() {
            Felt::zero()
        } else {
            crate::hashing::hash_node(
                crate::hashing::HashKind::Poseidon,
                &class_leaf_version_felt(),
                &self.compiled_class_hash,
            )
        }
    }

    fn serialize(&self) -> (r: Vec<u8>) {
        self.compiled_class_hash.to_bytes_be()
    }

    fn deserialize(data: &Vec<u8>) -> (r: Result<ContractClassLeaf, TreeError>) {
        if data.len() != 32 {
            return Err(TreeError::DecodeFailure);
        }
        Ok(ContractClassLeaf { compiled_class_hash: Felt::from_bytes_be(data.as_slice()) })
    }

    fn empty_leaf() -> (r: ContractClassLeaf) {
        ContractClassLeaf { compiled_class_hash: Felt::zero() }
    }

    fn is_empty(&self) -> (r: bool) {
        self.compiled_class_hash.is_zero()
    }

    proof fn law_empty_digest(&self) {
    }

    proof fn law_empty_is_empty() {
    }

    proof fn law_roundtrip(&self) {
        lemma_felt_of_bytes_of(self.compiled_class_hash);
    }
}

} // verus!
