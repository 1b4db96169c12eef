use vstd::prelude::*;
use crate::config::CONTRACT_STATES_COMMITMENT_TREE_HEIGHT;
use crate::errors::TreeError;
use crate::felt::{
    bytes_of_felt, felt_of_bytes, felt_of_u64, felt_zero, fits_below, lemma_felt_of_bytes_of, Felt,
};
use crate::hashing::{hash_node, pedersen_felt, HashKind};
use crate::leaf::{typed_images, LeafFact};
use crate::simple_leaf::SimpleLeafFact;
use crate::storage::{copy_range, store_extends, Storage};
use crate::tree::PatriciaTree;
use crate::tree_model::{apply_mods, root_of};

verus! {

/// The class hash of an address no contract was ever deployed to: all
/// zeros.
pub open spec fn uninitialized_class_hash() -> Felt {
    felt_zero()
}

/// A contract's committed state: its class hash, the root of its storage
/// tree, and its nonce.  It is itself a leaf of the global contract-state
/// tree; a fresh, untouched contract is the empty leaf.
#[derive(Clone, Copy)]
pub struct ContractState {
    pub contract_hash: Felt,
    pub storage_commitment_tree: PatriciaTree,
    pub nonce: Felt,
}

/// The storage-tree modification list for a batch of key/value writes.
pub open spec fn storage_mods(s: Seq<(Felt, Felt)>) -> Seq<(Felt, SimpleLeafFact)> {
    s.map_values(|u: (Felt, Felt)| (u.0, SimpleLeafFact { value: u.1 }))
}

impl ContractState {
    /// Assembles a contract state from its parts.
    pub fn create(contract_hash: Felt, storage_commitment_tree: PatriciaTree, nonce: Felt) -> (r:
        ContractState)
        ensures
            r == (ContractState { contract_hash, storage_commitment_tree, nonce }),
    {
        ContractState { contract_hash, storage_commitment_tree, nonce }
    }

    /// The state of a never-touched contract: uninitialized class hash, an
    /// empty storage tree of the given height, nonce zero.  Nothing is
    /// written to storage: an all-empty tree is the implicit sentinel.
    pub fn empty(storage_commitment_tree_height: u64) -> (r: ContractState)
        ensures
            r.contract_hash == uninitialized_class_hash(),
            r.nonce == felt_zero(),
            r.storage_commitment_tree.root == felt_zero(),
            r.storage_commitment_tree.height == storage_commitment_tree_height,
            r.storage_commitment_tree.leaves@ == Map::<Felt, crate::tree_model::LeafImage>::empty(),
            r.is_empty_spec(),
    {
        ContractState {
            contract_hash: Felt::zero(),
            storage_commitment_tree: PatriciaTree {
                root: Felt::zero(),
                height: storage_commitment_tree_height,
                leaves: Ghost(Map::empty()),
            },
            nonce: Felt::zero(),
        }
    }

    /// Applies a batch of storage writes and, when given, a new nonce and
    /// class hash; returns the new contract state.  The receiver is
    /// unchanged: every update produces a new value.
    pub fn update<S: Storage>(
        &self,
        storage: &mut S,
        kind: HashKind,
        updates: &Vec<(Felt, Felt)>,
        nonce: Option<Felt>,
        class_hash: Option<Felt>,
    ) -> (r: Result<ContractState, TreeError>)
        requires
            self.storage_commitment_tree.wf(old(storage).contents(), kind),
            self.storage_commitment_tree.height <= 256,
            forall|i: int|
                0 <= i < updates@.len() ==> fits_below(
                    #[trigger] updates@[i].0,
                    self.storage_commitment_tree.height as int,
                ),
            forall|i: int, j: int| 0 <= i < j < updates@.len() ==> updates@[i].0 != updates@[j].0,
        ensures
            store_extends(final (storage).contents(), old(storage).contents()),
            match r {
                Ok(cs) => cs.contract_hash == (match class_hash {
                    Some(h) => h,
                    None => self.contract_hash,
                }) && cs.nonce == (match nonce {
                    Some(n) => n,
                    None => self.nonce,
                }) && cs.storage_commitment_tree.height == self.storage_commitment_tree.height
                    && cs.storage_commitment_tree.leaves@ == apply_mods(
                    self.storage_commitment_tree.leaves@,
                    typed_images(storage_mods(updates@)),
                ) && cs.storage_commitment_tree.root == root_of(
                    kind,
                    self.storage_commitment_tree.height as nat,
                    cs.storage_commitment_tree.leaves@,
                ) && cs.storage_commitment_tree.wf(final (storage).contents(), kind),
                Err(e) => e == TreeError::StorageFailure || e == TreeError::FactConflict,
            },
    {
        let mut leaf_mods: Vec<(Felt, SimpleLeafFact)> = Vec::new();
        let mut i: usize = 0;
        while i < updates.len()
            invariant
                i <= updates@.len(),
                leaf_mods@ == storage_mods(updates@.take(i as int)),
            decreases updates@.len() - i,
        {
            let u = &updates[i];
            leaf_mods.push((u.0, SimpleLeafFact::new(u.1)));
            proof {
                assert(leaf_mods@ =~= storage_mods(updates@.take(i + 1)));
            }
            i += 1;
        }
        proof {
            assert(updates@.take(updates@.len() as int) =~= updates@);
            assert forall|t: int, j: int| 0 <= t < j < leaf_mods@.len() implies leaf_mods@[t].0
                != leaf_mods@[j].0 by {
                assert(leaf_mods@[t].0 == updates@[t].0);
                assert(leaf_mods@[j].0 == updates@[j].0);
            };
            assert forall|t: int| 0 <= t < leaf_mods@.len() implies fits_below(
                #[trigger] leaf_mods@[t].0,
                self.storage_commitment_tree.height as int,
            ) by {
                assert(leaf_mods@[t].0 == updates@[t].0);
            };
        }
        let new_tree = match self.storage_commitment_tree.update::<S, SimpleLeafFact>(
            storage,
            kind,
            &leaf_mods,
        ) {
            Ok(t) => t,
            Err(e) => {
                return Err(e);
            },
        };
        let new_nonce = match nonce {
            Some(n) => n,
            None => self.nonce,
        };
        let new_hash = match class_hash {
            Some(h) => h,
            None => self.contract_hash,
        };
        Ok(
            ContractState {
                contract_hash: new_hash,
                storage_commitment_tree: new_tree,
                nonce: new_nonce,
            },
        )
    }
}

impl LeafFact for ContractState {
    open spec fn digest_spec(&self) -> Felt {
        if self.is_empty_spec() {
            felt_zero()
        } else {
            pedersen_felt(
                pedersen_felt(
                    pedersen_felt(self.contract_hash, self.storage_commitment_tree.root),
                    self.nonce,
                ),
                felt_zero(),
            )
        }
    }

    open spec fn serialized_spec(&self) -> Seq<u8> {
        bytes_of_felt(self.contract_hash) + bytes_of_felt(
            felt_of_u64(self.storage_commitment_tree.height),
        ) + bytes_of_felt(self.storage_commitment_tree.root) + bytes_of_felt(self.nonce)
    }

    open spec fn is_empty_spec(&self) -> bool {
        self.storage_commitment_tree.root == felt_zero() && self.contract_hash
            == uninitialized_class_hash() && self.nonce == felt_zero()
    }

    open spec fn parse_spec(data: Seq<u8>) -> Option<ContractState> {
        if data.len() != 128 {
            None
        } else {
            let hf = felt_of_bytes(data.subrange(32, 64));
            if hf.l1 == 0 && hf.l2 == 0 && hf.l3 == 0 {
                Some(
                    ContractState {
                        contract_hash: felt_of_bytes(data.subrange(0, 32)),
                        storage_commitment_tree: PatriciaTree {
                            root: felt_of_bytes(data.subrange(64, 96)),
                            height: hf.l0,
                            leaves: Ghost(Map::empty()),
                        },
                        nonce: felt_of_bytes(data.subrange(96, 128)),
                    },
                )
            } else {
                None
            }
        }
    }

    open spec fn empty_spec() -> ContractState {
        ContractState {
            contract_hash: felt_zero(),
            storage_commitment_tree: PatriciaTree {
                root: felt_zero(),
                height: CONTRACT_STATES_COMMITMENT_TREE_HEIGHT,
                leaves: Ghost(Map::empty()),
            },
            nonce: felt_zero(),
        }
    }

    /// The digest of the contract's information: nested Pedersen pairs of
    /// the class hash, storage root and nonce, with the leaf-format version
    /// in the outermost position so that encodings can never collide.
    fn leaf_digest(&self) -> (r: Felt) {
        if self.is_empty() {
            return Felt::zero();
        }
        let h1 = hash_node(HashKind::Pedersen, &self.contract_hash, &self.storage_commitment_tree.root);
        let h2 = hash_node(HashKind::Pedersen, &h1, &self.nonce);
        hash_node(HashKind::Pedersen, &h2, &Felt::zero())
    }

    fn serialize(&self) -> (r: Vec<u8>) {
        let mut v = self.contract_hash.to_bytes_be();
        let mut hb = Felt::from_u64(self.storage_commitment_tree.height).to_bytes_be();
        let mut rb = self.storage_commitment_tree.root.to_bytes_be();
        let mut nb = self.nonce.to_bytes_be();
        v.append(&mut hb);
        v.append(&mut rb);
        v.append(&mut nb);
        v
    }

    fn deserialize(data: &Vec<u8>) -> (r: Result<ContractState, TreeError>) {
        if data.len() != 128 {
            return Err(TreeError::DecodeFailure);
        }
        let ch = Felt::from_bytes_be(copy_range(data, 0, 32).as_slice());
        let hf = Felt::from_bytes_be(copy_range(data, 32, 64).as_slice());
        let root = Felt::from_bytes_be(copy_range(data, 64, 96).as_slice());
        let nonce = Felt::from_bytes_be(copy_range(data, 96, 128).as_slice());
        if hf.l1 != 0 || hf.l2 != 0 || hf.l3 != 0 {
            return Err(TreeError::DecodeFailure);
        }
        Ok(
            ContractState {
                contract_hash: ch,
                storage_commitment_tree: PatriciaTree {
                    root,
                    height: hf.l0,
                    leaves: Ghost(Map::empty()),
                },
                nonce,
            },
        )
    }

    fn empty_leaf() -> (r: ContractState) {
        ContractState::empty(CONTRACT_STATES_COMMITMENT_TREE_HEIGHT)
    }

    fn is_empty(&self) -> (r: bool) {
        self.storage_commitment_tree.root.is_zero() && self.contract_hash.is_zero()
            && self.nonce.is_zero()
    }

    proof fn law_empty_digest(&self) {
    }

    proof fn law_empty_is_empty() {
    }

    proof fn law_roundtrip(&self) {
        lemma_parse_of_serialized(*self);
    }
}

/// What parsing a serialized contract state yields: the same fields, with a
/// detached (empty) ghost leaf map for the storage tree.
pub proof fn lemma_parse_of_serialized(cs: ContractState)
    ensures
        ContractState::parse_spec(cs.serialized_spec()) == Some(
            ContractState {
                contract_hash: cs.contract_hash,
                storage_commitment_tree: PatriciaTree {
                    root: cs.storage_commitment_tree.root,
                    height: cs.storage_commitment_tree.height,
                    leaves: Ghost(Map::empty()),
                },
                nonce: cs.nonce,
            },
        ),
{
    let s = cs.serialized_spec();
    lemma_felt_of_bytes_of(cs.contract_hash);
    lemma_felt_of_bytes_of(felt_of_u64(cs.storage_commitment_tree.height));
    lemma_felt_of_bytes_of(cs.storage_commitment_tree.root);
    lemma_felt_of_bytes_of(cs.nonce);
    assert(s.subrange(0, 32) =~= bytes_of_felt(cs.contract_hash));
    assert(s.subrange(32, 64) =~= bytes_of_felt(felt_of_u64(cs.storage_commitment_tree.height)));
    assert(s.subrange(64, 96) =~= bytes_of_felt(cs.storage_commitment_tree.root));
    assert(s.subrange(96, 128) =~= bytes_of_felt(cs.nonce));
}

} // verus!
