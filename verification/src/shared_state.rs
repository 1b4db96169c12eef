use vstd::prelude::*;
use vstd::map::*;
use crate::config::{
    COMPILED_CLASS_HASH_COMMITMENT_TREE_HEIGHT, CONTRACT_ADDRESS_BITS,
    CONTRACT_STATES_COMMITMENT_TREE_HEIGHT,
};
use crate::contract_class::ContractClassLeaf;
use crate::contract_state::{lemma_parse_of_serialized, storage_mods, ContractState};
use crate::diff::{
    lookup_pair, lookup_storage_updates, pair_keys_distinct, pair_map, storage_update_map,
    lemma_pair_map_index, lemma_pair_map_member, lemma_push_keeps_contains,
    lemma_storage_map_member,
};
use crate::errors::TreeError;
use crate::felt::{felt_of_bytes, felt_zero, fits_below, Felt};
use crate::hashing::{hash_chain, poseidon_chain_felt, HashKind};
use crate::leaf::{image_of, images_of, typed_images, LeafFact};
use crate::storage::{lemma_store_extends_trans, store_extends, Storage};
use crate::tree::{leaf_read_ok, PatriciaTree};
use crate::tree_model::{
    apply_mods, lemma_apply_mods_lookup, lemma_rep_extends, mod_entry, root_of, tree_rep, LeafImage,
};

verus! {

/// Metadata of the block a state snapshot belongs to.
#[derive(Clone, Copy, Debug, PartialEq, Eq, Structural)]
pub struct BlockInfo {
    pub block_number: u64,
    pub block_timestamp: u64,
    pub sequencer_address: Felt,
    pub use_kzg_da: bool,
}

impl BlockInfo {
    /// The metadata in force before the first block.
    pub fn empty(sequencer_address: Felt, use_kzg_da: bool) -> (r: BlockInfo)
        ensures
            r == (BlockInfo { block_number: 0, block_timestamp: 0, sequencer_address, use_kzg_da }),
    {
        BlockInfo { block_number: 0, block_timestamp: 0, sequencer_address, use_kzg_da }
    }
}

/// A storage backend paired with the hash domain that tree nodes are
/// combined with.  Every tree operation threads one of these.
pub struct FactFetchingContext<S: Storage> {
    pub storage: S,
    pub hash_kind: HashKind,
}

impl<S: Storage> FactFetchingContext<S> {
    /// Bundles a backend with a hash domain.
    pub fn new(storage: S, hash_kind: HashKind) -> (r: FactFetchingContext<S>)
        ensures
            r.storage == storage,
            r.hash_kind == hash_kind,
    {
        FactFetchingContext { storage, hash_kind }
    }
}

/// The version tag mixed into the global root: the bytes of
/// `STARKNET_STATE_V0`, left-padded to 32 bytes.
pub open spec fn state_version_bytes() -> Seq<u8> {
    seq![
        0u8, 0u8, 0u8, 0u8, 0u8, 0u8, 0u8, 0u8, 0u8, 0u8, 0u8, 0u8, 0u8, 0u8, 0u8, 0x53u8, 0x54u8,
        0x41u8, 0x52u8, 0x4bu8, 0x4eu8, 0x45u8, 0x54u8, 0x5fu8, 0x53u8, 0x54u8, 0x41u8, 0x54u8,
        0x45u8, 0x5fu8, 0x56u8, 0x30u8,
    ]
}

/// The version tag as a value.
pub open spec fn state_version() -> Felt {
    felt_of_bytes(state_version_bytes())
}

/// The global root composed from the two tree roots:
/// zero when both trees are empty; the contract-state root alone while the
/// class tree is absent or empty (compatibility with ledgers that predate
/// it); otherwise the Poseidon chain of the version tag and the two roots.
pub open spec fn global_root_spec(state_root: Felt, class_root: Felt) -> Felt {
    if state_root == felt_zero() && class_root == felt_zero() {
        felt_zero()
    } else if class_root == felt_zero() {
        state_root
    } else {
        poseidon_chain_felt(seq![state_version(), state_root, class_root])
    }
}

/// A combination of the onchain and offchain state: the global
/// contract-state tree, the contract-class tree where one exists yet, and
/// the block metadata.  Values are immutable: every update returns a new
/// snapshot and the old one stays valid.
pub struct SharedState {
    pub contract_states: PatriciaTree,
    /// Leaf addresses are class hashes; leaf values hold compiled class
    /// hashes.  Absent only on ledgers that predate the class tree.
    pub contract_classes: Option<PatriciaTree>,
    pub block_info: BlockInfo,
    /// The contract states the global tree commits to, by address.
    pub contract_map: Ghost<Map<Felt, ContractState>>,
    /// The class leaves the class tree commits to, by class hash.
    pub class_map: Ghost<Map<Felt, ContractClassLeaf>>,
}

/// The class-tree root, with the implicit empty value when the tree is
/// absent.
pub open spec fn spec_class_root(s: SharedState) -> Felt {
    match s.contract_classes {
        Some(t) => t.root,
        None => felt_zero(),
    }
}

/// The state a touched address starts the transition from: its committed
/// contract state, or a fresh empty one when it was never touched before.
pub open spec fn base_state_at(old: Map<Felt, ContractState>, a: Felt) -> ContractState {
    if old.dom().contains(a) {
        old[a]
    } else {
        ContractState::empty_spec()
    }
}

/// Whether the diff touches address `a`: the minimal read set is the union
/// of the three address-keyed maps.
pub open spec fn diff_touches(
    chm: Map<Felt, Felt>,
    nonm: Map<Felt, Felt>,
    stum: Map<Felt, Seq<(Felt, Felt)>>,
    a: Felt,
) -> bool {
    chm.dom().contains(a) || nonm.dom().contains(a) || stum.dom().contains(a)
}

/// The contract state of a touched address after the transition: its
/// storage writes applied to its storage tree, and its nonce and class
/// hash replaced where the diff provides one.
pub open spec fn updated_state_at(
    old: Map<Felt, ContractState>,
    kind: HashKind,
    chm: Map<Felt, Felt>,
    nonm: Map<Felt, Felt>,
    stum: Map<Felt, Seq<(Felt, Felt)>>,
    a: Felt,
) -> ContractState {
    let base = base_state_at(old, a);
    let stu = if stum.dom().contains(a) {
        stum[a]
    } else {
        Seq::empty()
    };
    let leaves2 = apply_mods(
        base.storage_commitment_tree.leaves@,
        typed_images(storage_mods(stu)),
    );
    ContractState {
        contract_hash: if chm.dom().contains(a) {
            chm[a]
        } else {
            base.contract_hash
        },
        storage_commitment_tree: PatriciaTree {
            root: root_of(kind, base.storage_commitment_tree.height as nat, leaves2),
            height: base.storage_commitment_tree.height,
            leaves: Ghost(leaves2),
        },
        nonce: if nonm.dom().contains(a) {
            nonm[a]
        } else {
            base.nonce
        },
    }
}

/// The committed contract-state map after the transition: touched
/// addresses hold their updated state (or leave the map when that state is
/// the empty leaf), untouched addresses keep their binding.
pub open spec fn contract_map_after(
    old: Map<Felt, ContractState>,
    kind: HashKind,
    chm: Map<Felt, Felt>,
    nonm: Map<Felt, Felt>,
    stum: Map<Felt, Seq<(Felt, Felt)>>,
) -> Map<Felt, ContractState> {
    Map::new(
        |a: Felt|
            if diff_touches(chm, nonm, stum, a) {
                updated_state_at(old, kind, chm, nonm, stum, a).digest_spec() != felt_zero()
            } else {
                old.dom().contains(a)
            },
        |a: Felt|
            if diff_touches(chm, nonm, stum, a) {
                updated_state_at(old, kind, chm, nonm, stum, a)
            } else {
                old[a]
            },
    )
}

/// The committed class map after the transition.
pub open spec fn class_map_after(old: Map<Felt, ContractClassLeaf>, ccm: Map<Felt, Felt>) -> Map<
    Felt,
    ContractClassLeaf,
> {
    Map::new(
        |h: Felt|
            if ccm.dom().contains(h) {
                (ContractClassLeaf { compiled_class_hash: ccm[h] }).digest_spec() != felt_zero()
            } else {
                old.dom().contains(h)
            },
        |h: Felt|
            if ccm.dom().contains(h) {
                ContractClassLeaf { compiled_class_hash: ccm[h] }
            } else {
                old[h]
            },
    )
}

/// The class-tree modification list for a compiled-class diff.
pub open spec fn class_mods_of(s: Seq<(Felt, Felt)>) -> Seq<(Felt, ContractClassLeaf)> {
    s.map_values(|p: (Felt, Felt)| (p.0, ContractClassLeaf { compiled_class_hash: p.1 }))
}

/// Applying the per-address modification list to the global leaf map
/// yields exactly the images of the updated contract-state map.
proof fn lemma_global_images(
    oldmap: Map<Felt, ContractState>,
    kind: HashKind,
    chm: Map<Felt, Felt>,
    nonm: Map<Felt, Felt>,
    stum: Map<Felt, Seq<(Felt, Felt)>>,
    accessed: Seq<Felt>,
    gm: Seq<(Felt, LeafImage)>,
)
    requires
        forall|t: int, u: int| 0 <= t < u < accessed.len() ==> accessed[t] != accessed[u],
        forall|t: int|
            0 <= t < accessed.len() ==> diff_touches(chm, nonm, stum, #[trigger] accessed[t]),
        forall|a: Felt| diff_touches(chm, nonm, stum, a) ==> accessed.contains(a),
        gm.len() == accessed.len(),
        forall|t: int|
            0 <= t < accessed.len() ==> #[trigger] gm[t] == (
                accessed[t],
                image_of(updated_state_at(oldmap, kind, chm, nonm, stum, accessed[t])),
            ),
    ensures
        apply_mods(images_of(oldmap), gm) == images_of(
            contract_map_after(oldmap, kind, chm, nonm, stum),
        ),
{
    let glob_leaves = images_of(oldmap);
    let nm = contract_map_after(oldmap, kind, chm, nonm, stum);
    assert(forall|t: int, u: int| 0 <= t < u < gm.len() ==> gm[t].0 != gm[u].0) by {
        assert(forall|t: int| 0 <= t < gm.len() ==> #[trigger] gm[t].0 == accessed[t]);
    };
    assert_maps_equal!(apply_mods(glob_leaves, gm), images_of(nm), k => {
        lemma_apply_mods_lookup(glob_leaves, gm, k);
        if diff_touches(chm, nonm, stum, k) {
            assert(accessed.contains(k));
            let t = choose|t: int| 0 <= t < accessed.len() && accessed[t] == k;
            assert(gm[t] == (k, image_of(updated_state_at(oldmap, kind, chm, nonm, stum, k))));
            assert(mod_entry(gm, k) is Some);
            let t2 = choose|t2: int| 0 <= t2 < gm.len() && gm[t2].0 == k;
            assert(accessed[t2] == k);
            assert(t2 == t);
            assert(mod_entry(gm, k) == Some(
                image_of(updated_state_at(oldmap, kind, chm, nonm, stum, k)),
            ));
        } else {
            assert(mod_entry(gm, k) is None) by {
                if exists|t: int| 0 <= t < gm.len() && gm[t].0 == k {
                    let t = choose|t: int| 0 <= t < gm.len() && gm[t].0 == k;
                    assert(accessed[t] == k);
                    assert(diff_touches(chm, nonm, stum, accessed[t]));
                }
            };
            assert(images_of(oldmap).dom().contains(k) == oldmap.dom().contains(k));
        }
    });
}

/// Applying the class modification list to the class leaf map yields
/// exactly the images of the updated class map.
proof fn lemma_class_images(
    old_class: Map<Felt, ContractClassLeaf>,
    s: Seq<(Felt, Felt)>,
    cim: Seq<(Felt, LeafImage)>,
)
    requires
        pair_keys_distinct(s),
        cim == typed_images(class_mods_of(s)),
    ensures
        apply_mods(images_of(old_class), cim) == images_of(class_map_after(old_class, pair_map(s))),
{
    let leaves = images_of(old_class);
    let ccm = pair_map(s);
    let nm = class_map_after(old_class, ccm);
    assert(forall|t: int, u: int| 0 <= t < u < cim.len() ==> cim[t].0 != cim[u].0) by {
        assert(forall|t: int| 0 <= t < cim.len() ==> #[trigger] cim[t].0 == s[t].0);
    };
    assert_maps_equal!(apply_mods(leaves, cim), images_of(nm), k => {
        lemma_apply_mods_lookup(leaves, cim, k);
        if ccm.dom().contains(k) {
            lemma_pair_map_member(s, k);
            let t = choose|t: int| 0 <= t < s.len() && #[trigger] s[t].0 == k;
            lemma_pair_map_index(s, t);
            assert(cim[t] == (k, image_of(ContractClassLeaf { compiled_class_hash: ccm[k] })));
            assert(mod_entry(cim, k) is Some);
            let t2 = choose|t2: int| 0 <= t2 < cim.len() && cim[t2].0 == k;
            assert(s[t2].0 == k);
            assert(t2 == t);
        } else {
            assert(mod_entry(cim, k) is None) by {
                if exists|t: int| 0 <= t < cim.len() && cim[t].0 == k {
                    let t = choose|t: int| 0 <= t < cim.len() && cim[t].0 == k;
                    lemma_pair_map_index(s, t);
                }
            };
            assert(images_of(old_class).dom().contains(k) == old_class.dom().contains(k));
        }
    });
}

/// Whether `v` holds `x`.
fn vec_contains_felt(v: &Vec<Felt>, x: &Felt) -> (r: bool)
    ensures
        r == v@.contains(*x),
{
    let mut i: usize = 0;
    while i < v.len()
        invariant
            i <= v@.len(),
            forall|t: int| 0 <= t < i ==> v@[t] != *x,
        decreases v@.len() - i,
    {
        if v[i] == *x {
            return true;
        }
        i += 1;
    }
    false
}

impl SharedState {
    /// The snapshot is represented in `store`: both trees are well formed,
    /// their leaf maps are the images of the typed maps, and every
    /// contract's storage tree is itself represented.
    pub open spec fn wf(&self, store: Map<Felt, Seq<u8>>, kind: HashKind) -> bool {
        &&& self.contract_states.height == CONTRACT_ADDRESS_BITS
        &&& self.contract_states.leaves@ == images_of(self.contract_map@)
        &&& self.contract_states.wf(store, kind)
        &&& forall|a: Felt| #[trigger]
            self.contract_map@.dom().contains(a)
                ==> self.contract_map@[a].storage_commitment_tree.height
                == CONTRACT_STATES_COMMITMENT_TREE_HEIGHT
                && self.contract_map@[a].storage_commitment_tree.wf(store, kind)
        &&& match self.contract_classes {
            Some(t) => t.height == COMPILED_CLASS_HASH_COMMITMENT_TREE_HEIGHT && t.leaves@
                == images_of(self.class_map@) && t.wf(store, HashKind::Poseidon),
            None => self.class_map@ == Map::<Felt, ContractClassLeaf>::empty(),
        }
    }

    /// The version tag of the global-root composition.
    pub fn state_version() -> (r: Felt)
        ensures
            r == state_version(),
    {
        let v: Vec<u8> = vec![
            0u8, 0u8, 0u8, 0u8, 0u8, 0u8, 0u8, 0u8, 0u8, 0u8, 0u8, 0u8, 0u8, 0u8, 0u8, 0x53u8,
            0x54u8, 0x41u8, 0x52u8, 0x4bu8, 0x4eu8, 0x45u8, 0x54u8, 0x5fu8, 0x53u8, 0x54u8, 0x41u8,
            0x54u8, 0x45u8, 0x5fu8, 0x56u8, 0x30u8,
        ];
        proof {
            assert(v@ =~= state_version_bytes());
        }
        Felt::from_bytes_be(v.as_slice())
    }

    /// Returns an empty contract-state tree: every address holds the empty
    /// contract state, nothing is written to storage.
    pub fn create_empty_contract_states<S: Storage>(ffc: &mut FactFetchingContext<S>) -> (r: Result<
        PatriciaTree,
        TreeError,
    >)
        ensures
            final (ffc).hash_kind == old(ffc).hash_kind && final (ffc).storage.contents() == old(ffc).storage.contents(),
            match r {
                Ok(t) => t.root == felt_zero() && t.height == CONTRACT_ADDRESS_BITS && t.leaves@
                    == Map::<Felt, LeafImage>::empty(),
                Err(_) => false,
            },
    {
        let default = ContractState::empty(CONTRACT_STATES_COMMITMENT_TREE_HEIGHT);
        PatriciaTree::empty_tree::<S, ContractState>(
            &mut ffc.storage,
            ffc.hash_kind,
            CONTRACT_ADDRESS_BITS,
            &default,
        )
    }

    /// Returns an empty contract-class tree.
    fn create_empty_contract_class_tree<S: Storage>(ffc: &mut FactFetchingContext<S>) -> (r: Result<
        PatriciaTree,
        TreeError,
    >)
        ensures
            final (ffc).hash_kind == old(ffc).hash_kind && final (ffc).storage.contents() == old(ffc).storage.contents(),
            match r {
                Ok(t) => t.root == felt_zero() && t.height
                    == COMPILED_CLASS_HASH_COMMITMENT_TREE_HEIGHT && t.leaves@ == Map::<
                    Felt,
                    LeafImage,
                >::empty(),
                Err(_) => false,
            },
    {
        let default = ContractClassLeaf::empty();
        PatriciaTree::empty_tree::<S, ContractClassLeaf>(
            &mut ffc.storage,
            HashKind::Poseidon,
            COMPILED_CLASS_HASH_COMMITMENT_TREE_HEIGHT,
            &default,
        )
    }

    /// Returns an empty state, as it stands before the very first block:
    /// both trees empty, both with their sentinel root, nothing stored.
    pub fn empty<S: Storage>(
        ffc: &mut FactFetchingContext<S>,
        sequencer_address: Felt,
        use_kzg_da: bool,
    ) -> (r: Result<SharedState, TreeError>)
        ensures
            final (ffc).hash_kind == old(ffc).hash_kind && final (ffc).storage.contents() == old(ffc).storage.contents(),
            match r {
                Ok(s) => s.wf(final (ffc).storage.contents(), final (ffc).hash_kind)
                    && s.contract_states.root == felt_zero() && spec_class_root(s) == felt_zero()
                    && s.contract_classes is Some && s.contract_map@ == Map::<
                    Felt,
                    ContractState,
                >::empty() && s.class_map@ == Map::<Felt, ContractClassLeaf>::empty()
                    && s.block_info == (BlockInfo {
                    block_number: 0,
                    block_timestamp: 0,
                    sequencer_address,
                    use_kzg_da,
                }),
                Err(_) => false,
            },
    {
        let empty_contract_states = match Self::create_empty_contract_states(ffc) {
            Ok(t) => t,
            Err(e) => {
                proof {
                    assert(false);
                }
                return Err(e);
            },
        };
        let empty_contract_classes = match Self::create_empty_contract_class_tree(ffc) {
            Ok(t) => t,
            Err(e) => {
                proof {
                    assert(false);
                }
                return Err(e);
            },
        };
        let s = SharedState {
            contract_states: empty_contract_states,
            contract_classes: Some(empty_contract_classes),
            block_info: BlockInfo::empty(sequencer_address, use_kzg_da),
            contract_map: Ghost(Map::empty()),
            class_map: Ghost(Map::empty()),
        };
        proof {
            assert(images_of(s.contract_map@) =~= Map::<Felt, LeafImage>::empty());
            assert(images_of(s.class_map@) =~= Map::<Felt, LeafImage>::empty());
        }
        Ok(s)
    }

    /// Returns an empty state of a ledger that predates the contract-class
    /// tree: no class tree at all.  On such a state the global root falls
    /// back to the contract-state root, and a compiled-class diff is a
    /// contract violation.
    pub fn empty_legacy<S: Storage>(
        ffc: &mut FactFetchingContext<S>,
        sequencer_address: Felt,
        use_kzg_da: bool,
    ) -> (r: Result<SharedState, TreeError>)
        ensures
            final (ffc).hash_kind == old(ffc).hash_kind && final (ffc).storage.contents() == old(
                ffc,
            ).storage.contents(),
            match r {
                Ok(s) => s.wf(final (ffc).storage.contents(), final (ffc).hash_kind)
                    && s.contract_states.root == felt_zero() && s.contract_classes is None
                    && s.contract_map@ == Map::<Felt, ContractState>::empty() && s.class_map@
                    == Map::<Felt, ContractClassLeaf>::empty() && s.block_info == (BlockInfo {
                    block_number: 0,
                    block_timestamp: 0,
                    sequencer_address,
                    use_kzg_da,
                }),
                Err(_) => false,
            },
    {
        let empty_contract_states = match Self::create_empty_contract_states(ffc) {
            Ok(t) => t,
            Err(e) => {
                proof {
                    assert(false);
                }
                return Err(e);
            },
        };
        let s = SharedState {
            contract_states: empty_contract_states,
            contract_classes: None,
            block_info: BlockInfo::empty(sequencer_address, use_kzg_da),
            contract_map: Ghost(Map::empty()),
            class_map: Ghost(Map::empty()),
        };
        proof {
            assert(images_of(s.contract_map@) =~= Map::<Felt, LeafImage>::empty());
        }
        Ok(s)
    }

    /// Returns the state's contract-class tree if it exists, else a fresh
    /// empty one.
    pub fn get_contract_class_tree<S: Storage>(&self, ffc: &mut FactFetchingContext<S>) -> (r:
        Result<PatriciaTree, TreeError>)
        ensures
            final (ffc).hash_kind == old(ffc).hash_kind && final (ffc).storage.contents() == old(ffc).storage.contents(),
            match r {
                Ok(t) => match self.contract_classes {
                    Some(held) => t == held,
                    None => t.root == felt_zero() && t.height
                        == COMPILED_CLASS_HASH_COMMITMENT_TREE_HEIGHT && t.leaves@ == Map::<
                        Felt,
                        LeafImage,
                    >::empty(),
                },
                Err(_) => false,
            },
    {
        match &self.contract_classes {
            Some(tree) => Ok(*tree),
            None => Self::create_empty_contract_class_tree(ffc),
        }
    }

    /// Returns the global state root: zero for a wholly empty state, the
    /// contract-state root alone while the class tree is absent or empty,
    /// and the Poseidon chain of the version tag and the two roots
    /// otherwise.  Which branch skips hashing is load-bearing for
    /// compatibility and preserved exactly.
    pub fn get_global_state_root(&self) -> (r: Felt)
        ensures
            r == global_root_spec(self.contract_states.root, spec_class_root(*self)),
    {
        let contract_states_root = self.contract_states.root;
        let contract_classes_root = match &self.contract_classes {
            Some(tree) => tree.root,
            None => Felt::zero(),
        };
        if contract_states_root.is_zero() && contract_classes_root.is_zero() {
            // The shared state is empty.
            return Felt::zero();
        }
        if contract_classes_root.is_zero() {
            // The contract-class state is empty: the global root is the
            // contract-state root, for backward compatibility.
            return contract_states_root;
        }
        let parts: Vec<Felt> = vec![
            Self::state_version(),
            contract_states_root,
            contract_classes_root,
        ];
        proof {
            assert(parts@ =~= seq![state_version(), contract_states_root, contract_classes_root]);
        }
        hash_chain(&parts)
    }

    /// Applies one batch of state changes and returns the new snapshot; the
    /// receiver is unchanged, so readers holding it keep its roots.  The
    /// four diff maps arrive as key/value lists, each key bound at most
    /// once.  The union of the three address-keyed lists is the minimal
    /// read set: each touched contract is fetched once, updated and
    /// re-hashed, and each of the two trees is updated in one batched call.
    /// A compiled-class diff with no class tree to record it in is a
    /// contract violation.
    #[verifier::loop_isolation(false)]
    #[verifier::rlimit(100)]
    pub fn apply_state_updates<S: Storage>(
        &self,
        ffc: &mut FactFetchingContext<S>,
        address_to_class_hash: &Vec<(Felt, Felt)>,
        address_to_nonce: &Vec<(Felt, Felt)>,
        class_hash_to_compiled_class_hash: &Vec<(Felt, Felt)>,
        storage_updates: &Vec<(Felt, Vec<(Felt, Felt)>)>,
        block_info: BlockInfo,
    ) -> (r: Result<SharedState, TreeError>)
        requires
            self.wf(old(ffc).storage.contents(), old(ffc).hash_kind),
            pair_keys_distinct(address_to_class_hash@),
            pair_keys_distinct(address_to_nonce@),
            pair_keys_distinct(class_hash_to_compiled_class_hash@),
            forall|i: int, j: int|
                0 <= i < j < storage_updates@.len() ==> storage_updates@[i].0
                    != storage_updates@[j].0,
            forall|i: int|
                0 <= i < storage_updates@.len() ==> pair_keys_distinct(
                    #[trigger] storage_updates@[i].1@,
                ),
            forall|i: int|
                0 <= i < address_to_class_hash@.len() ==> fits_below(
                    #[trigger] address_to_class_hash@[i].0,
                    CONTRACT_ADDRESS_BITS as int,
                ),
            forall|i: int|
                0 <= i < address_to_nonce@.len() ==> fits_below(
                    #[trigger] address_to_nonce@[i].0,
                    CONTRACT_ADDRESS_BITS as int,
                ),
            forall|i: int|
                0 <= i < storage_updates@.len() ==> fits_below(
                    #[trigger] storage_updates@[i].0,
                    CONTRACT_ADDRESS_BITS as int,
                ),
            forall|i: int|
                0 <= i < class_hash_to_compiled_class_hash@.len() ==> fits_below(
                    #[trigger] class_hash_to_compiled_class_hash@[i].0,
                    COMPILED_CLASS_HASH_COMMITMENT_TREE_HEIGHT as int,
                ),
            forall|i: int, j: int|
                0 <= i < storage_updates@.len() && 0 <= j < storage_updates@[i].1@.len()
                    ==> fits_below(
                    #[trigger] storage_updates@[i].1@[j].0,
                    CONTRACT_STATES_COMMITMENT_TREE_HEIGHT as int,
                ),
        ensures
            final (ffc).hash_kind == old(ffc).hash_kind,
            store_extends(final (ffc).storage.contents(), old(ffc).storage.contents()),
            match r {
                Ok(ns) => {
                    let kind = old(ffc).hash_kind;
                    let chm = pair_map(address_to_class_hash@);
                    let nonm = pair_map(address_to_nonce@);
                    let ccm = pair_map(class_hash_to_compiled_class_hash@);
                    let stum = storage_update_map(storage_updates@);
                    &&& ns.block_info == block_info
                    &&& ns.contract_map@ == contract_map_after(
                        self.contract_map@,
                        kind,
                        chm,
                        nonm,
                        stum,
                    )
                    &&& (ns.contract_classes is Some) == (self.contract_classes is Some)
                    &&& ns.class_map@ == (if self.contract_classes is Some {
                        class_map_after(self.class_map@, ccm)
                    } else {
                        self.class_map@
                    })
                    &&& ns.wf(final (ffc).storage.contents(), kind)
                    &&& ns.contract_states.root == root_of(
                        kind,
                        CONTRACT_ADDRESS_BITS as nat,
                        images_of(ns.contract_map@),
                    )
                    &&& match ns.contract_classes {
                        Some(t) => t.root == root_of(
                            HashKind::Poseidon,
                            COMPILED_CLASS_HASH_COMMITMENT_TREE_HEIGHT as nat,
                            images_of(ns.class_map@),
                        ),
                        None => true,
                    }
                },
                Err(e) => e == TreeError::ContractViolation || e == TreeError::StorageFailure || e
                    == TreeError::FactConflict,
            },
            r == Err::<SharedState, TreeError>(TreeError::ContractViolation) <==> (
            self.contract_classes is None && class_hash_to_compiled_class_hash@.len() > 0),
            (address_to_class_hash@.len() == 0 && address_to_nonce@.len() == 0
                && class_hash_to_compiled_class_hash@.len() == 0 && storage_updates@.len() == 0)
                ==> match r {
                Ok(ns) => ns.contract_states.root == self.contract_states.root && spec_class_root(
                    ns,
                ) == spec_class_root(*self),
                Err(_) => false,
            },
    {
        let kind = ffc.hash_kind;
        let ghost old_store = ffc.storage.contents();
        let ghost oldmap = self.contract_map@;
        let ghost glob_leaves = self.contract_states.leaves@;
        let ghost chm = pair_map(address_to_class_hash@);
        let ghost nonm = pair_map(address_to_nonce@);
        let ghost ccm = pair_map(class_hash_to_compiled_class_hash@);
        let ghost stum = storage_update_map(storage_updates@);

        let has_classes = match &self.contract_classes {
            Some(_) => true,
            None => false,
        };
        if !has_classes && class_hash_to_compiled_class_hash.len() > 0 {
            return Err(TreeError::ContractViolation);
        }

        // The minimal read set: the union of the touched addresses.
        let mut accessed: Vec<Felt> = Vec::new();
        let mut i: usize = 0;
        while i < address_to_class_hash.len()
            invariant
                i <= address_to_class_hash@.len(),
                accessed@.len() <= i,
                forall|t: int, u: int| 0 <= t < u < accessed@.len() ==> accessed@[t] != accessed@[u],
                forall|t: int|
                    0 <= t < accessed@.len() ==> diff_touches(chm, nonm, stum, #[trigger] accessed@[t])
                        && fits_below(accessed@[t], CONTRACT_ADDRESS_BITS as int),
                forall|t: int| 0 <= t < i ==> accessed@.contains(#[trigger] address_to_class_hash@[t].0),
            decreases address_to_class_hash@.len() - i,
        {
            let k = address_to_class_hash[i].0;
            let ghost prev = accessed@;
            if !vec_contains_felt(&accessed, &k) {
                accessed.push(k);
            }
            proof {
                lemma_pair_map_index(address_to_class_hash@, i as int);
                lemma_push_keeps_contains(prev, k);
                assert(accessed@.contains(k));
            }
            i += 1;
        }
        let mut i: usize = 0;
        while i < address_to_nonce.len()
            invariant
                i <= address_to_nonce@.len(),
                accessed@.len() <= address_to_class_hash@.len() + i,
                forall|t: int, u: int| 0 <= t < u < accessed@.len() ==> accessed@[t] != accessed@[u],
                forall|t: int|
                    0 <= t < accessed@.len() ==> diff_touches(chm, nonm, stum, #[trigger] accessed@[t])
                        && fits_below(accessed@[t], CONTRACT_ADDRESS_BITS as int),
                forall|t: int|
                    0 <= t < address_to_class_hash@.len() ==> accessed@.contains(
                        #[trigger] address_to_class_hash@[t].0,
                    ),
                forall|t: int| 0 <= t < i ==> accessed@.contains(#[trigger] address_to_nonce@[t].0),
            decreases address_to_nonce@.len() - i,
        {
            let k = address_to_nonce[i].0;
            let ghost prev = accessed@;
            if !vec_contains_felt(&accessed, &k) {
                accessed.push(k);
            }
            proof {
                lemma_pair_map_index(address_to_nonce@, i as int);
                lemma_push_keeps_contains(prev, k);
                assert(accessed@.contains(k));
            }
            i += 1;
        }
        let mut i: usize = 0;
        while i < storage_updates.len()
            invariant
                i <= storage_updates@.len(),
                accessed@.len() <= address_to_class_hash@.len() + address_to_nonce@.len() + i,
                forall|t: int, u: int| 0 <= t < u < accessed@.len() ==> accessed@[t] != accessed@[u],
                forall|t: int|
                    0 <= t < accessed@.len() ==> diff_touches(chm, nonm, stum, #[trigger] accessed@[t])
                        && fits_below(accessed@[t], CONTRACT_ADDRESS_BITS as int),
                forall|t: int|
                    0 <= t < address_to_class_hash@.len() ==> accessed@.contains(
                        #[trigger] address_to_class_hash@[t].0,
                    ),
                forall|t: int|
                    0 <= t < address_to_nonce@.len() ==> accessed@.contains(
                        #[trigger] address_to_nonce@[t].0,
                    ),
                forall|t: int| 0 <= t < i ==> accessed@.contains(#[trigger] storage_updates@[t].0),
            decreases storage_updates@.len() - i,
        {
            let k = storage_updates[i].0;
            let ghost prev = accessed@;
            if !vec_contains_felt(&accessed, &k) {
                accessed.push(k);
            }
            proof {
                crate::diff::lemma_storage_map_index(storage_updates@, i as int);
                lemma_push_keeps_contains(prev, k);
                assert(accessed@.contains(k));
            }
            i += 1;
        }
        proof {
            assert forall|a: Felt| diff_touches(chm, nonm, stum, a) implies accessed@.contains(
                a,
            ) by {
                if chm.dom().contains(a) {
                    lemma_pair_map_member(address_to_class_hash@, a);
                    let t = choose|t: int|
                        0 <= t < address_to_class_hash@.len() && #[trigger] address_to_class_hash@[t].0
                            == a;
                    assert(accessed@.contains(address_to_class_hash@[t].0));
                } else if nonm.dom().contains(a) {
                    lemma_pair_map_member(address_to_nonce@, a);
                    let t = choose|t: int|
                        0 <= t < address_to_nonce@.len() && #[trigger] address_to_nonce@[t].0 == a;
                    assert(accessed@.contains(address_to_nonce@[t].0));
                } else {
                    lemma_storage_map_member(storage_updates@, a);
                    let t = choose|t: int|
                        0 <= t < storage_updates@.len() && #[trigger] storage_updates@[t].0 == a;
                    assert(accessed@.contains(storage_updates@[t].0));
                }
            };
        }

        // Batch-fetch the current state of every touched contract.
        let current = match self.contract_states.get_leaves::<S, ContractState>(
            &ffc.storage,
            kind,
            &accessed,
        ) {
            Ok(v) => v,
            Err(e) => {
                proof {
                    if e == TreeError::DecodeFailure {
                        let t = choose|t: int|
                            0 <= t < accessed@.len() && glob_leaves.dom().contains(
                                #[trigger] accessed@[t],
                            ) && ContractState::parse_spec(glob_leaves[accessed@[t]].bytes) is None;
                        lemma_parse_of_serialized(oldmap[accessed@[t]]);
                        assert(false);
                    }
                }
                return Err(e);
            },
        };

        // Update every touched contract state with its own writes.
        let mut global_mods: Vec<(Felt, ContractState)> = Vec::new();
        let mut i: usize = 0;
        while i < accessed.len()
            invariant
                i <= accessed@.len(),
                global_mods@.len() == i,
                store_extends(ffc.storage.contents(), old_store),
                ffc.hash_kind == kind,
                forall|t: int|
                    0 <= t < i ==> #[trigger] global_mods@[t] == (
                        accessed@[t],
                        updated_state_at(oldmap, kind, chm, nonm, stum, accessed@[t]),
                    ),
                forall|t: int|
                    0 <= t < i ==> (#[trigger] global_mods@[t]).1.storage_commitment_tree.wf(
                        ffc.storage.contents(),
                        kind,
                    ),
            decreases accessed@.len() - i,
        {
            let a = accessed[i];
            let mut cs = current[i];
            proof {
                assert(leaf_read_ok(glob_leaves, a, cs));
                if oldmap.dom().contains(a) {
                    assert(images_of(oldmap).dom().contains(a));
                    assert(images_of(oldmap)[a] == image_of(oldmap[a]));
                    lemma_parse_of_serialized(oldmap[a]);
                } else {
                    assert(!images_of(oldmap).dom().contains(a));
                }
            }
            cs.storage_commitment_tree.leaves = Ghost(
                base_state_at(oldmap, a).storage_commitment_tree.leaves@,
            );
            proof {
                assert(cs == base_state_at(oldmap, a));
                if oldmap.dom().contains(a) {
                    lemma_rep_extends(
                        old_store,
                        ffc.storage.contents(),
                        kind,
                        oldmap[a].storage_commitment_tree.root,
                        oldmap[a].storage_commitment_tree.height as nat,
                        oldmap[a].storage_commitment_tree.leaves@,
                    );
                }
                assert(cs.storage_commitment_tree.wf(ffc.storage.contents(), kind));
            }
            let nonce_opt = lookup_pair(address_to_nonce, &a);
            let ch_opt = lookup_pair(address_to_class_hash, &a);
            let st_idx = lookup_storage_updates(storage_updates, &a);
            let empty_updates: Vec<(Felt, Felt)> = Vec::new();
            let updates: &Vec<(Felt, Felt)> = match st_idx {
                Some(j) => &storage_updates[j].1,
                None => &empty_updates,
            };
            proof {
                assert(updates@ == (if stum.dom().contains(a) {
                    stum[a]
                } else {
                    Seq::<(Felt, Felt)>::empty()
                }));
            }
            let ghost pre_store = ffc.storage.contents();
            let ncs = match cs.update(&mut ffc.storage, kind, updates, nonce_opt, ch_opt) {
                Ok(x) => x,
                Err(e) => {
                    proof {
                        lemma_store_extends_trans(old_store, pre_store, ffc.storage.contents());
                    }
                    return Err(e);
                },
            };
            proof {
                lemma_store_extends_trans(old_store, pre_store, ffc.storage.contents());
                assert(ncs == updated_state_at(oldmap, kind, chm, nonm, stum, a));
                assert forall|t: int|
                    0 <= t < global_mods@.len() implies (#[trigger] global_mods@[t]).1.storage_commitment_tree.wf(
                    ffc.storage.contents(),
                    kind,
                ) by {
                    lemma_rep_extends(
                        pre_store,
                        ffc.storage.contents(),
                        kind,
                        global_mods@[t].1.storage_commitment_tree.root,
                        global_mods@[t].1.storage_commitment_tree.height as nat,
                        global_mods@[t].1.storage_commitment_tree.leaves@,
                    );
                };
            }
            global_mods.push((a, ncs));
            i += 1;
        }

        // One batched update of the global contract-state tree.
        proof {
            lemma_rep_extends(
                old_store,
                ffc.storage.contents(),
                kind,
                self.contract_states.root,
                CONTRACT_ADDRESS_BITS as nat,
                glob_leaves,
            );
        }
        let ghost pre_global = ffc.storage.contents();
        let new_contract_states = match self.contract_states.update::<S, ContractState>(
            &mut ffc.storage,
            kind,
            &global_mods,
        ) {
            Ok(t) => t,
            Err(e) => {
                proof {
                    lemma_store_extends_trans(old_store, pre_global, ffc.storage.contents());
                }
                return Err(e);
            },
        };
        let ghost post_global = ffc.storage.contents();
        let ghost nm = contract_map_after(oldmap, kind, chm, nonm, stum);
        let ghost gm = typed_images(global_mods@);
        proof {
            lemma_store_extends_trans(old_store, pre_global, post_global);
            assert forall|t: int| 0 <= t < accessed@.len() implies #[trigger] gm[t] == (
                accessed@[t],
                image_of(updated_state_at(oldmap, kind, chm, nonm, stum, accessed@[t])),
            ) by {
                assert(global_mods@[t] == (
                    accessed@[t],
                    updated_state_at(oldmap, kind, chm, nonm, stum, accessed@[t]),
                ));
            };
            lemma_global_images(oldmap, kind, chm, nonm, stum, accessed@, gm);
        }

        // The contract-class tree, where one exists.
        let ghost final_class_map = if self.contract_classes is Some {
            class_map_after(self.class_map@, ccm)
        } else {
            self.class_map@
        };
        let new_classes: Option<PatriciaTree>;
        match &self.contract_classes {
            Some(tree) => {
                let mut class_mods: Vec<(Felt, ContractClassLeaf)> = Vec::new();
                let mut j: usize = 0;
                while j < class_hash_to_compiled_class_hash.len()
                    invariant
                        j <= class_hash_to_compiled_class_hash@.len(),
                        class_mods@ == class_mods_of(class_hash_to_compiled_class_hash@.take(j as int)),
                    decreases class_hash_to_compiled_class_hash@.len() - j,
                {
                    let p = &class_hash_to_compiled_class_hash[j];
                    class_mods.push((p.0, ContractClassLeaf::create(p.1)));
                    proof {
                        assert(class_mods@ =~= class_mods_of(
                            class_hash_to_compiled_class_hash@.take(j + 1),
                        ));
                    }
                    j += 1;
                }
                proof {
                    assert(class_hash_to_compiled_class_hash@.take(
                        class_hash_to_compiled_class_hash@.len() as int,
                    ) =~= class_hash_to_compiled_class_hash@);
                    lemma_rep_extends(
                        old_store,
                        ffc.storage.contents(),
                        HashKind::Poseidon,
                        tree.root,
                        COMPILED_CLASS_HASH_COMMITMENT_TREE_HEIGHT as nat,
                        tree.leaves@,
                    );
                    assert forall|t: int| 0 <= t < class_mods@.len() implies fits_below(
                        #[trigger] class_mods@[t].0,
                        COMPILED_CLASS_HASH_COMMITMENT_TREE_HEIGHT as int,
                    ) by {
                        assert(class_mods@[t].0 == class_hash_to_compiled_class_hash@[t].0);
                    };
                    assert forall|t: int, u: int| 0 <= t < u < class_mods@.len() implies class_mods@[t].0
                        != class_mods@[u].0 by {
                        assert(class_mods@[t].0 == class_hash_to_compiled_class_hash@[t].0);
                        assert(class_mods@[u].0 == class_hash_to_compiled_class_hash@[u].0);
                    };
                }
                let ghost pre_class = ffc.storage.contents();
                let t2 = match tree.update::<S, ContractClassLeaf>(
                    &mut ffc.storage,
                    HashKind::Poseidon,
                    &class_mods,
                ) {
                    Ok(t) => t,
                    Err(e) => {
                        proof {
                            lemma_store_extends_trans(old_store, pre_class, ffc.storage.contents());
                        }
                        return Err(e);
                    },
                };
                proof {
                    lemma_store_extends_trans(old_store, pre_class, ffc.storage.contents());
                    lemma_class_images(
                        self.class_map@,
                        class_hash_to_compiled_class_hash@,
                        typed_images(class_mods@),
                    );
                }
                new_classes = Some(t2);
            },
            None => {
                new_classes = None;
            },
        }

        // Assemble the new snapshot.
        let ns = SharedState {
            contract_states: new_contract_states,
            contract_classes: new_classes,
            block_info,
            contract_map: Ghost(nm),
            class_map: Ghost(final_class_map),
        };
        proof {
            lemma_rep_extends(
                post_global,
                ffc.storage.contents(),
                kind,
                new_contract_states.root,
                CONTRACT_ADDRESS_BITS as nat,
                new_contract_states.leaves@,
            );
            assert forall|a: Felt| #[trigger] nm.dom().contains(a) implies
                nm[a].storage_commitment_tree.height == CONTRACT_STATES_COMMITMENT_TREE_HEIGHT
                    && nm[a].storage_commitment_tree.wf(ffc.storage.contents(), kind) by {
                if diff_touches(chm, nonm, stum, a) {
                    assert(accessed@.contains(a));
                    let t = choose|t: int| 0 <= t < accessed@.len() && accessed@[t] == a;
                    assert(global_mods@[t] == (a, nm[a]));
                    lemma_rep_extends(
                        pre_global,
                        ffc.storage.contents(),
                        kind,
                        nm[a].storage_commitment_tree.root,
                        nm[a].storage_commitment_tree.height as nat,
                        nm[a].storage_commitment_tree.leaves@,
                    );
                } else {
                    assert(nm[a] == oldmap[a]);
                    lemma_rep_extends(
                        old_store,
                        ffc.storage.contents(),
                        kind,
                        oldmap[a].storage_commitment_tree.root,
                        oldmap[a].storage_commitment_tree.height as nat,
                        oldmap[a].storage_commitment_tree.leaves@,
                    );
                }
            };
            assert(ns.wf(ffc.storage.contents(), kind));
        }
        Ok(ns)
    }
}

} // verus!
