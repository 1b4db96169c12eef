use fact_state::contract_state::ContractState;
use fact_state::errors::TreeError;
use fact_state::felt::Felt;
use fact_state::hashing::HashKind;
use fact_state::leaf::LeafFact;
use fact_state::shared_state::{BlockInfo, FactFetchingContext, SharedState};
use fact_state::simple_leaf::SimpleLeafFact;
use fact_state::storage::DictStorage;

fn felt(n: u64) -> Felt {
    Felt { l0: n, l1: 0, l2: 0, l3: 0 }
}

fn pedersen_ffc() -> FactFetchingContext<DictStorage> {
    FactFetchingContext::new(DictStorage::new(), HashKind::Pedersen)
}

fn block(n: u64) -> BlockInfo {
    BlockInfo { block_number: n, block_timestamp: 0, sequencer_address: felt(0), use_kzg_da: false }
}

fn no_pairs() -> Vec<(Felt, Felt)> {
    Vec::new()
}

fn no_storage() -> Vec<(Felt, Vec<(Felt, Felt)>)> {
    Vec::new()
}

#[test]
fn test_is_empty() {
    let contract_state = ContractState::empty(251);
    assert!(contract_state.is_empty());
}

#[test]
fn fresh_contract_state_hashes_to_empty_sentinel() {
    let contract_state = ContractState::empty(251);
    assert!(contract_state.leaf_digest().is_zero());
}

#[test]
fn empty_state_has_global_root_zero() {
    let mut ffc = pedersen_ffc();
    let state = SharedState::empty(&mut ffc, felt(0), false).unwrap();
    assert!(state.get_global_state_root().is_zero());
    // Nothing was materialized for the all-empty state.
    assert!(ffc.storage.slots.is_empty());
}

#[test]
fn legacy_global_root_is_state_root_verbatim() {
    // A state without a class tree: the global root equals the
    // contract-state root, with no hashing at all.
    let mut ffc = pedersen_ffc();
    let state = SharedState::empty_legacy(&mut ffc, felt(0), false).unwrap();
    let state = state
        .apply_state_updates(
            &mut ffc,
            &no_pairs(),
            &vec![(felt(5), felt(1))],
            &no_pairs(),
            &no_storage(),
            block(1),
        )
        .unwrap();
    assert!(!state.contract_states.root.is_zero());
    assert_eq!(state.get_global_state_root(), state.contract_states.root);
}

#[test]
fn composed_global_root_matches_reference() {
    // Both trees non-empty: the global root is the Poseidon chain of the
    // version tag and the two roots.
    let mut ffc = pedersen_ffc();
    let state = SharedState::empty(&mut ffc, felt(0), false).unwrap();
    let state = state
        .apply_state_updates(
            &mut ffc,
            &no_pairs(),
            &vec![(felt(5), felt(1))],
            &vec![(felt(77), felt(88))],
            &no_storage(),
            block(1),
        )
        .unwrap();
    let state_root = state.contract_states.root;
    let class_root = match &state.contract_classes {
        Some(t) => t.root,
        None => panic!("class tree must stay present"),
    };
    assert!(!state_root.is_zero());
    assert!(!class_root.is_zero());
    let version = starknet_crypto::Felt::from_bytes_be_slice(b"STARKNET_STATE_V0");
    let expected = starknet_crypto::poseidon_hash_many(&[
        version,
        starknet_crypto::Felt::from_bytes_be_slice(&state_root.to_bytes_be()),
        starknet_crypto::Felt::from_bytes_be_slice(&class_root.to_bytes_be()),
    ]);
    assert_eq!(
        state.get_global_state_root().to_bytes_be(),
        expected.to_bytes_be().to_vec()
    );
}

#[test]
fn end_to_end_write_and_read_back() {
    // From an empty state, set address A's nonce to 1 and storage key K to
    // value V; the global root moves off zero and the written cell reads
    // back through the committed trees.
    let a = felt(1234);
    let k = felt(5);
    let v = felt(6);
    let mut ffc = pedersen_ffc();
    let state = SharedState::empty(&mut ffc, felt(0), false).unwrap();
    let state = state
        .apply_state_updates(
            &mut ffc,
            &no_pairs(),
            &vec![(a, felt(1))],
            &no_pairs(),
            &vec![(a, vec![(k, v)])],
            block(1),
        )
        .unwrap();
    assert!(!state.get_global_state_root().is_zero());
    let cs: ContractState = state
        .contract_states
        .get_leaf(&ffc.storage, HashKind::Pedersen, &a)
        .unwrap();
    assert_eq!(cs.nonce, felt(1));
    let cell: SimpleLeafFact = cs
        .storage_commitment_tree
        .get_leaf(&ffc.storage, HashKind::Pedersen, &k)
        .unwrap();
    assert_eq!(cell.value, v);
}

#[test]
fn empty_diff_keeps_roots() {
    let mut ffc = pedersen_ffc();
    let state = SharedState::empty(&mut ffc, felt(0), false).unwrap();
    let state = state
        .apply_state_updates(
            &mut ffc,
            &vec![(felt(9), felt(10))],
            &vec![(felt(9), felt(2))],
            &no_pairs(),
            &no_storage(),
            block(1),
        )
        .unwrap();
    let before_state = state.contract_states.root;
    let before_global = state.get_global_state_root();
    let after = state
        .apply_state_updates(
            &mut ffc,
            &no_pairs(),
            &no_pairs(),
            &no_pairs(),
            &no_storage(),
            block(2),
        )
        .unwrap();
    assert_eq!(after.contract_states.root, before_state);
    assert_eq!(after.get_global_state_root(), before_global);
    assert_eq!(after.block_info.block_number, 2);
}

#[test]
fn diff_order_does_not_change_roots() {
    let d1_nonces = vec![(felt(1), felt(7)), (felt(2), felt(9))];
    let d1_storage = vec![
        (felt(1), vec![(felt(10), felt(11)), (felt(12), felt(13))]),
        (felt(3), vec![(felt(20), felt(21))]),
    ];
    let d2_nonces = vec![(felt(2), felt(9)), (felt(1), felt(7))];
    let d2_storage = vec![
        (felt(3), vec![(felt(20), felt(21))]),
        (felt(1), vec![(felt(12), felt(13)), (felt(10), felt(11))]),
    ];
    let classes = vec![(felt(40), felt(41)), (felt(42), felt(43))];
    let classes_rev = vec![(felt(42), felt(43)), (felt(40), felt(41))];

    let mut ffc1 = pedersen_ffc();
    let s1 = SharedState::empty(&mut ffc1, felt(0), false).unwrap();
    let s1 = s1
        .apply_state_updates(&mut ffc1, &no_pairs(), &d1_nonces, &classes, &d1_storage, block(1))
        .unwrap();

    let mut ffc2 = pedersen_ffc();
    let s2 = SharedState::empty(&mut ffc2, felt(0), false).unwrap();
    let s2 = s2
        .apply_state_updates(
            &mut ffc2,
            &no_pairs(),
            &d2_nonces,
            &classes_rev,
            &d2_storage,
            block(1),
        )
        .unwrap();

    assert_eq!(s1.get_global_state_root(), s2.get_global_state_root());
}

#[test]
fn class_diff_without_class_tree_is_a_contract_violation() {
    let mut ffc = pedersen_ffc();
    let state = SharedState::empty_legacy(&mut ffc, felt(0), false).unwrap();
    let r = state.apply_state_updates(
        &mut ffc,
        &no_pairs(),
        &no_pairs(),
        &vec![(felt(1), felt(2))],
        &no_storage(),
        block(1),
    );
    match r {
        Err(TreeError::ContractViolation) => {},
        _ => panic!("a compiled-class diff needs a class tree"),
    }
}

#[test]
fn state_version_is_the_tagged_constant() {
    let expected = starknet_crypto::Felt::from_bytes_be_slice(b"STARKNET_STATE_V0");
    assert_eq!(
        SharedState::state_version().to_bytes_be(),
        expected.to_bytes_be().to_vec()
    );
}

#[test]
fn class_tree_getter_falls_back_to_an_empty_tree() {
    let mut ffc = pedersen_ffc();
    let state = SharedState::empty_legacy(&mut ffc, felt(0), false).unwrap();
    let t = state.get_contract_class_tree(&mut ffc).unwrap();
    assert!(t.root.is_zero());
    assert_eq!(t.height, 251);

    let state = SharedState::empty(&mut ffc, felt(0), false).unwrap();
    let t = state.get_contract_class_tree(&mut ffc).unwrap();
    assert!(t.root.is_zero());
    assert_eq!(t.height, 251);
}

#[test]
fn error_descriptions_are_distinct() {
    let kinds = [
        TreeError::StorageFailure,
        TreeError::MissingFact,
        TreeError::DecodeFailure,
        TreeError::ContractViolation,
        TreeError::FactConflict,
    ];
    for (i, a) in kinds.iter().enumerate() {
        assert!(!a.describe().is_empty());
        for b in kinds.iter().skip(i + 1) {
            assert_ne!(a.describe(), b.describe());
        }
    }
}

#[test]
fn resetting_a_contract_erases_its_leaf() {
    // Writing a value and then writing it back to zero returns the state
    // tree to its empty root.
    let a = felt(77);
    let k = felt(5);
    let mut ffc = pedersen_ffc();
    let state = SharedState::empty(&mut ffc, felt(0), false).unwrap();
    let state1 = state
        .apply_state_updates(
            &mut ffc,
            &no_pairs(),
            &no_pairs(),
            &no_pairs(),
            &vec![(a, vec![(k, felt(9))])],
            block(1),
        )
        .unwrap();
    assert!(!state1.contract_states.root.is_zero());
    let state2 = state1
        .apply_state_updates(
            &mut ffc,
            &no_pairs(),
            &no_pairs(),
            &no_pairs(),
            &vec![(a, vec![(k, felt(0))])],
            block(2),
        )
        .unwrap();
    assert!(state2.contract_states.root.is_zero());
}
