use fact_state::contract_class::ContractClassLeaf;
use fact_state::contract_state::ContractState;
use fact_state::errors::TreeError;
use fact_state::felt::Felt;
use fact_state::hashing::HashKind;
use fact_state::leaf::LeafFact;
use fact_state::simple_leaf::SimpleLeafFact;
use fact_state::storage::DictStorage;
use fact_state::tree::PatriciaTree;

fn felt(n: u64) -> Felt {
    Felt { l0: n, l1: 0, l2: 0, l3: 0 }
}

#[test]
fn simple_leaf_round_trip() {
    let x = SimpleLeafFact::new(Felt { l0: 1, l1: 2, l2: 3, l3: 4 });
    let bytes = x.serialize();
    assert_eq!(bytes.len(), 32);
    let y = SimpleLeafFact::deserialize(&bytes).unwrap();
    assert_eq!(x, y);
}

#[test]
fn class_leaf_round_trip() {
    let x = ContractClassLeaf::create(Felt { l0: 9, l1: 8, l2: 7, l3: 6 });
    let bytes = x.serialize();
    assert_eq!(bytes.len(), 32);
    let y = ContractClassLeaf::deserialize(&bytes).unwrap();
    assert_eq!(x, y);
}

#[test]
fn contract_state_round_trip() {
    let mut store = DictStorage::new();
    let tree = PatriciaTree::empty_tree::<DictStorage, SimpleLeafFact>(
        &mut store,
        HashKind::Pedersen,
        251,
        &SimpleLeafFact::empty(),
    )
    .unwrap();
    let tree = tree
        .update(
            &mut store,
            HashKind::Pedersen,
            &vec![(felt(4), SimpleLeafFact::new(felt(5)))],
        )
        .unwrap();
    let x = ContractState::create(felt(11), tree, felt(3));
    let bytes = x.serialize();
    assert_eq!(bytes.len(), 128);
    let y = ContractState::deserialize(&bytes).unwrap();
    assert_eq!(y.contract_hash, x.contract_hash);
    assert_eq!(y.nonce, x.nonce);
    assert_eq!(y.storage_commitment_tree.root, x.storage_commitment_tree.root);
    assert_eq!(y.storage_commitment_tree.height, x.storage_commitment_tree.height);
}

#[test]
fn truncated_leaf_bytes_are_a_decode_failure() {
    let bad = vec![1u8, 2, 3];
    assert_eq!(
        SimpleLeafFact::deserialize(&bad),
        Err(TreeError::DecodeFailure)
    );
    assert_eq!(
        ContractClassLeaf::deserialize(&bad),
        Err(TreeError::DecodeFailure)
    );
    match ContractState::deserialize(&bad) {
        Err(TreeError::DecodeFailure) => {},
        _ => panic!("short bytes must not decode"),
    }
}

#[test]
fn oversized_height_bytes_are_a_decode_failure() {
    // A contract state whose height field does not fit 64 bits is corrupt.
    let mut bytes = vec![0u8; 128];
    bytes[40] = 1;
    match ContractState::deserialize(&bytes) {
        Err(TreeError::DecodeFailure) => {},
        _ => panic!("an oversized height must not decode"),
    }
}

#[test]
fn contract_state_digest_mixes_all_fields() {
    // The digest is H(H(H(class_hash, storage_root), nonce), version).
    let mut store = DictStorage::new();
    let tree = PatriciaTree::empty_tree::<DictStorage, SimpleLeafFact>(
        &mut store,
        HashKind::Pedersen,
        251,
        &SimpleLeafFact::empty(),
    )
    .unwrap();
    let cs = ContractState::create(felt(11), tree, felt(3));
    let sn = |f: &Felt| starknet_crypto::Felt::from_bytes_be_slice(&f.to_bytes_be());
    let h1 = starknet_crypto::pedersen_hash(&sn(&felt(11)), &sn(&Felt::zero()));
    let h2 = starknet_crypto::pedersen_hash(&h1, &sn(&felt(3)));
    let h3 = starknet_crypto::pedersen_hash(&h2, &sn(&Felt::zero()));
    assert_eq!(cs.leaf_digest().to_bytes_be(), h3.to_bytes_be().to_vec());
}

#[test]
fn class_leaf_digest_tags_the_version() {
    let x = ContractClassLeaf::create(felt(500));
    let version = starknet_crypto::Felt::from_bytes_be_slice(b"CONTRACT_CLASS_LEAF_V0");
    let expected = starknet_crypto::poseidon_hash(
        version,
        starknet_crypto::Felt::from_bytes_be_slice(&felt(500).to_bytes_be()),
    );
    assert_eq!(x.leaf_digest().to_bytes_be(), expected.to_bytes_be().to_vec());
    assert!(ContractClassLeaf::empty().leaf_digest().is_zero());
}
