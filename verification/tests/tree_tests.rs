use fact_state::errors::TreeError;
use fact_state::felt::{felt_to_u128, Felt};
use fact_state::hashing::{hash_chain, hash_node, HashKind};
use fact_state::leaf::LeafFact;
use fact_state::simple_leaf::SimpleLeafFact;
use fact_state::storage::DictStorage;
use fact_state::tree::PatriciaTree;

fn felt(n: u64) -> Felt {
    Felt { l0: n, l1: 0, l2: 0, l3: 0 }
}

fn leaf(n: u64) -> SimpleLeafFact {
    SimpleLeafFact::new(felt(n))
}

fn sn_felt(f: &Felt) -> starknet_crypto::Felt {
    starknet_crypto::Felt::from_bytes_be_slice(&f.to_bytes_be())
}

#[test]
fn empty_tree_with_empty_default_needs_no_storage() {
    let mut store = DictStorage::new();
    let t = PatriciaTree::empty_tree::<DictStorage, SimpleLeafFact>(
        &mut store,
        HashKind::Pedersen,
        251,
        &SimpleLeafFact::empty(),
    )
    .unwrap();
    assert!(t.root.is_zero());
    assert!(store.slots.is_empty());
}

#[test]
fn empty_tree_get_leaf_returns_default() {
    // An all-empty tree yields the empty leaf at any index.
    let mut store = DictStorage::new();
    let t = PatriciaTree::empty_tree::<DictStorage, SimpleLeafFact>(
        &mut store,
        HashKind::Pedersen,
        16,
        &SimpleLeafFact::empty(),
    )
    .unwrap();
    for i in [0u64, 1, 7, 65535] {
        let got: SimpleLeafFact = t
            .get_leaf(&store, HashKind::Pedersen, &felt(i))
            .unwrap();
        assert_eq!(got, SimpleLeafFact::empty());
    }

    // A tree built from a non-empty default yields that default everywhere.
    let d = leaf(7);
    let t2 = PatriciaTree::empty_tree::<DictStorage, SimpleLeafFact>(
        &mut store,
        HashKind::Pedersen,
        4,
        &d,
    )
    .unwrap();
    assert!(!t2.root.is_zero());
    for i in [0u64, 1, 5, 15] {
        let got: SimpleLeafFact = t2
            .get_leaf(&store, HashKind::Pedersen, &felt(i))
            .unwrap();
        assert_eq!(got, d);
    }
}

#[test]
fn update_then_read_back() {
    let mut store = DictStorage::new();
    let t = PatriciaTree::empty_tree::<DictStorage, SimpleLeafFact>(
        &mut store,
        HashKind::Pedersen,
        10,
        &SimpleLeafFact::empty(),
    )
    .unwrap();
    let mods = vec![(felt(3), leaf(30)), (felt(700), leaf(70))];
    let t2 = t.update(&mut store, HashKind::Pedersen, &mods).unwrap();
    assert!(!t2.root.is_zero());
    let a: SimpleLeafFact = t2.get_leaf(&store, HashKind::Pedersen, &felt(3)).unwrap();
    let b: SimpleLeafFact = t2.get_leaf(&store, HashKind::Pedersen, &felt(700)).unwrap();
    let c: SimpleLeafFact = t2.get_leaf(&store, HashKind::Pedersen, &felt(5)).unwrap();
    assert_eq!(a, leaf(30));
    assert_eq!(b, leaf(70));
    assert_eq!(c, SimpleLeafFact::empty());
    // The original tree still reads as before: snapshots are immutable.
    let old: SimpleLeafFact = t.get_leaf(&store, HashKind::Pedersen, &felt(3)).unwrap();
    assert_eq!(old, SimpleLeafFact::empty());
}

#[test]
fn update_batches_compose() {
    // update(update(T, M1), M2) == update(T, M1 ++ M2) on disjoint indices.
    let mut store = DictStorage::new();
    let t = PatriciaTree::empty_tree::<DictStorage, SimpleLeafFact>(
        &mut store,
        HashKind::Pedersen,
        12,
        &SimpleLeafFact::empty(),
    )
    .unwrap();
    let m1 = vec![(felt(1), leaf(11)), (felt(9), leaf(99))];
    let m2 = vec![(felt(2), leaf(22)), (felt(4000), leaf(44))];
    let t1 = t.update(&mut store, HashKind::Pedersen, &m1).unwrap();
    let t12 = t1.update(&mut store, HashKind::Pedersen, &m2).unwrap();
    let mut all = m1.clone();
    all.extend_from_slice(&m2);
    let tall = t.update(&mut store, HashKind::Pedersen, &all).unwrap();
    assert_eq!(t12.root, tall.root);

    // The order of the combined batch does not matter either.
    let mut rev = m2.clone();
    rev.extend_from_slice(&m1);
    let trev = t.update(&mut store, HashKind::Pedersen, &rev).unwrap();
    assert_eq!(tall.root, trev.root);
}

#[test]
fn update_idempotent() {
    let mut store = DictStorage::new();
    let t = PatriciaTree::empty_tree::<DictStorage, SimpleLeafFact>(
        &mut store,
        HashKind::Pedersen,
        8,
        &SimpleLeafFact::empty(),
    )
    .unwrap();
    let m = vec![(felt(5), leaf(55))];
    let once = t.update(&mut store, HashKind::Pedersen, &m).unwrap();
    let twice = once.update(&mut store, HashKind::Pedersen, &m).unwrap();
    assert_eq!(once.root, twice.root);
}

#[test]
fn update_with_empty_batch_is_a_no_op() {
    let mut store = DictStorage::new();
    let t = PatriciaTree::empty_tree::<DictStorage, SimpleLeafFact>(
        &mut store,
        HashKind::Pedersen,
        8,
        &SimpleLeafFact::empty(),
    )
    .unwrap();
    let t1 = t
        .update(&mut store, HashKind::Pedersen, &vec![(felt(1), leaf(10))])
        .unwrap();
    let none: Vec<(Felt, SimpleLeafFact)> = Vec::new();
    let t2 = t1.update(&mut store, HashKind::Pedersen, &none).unwrap();
    assert_eq!(t1.root, t2.root);
}

#[test]
fn writing_the_empty_leaf_erases_the_index() {
    let mut store = DictStorage::new();
    let t = PatriciaTree::empty_tree::<DictStorage, SimpleLeafFact>(
        &mut store,
        HashKind::Pedersen,
        8,
        &SimpleLeafFact::empty(),
    )
    .unwrap();
    let t1 = t
        .update(&mut store, HashKind::Pedersen, &vec![(felt(1), leaf(10))])
        .unwrap();
    let t2 = t1
        .update(
            &mut store,
            HashKind::Pedersen,
            &vec![(felt(1), SimpleLeafFact::empty())],
        )
        .unwrap();
    assert!(t2.root.is_zero());
}

#[test]
fn get_leaves_answers_per_key() {
    let mut store = DictStorage::new();
    let t = PatriciaTree::empty_tree::<DictStorage, SimpleLeafFact>(
        &mut store,
        HashKind::Pedersen,
        8,
        &SimpleLeafFact::empty(),
    )
    .unwrap();
    let t1 = t
        .update(
            &mut store,
            HashKind::Pedersen,
            &vec![(felt(1), leaf(10)), (felt(2), leaf(20))],
        )
        .unwrap();
    let keys = vec![felt(2), felt(3), felt(1)];
    let vals: Vec<SimpleLeafFact> = t1.get_leaves(&store, HashKind::Pedersen, &keys).unwrap();
    assert_eq!(vals, vec![leaf(20), SimpleLeafFact::empty(), leaf(10)]);
}

#[test]
fn height_zero_tree_is_a_single_leaf() {
    let mut store = DictStorage::new();
    let d = leaf(42);
    let t = PatriciaTree::empty_tree::<DictStorage, SimpleLeafFact>(
        &mut store,
        HashKind::Pedersen,
        0,
        &d,
    )
    .unwrap();
    let got: SimpleLeafFact = t.get_leaf(&store, HashKind::Pedersen, &felt(0)).unwrap();
    assert_eq!(got, d);
    let t2 = t
        .update(&mut store, HashKind::Pedersen, &vec![(felt(0), leaf(7))])
        .unwrap();
    let got2: SimpleLeafFact = t2.get_leaf(&store, HashKind::Pedersen, &felt(0)).unwrap();
    assert_eq!(got2, leaf(7));
}

#[test]
fn get_leaves_over_a_wide_batch() {
    let mut store = DictStorage::new();
    let t = PatriciaTree::empty_tree::<DictStorage, SimpleLeafFact>(
        &mut store,
        HashKind::Pedersen,
        32,
        &SimpleLeafFact::empty(),
    )
    .unwrap();
    let mods: Vec<(Felt, SimpleLeafFact)> = (0..40u64).map(|i| (felt(3 * i), leaf(i + 100))).collect();
    let t1 = t.update(&mut store, HashKind::Pedersen, &mods).unwrap();
    let keys: Vec<Felt> = (0..120u64).map(felt).collect();
    let vals: Vec<SimpleLeafFact> = t1.get_leaves(&store, HashKind::Pedersen, &keys).unwrap();
    assert_eq!(vals.len(), keys.len());
    for i in 0..120u64 {
        let expected = if i % 3 == 0 && i / 3 < 40 {
            leaf(i / 3 + 100)
        } else {
            SimpleLeafFact::empty()
        };
        assert_eq!(vals[i as usize], expected);
    }
}

#[test]
fn missing_fact_is_reported() {
    // Build a non-empty tree in one store, then read it through an empty
    // one: the root's preimage is missing there.
    let mut store = DictStorage::new();
    let t = PatriciaTree::empty_tree::<DictStorage, SimpleLeafFact>(
        &mut store,
        HashKind::Pedersen,
        4,
        &leaf(9),
    )
    .unwrap();
    let empty_store = DictStorage::new();
    let r: Result<SimpleLeafFact, TreeError> =
        t.get_leaf(&empty_store, HashKind::Pedersen, &felt(0));
    assert_eq!(r, Err(TreeError::MissingFact));
}

#[test]
fn node_hash_matches_reference_pedersen() {
    let a = felt(123);
    let b = felt(456);
    let got = hash_node(HashKind::Pedersen, &a, &b);
    let expected = starknet_crypto::pedersen_hash(&sn_felt(&a), &sn_felt(&b));
    assert_eq!(got.to_bytes_be(), expected.to_bytes_be().to_vec());
    // The wrapper must not hand an argument back unchanged.
    assert_ne!(got, a);
    assert_ne!(got, b);
}

#[test]
fn node_hash_matches_reference_poseidon() {
    let a = felt(123);
    let b = felt(456);
    let got = hash_node(HashKind::Poseidon, &a, &b);
    let expected = starknet_crypto::poseidon_hash(sn_felt(&a), sn_felt(&b));
    assert_eq!(got.to_bytes_be(), expected.to_bytes_be().to_vec());
    assert_ne!(got, a);
    assert_ne!(got, b);
    assert_ne!(got, hash_node(HashKind::Pedersen, &a, &b));
}

#[test]
fn chain_hash_matches_reference_poseidon_many() {
    let parts = vec![felt(1), felt(2), felt(3)];
    let got = hash_chain(&parts);
    let sn: Vec<starknet_crypto::Felt> = parts.iter().map(sn_felt).collect();
    let expected = starknet_crypto::poseidon_hash_many(&sn);
    assert_eq!(got.to_bytes_be(), expected.to_bytes_be().to_vec());
}

#[test]
fn felt_bytes_round_trip() {
    let f = Felt { l0: 0x0102030405060708, l1: 0x1112131415161718, l2: 0xa1a2a3a4a5a6a7a8, l3: 0x0700000000000000 };
    let b = f.to_bytes_be();
    assert_eq!(b.len(), 32);
    assert_eq!(b[0], 0x07);
    assert_eq!(b[31], 0x08);
    let g = Felt::from_bytes_be(&b);
    assert_eq!(f, g);
}

#[test]
fn felt_to_u128_takes_low_limbs() {
    let f = Felt { l0: 5, l1: 2, l2: 77, l3: 99 };
    assert_eq!(felt_to_u128(&f), 5u128 + (2u128 << 64));
}
