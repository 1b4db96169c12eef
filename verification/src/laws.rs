use vstd::prelude::*;
use vstd::map::*;
use crate::contract_class::ContractClassLeaf;
use crate::contract_state::{storage_mods, ContractState};
use crate::diff::{
    pair_keys_distinct, pair_map, storage_update_map, lemma_pair_map_index, lemma_pair_map_member,
    lemma_storage_map_index, lemma_storage_map_member,
};
use crate::felt::{felt_zero, fits_below, lemma_felt_of_bytes_of, Felt};
use crate::hashing::HashKind;
use crate::leaf::{image_of, typed_images, LeafFact};
use crate::shared_state::{base_state_at, class_map_after, contract_map_after, updated_state_at};
use crate::simple_leaf::SimpleLeafFact;
use crate::tree::{default_leaves, leaf_read_ok};
use crate::tree_model::{
    apply_mods, lemma_apply_mods_concat, lemma_apply_mods_lookup, mod_entry, root_of, LeafImage,
};

verus! {

/// Reading any index of a freshly built default tree yields the default
/// leaf: the canonical empty leaf when the default is empty, and a leaf
/// with the default's exact content otherwise.  `leaf_read_ok` is what
/// `PatriciaTree::get_leaf` ensures over the leaf map that
/// `PatriciaTree::empty_tree` ensures, so this covers every height and
/// every index that fits it.
pub proof fn lemma_empty_tree_get_leaf<LF: LeafFact>(default: LF, height: int, key: Felt, leaf: LF)
    requires
        0 <= height <= 256,
        fits_below(key, height),
        leaf_read_ok(default_leaves(height, image_of(default)), key, leaf),
    ensures
        default.is_empty_spec() ==> leaf == LF::empty_spec() && leaf.is_empty_spec(),
        default.digest_spec() != felt_zero() ==> leaf.digest_spec() == default.digest_spec()
            && leaf.serialized_spec() == default.serialized_spec() && leaf.is_empty_spec()
            == default.is_empty_spec(),
{
    if default.is_empty_spec() {
        default.law_empty_digest();
        LF::law_empty_is_empty();
    }
    if default.digest_spec() != felt_zero() {
        assert(default_leaves(height, image_of(default)).dom().contains(key));
        default.law_roundtrip();
    }
}

/// Updating with two batches in turn commits the same leaves, and so the
/// same root, as updating once with their concatenation: no aliasing
/// across paths, whatever the indices.
pub proof fn lemma_update_batches_compose<LF: LeafFact>(
    f: Map<Felt, LeafImage>,
    m1: Seq<(Felt, LF)>,
    m2: Seq<(Felt, LF)>,
    kind: HashKind,
    height: nat,
)
    ensures
        apply_mods(apply_mods(f, typed_images(m1)), typed_images(m2)) == apply_mods(
            f,
            typed_images(m1 + m2),
        ),
        root_of(kind, height, apply_mods(apply_mods(f, typed_images(m1)), typed_images(m2)))
            == root_of(kind, height, apply_mods(f, typed_images(m1 + m2))),
{
    assert(typed_images(m1 + m2) =~= typed_images(m1) + typed_images(m2));
    lemma_apply_mods_concat(f, typed_images(m1), typed_images(m2));
}

/// Applying one batch twice commits the same leaves, and so the same root,
/// as applying it once.
pub proof fn lemma_update_idempotent<LF: LeafFact>(f: Map<Felt, LeafImage>, m: Seq<(Felt, LF)>)
    requires
        forall|i: int, j: int| 0 <= i < j < m.len() ==> m[i].0 != m[j].0,
    ensures
        apply_mods(apply_mods(f, typed_images(m)), typed_images(m)) == apply_mods(
            f,
            typed_images(m),
        ),
{
    let im = typed_images(m);
    assert(forall|i: int, j: int| 0 <= i < j < im.len() ==> im[i].0 != im[j].0) by {
        assert(forall|i: int| 0 <= i < im.len() ==> #[trigger] im[i].0 == m[i].0);
    };
    assert_maps_equal!(apply_mods(apply_mods(f, im), im), apply_mods(f, im), k => {
        lemma_apply_mods_lookup(f, im, k);
        lemma_apply_mods_lookup(apply_mods(f, im), im, k);
    });
}

/// An empty contract state's digest is the empty sentinel: a freshly
/// created contract (uninitialized class hash, empty storage tree, nonce
/// zero) hashes to the empty node and needs no storage row.
pub proof fn lemma_empty_contract_state_digest(cs: ContractState)
    requires
        cs.is_empty_spec(),
    ensures
        cs.digest_spec() == felt_zero(),
{
}

/// Deserializing a serialized storage leaf yields the leaf back exactly.
pub proof fn lemma_simple_leaf_roundtrip(x: SimpleLeafFact)
    ensures
        SimpleLeafFact::parse_spec(x.serialized_spec()) == Some(x),
{
    lemma_felt_of_bytes_of(x.value);
}

/// Deserializing a serialized class leaf yields the leaf back exactly.
pub proof fn lemma_class_leaf_roundtrip(x: ContractClassLeaf)
    ensures
        ContractClassLeaf::parse_spec(x.serialized_spec()) == Some(x),
{
    lemma_felt_of_bytes_of(x.compiled_class_hash);
}

/// Deserializing a serialized contract state yields its exact serialized
/// fields back; only the ghost leaf map of its storage tree is detached.
pub proof fn lemma_contract_state_roundtrip(x: ContractState)
    ensures
        ContractState::parse_spec(x.serialized_spec()) matches Some(y) && y.contract_hash
            == x.contract_hash && y.nonce == x.nonce && y.storage_commitment_tree.root
            == x.storage_commitment_tree.root && y.storage_commitment_tree.height
            == x.storage_commitment_tree.height,
{
    crate::contract_state::lemma_parse_of_serialized(x);
}

/// A storage write survives the transition: when the diff writes the
/// non-empty value `v` to key `k` of address `a`, the storage tree of
/// `a`'s updated contract state commits exactly that leaf at `k`.  This is
/// the readable half of the end-to-end write/read scenario; that the new
/// global root differs from the empty one rests on the hash function and
/// is checked by test, not proof.
pub proof fn lemma_update_writes_leaf(
    old: Map<Felt, ContractState>,
    kind: HashKind,
    chm: Map<Felt, Felt>,
    nonm: Map<Felt, Felt>,
    stum: Map<Felt, Seq<(Felt, Felt)>>,
    a: Felt,
    k: Felt,
    v: Felt,
)
    requires
        stum.dom().contains(a),
        pair_keys_distinct(stum[a]),
        exists|i: int| 0 <= i < stum[a].len() && #[trigger] stum[a][i] == (k, v),
        v != felt_zero(),
    ensures
        ({
            let st = updated_state_at(
                old,
                kind,
                chm,
                nonm,
                stum,
                a,
            ).storage_commitment_tree.leaves@;
            st.dom().contains(k) && st[k] == image_of(SimpleLeafFact { value: v })
        }),
{
    let writes = stum[a];
    let mods = typed_images(storage_mods(writes));
    assert(forall|i: int, j: int| 0 <= i < j < mods.len() ==> mods[i].0 != mods[j].0) by {
        assert(forall|i: int| 0 <= i < mods.len() ==> #[trigger] mods[i].0 == writes[i].0);
    };
    let base = base_state_at(old, a).storage_commitment_tree.leaves@;
    lemma_apply_mods_lookup(base, mods, k);
    let i = choose|i: int| 0 <= i < writes.len() && #[trigger] writes[i] == (k, v);
    assert(mods[i] == (k, image_of(SimpleLeafFact { value: v })));
    assert(mod_entry(mods, k) is Some);
    let j = choose|j: int| 0 <= j < mods.len() && mods[j].0 == k;
    assert(writes[j].0 == k);
    assert(j == i);
}

/// Two diff lists with distinct keys that hold the same set of bindings
/// describe the same mapping: the iteration order of a diff never matters.
pub proof fn lemma_pair_map_order_free(s1: Seq<(Felt, Felt)>, s2: Seq<(Felt, Felt)>)
    requires
        pair_keys_distinct(s1),
        pair_keys_distinct(s2),
        forall|p: (Felt, Felt)| s1.contains(p) == s2.contains(p),
    ensures
        pair_map(s1) == pair_map(s2),
{
    assert_maps_equal!(pair_map(s1), pair_map(s2), k => {
        if pair_map(s1).dom().contains(k) {
            lemma_pair_map_member(s1, k);
            let i = choose|i: int| 0 <= i < s1.len() && #[trigger] s1[i].0 == k;
            lemma_pair_map_index(s1, i);
            assert(s1.contains(s1[i]));
            assert(s2.contains(s1[i]));
            let j = choose|j: int| 0 <= j < s2.len() && s2[j] == s1[i];
            lemma_pair_map_index(s2, j);
        }
        if pair_map(s2).dom().contains(k) {
            lemma_pair_map_member(s2, k);
            let i = choose|i: int| 0 <= i < s2.len() && #[trigger] s2[i].0 == k;
            lemma_pair_map_index(s2, i);
            assert(s2.contains(s2[i]));
            assert(s1.contains(s2[i]));
            let j = choose|j: int| 0 <= j < s1.len() && s1[j] == s2[i];
            lemma_pair_map_index(s1, j);
        }
    });
}

/// The same, for the per-contract storage-write lists.
pub proof fn lemma_storage_map_order_free(
    s1: Seq<(Felt, Vec<(Felt, Felt)>)>,
    s2: Seq<(Felt, Vec<(Felt, Felt)>)>,
)
    requires
        forall|i: int, j: int| 0 <= i < j < s1.len() ==> s1[i].0 != s1[j].0,
        forall|i: int, j: int| 0 <= i < j < s2.len() ==> s2[i].0 != s2[j].0,
        forall|p: (Felt, Vec<(Felt, Felt)>)| s1.contains(p) == s2.contains(p),
    ensures
        storage_update_map(s1) == storage_update_map(s2),
{
    assert_maps_equal!(storage_update_map(s1), storage_update_map(s2), k => {
        if storage_update_map(s1).dom().contains(k) {
            lemma_storage_map_member(s1, k);
            let i = choose|i: int| 0 <= i < s1.len() && #[trigger] s1[i].0 == k;
            lemma_storage_map_index(s1, i);
            assert(s1.contains(s1[i]));
            assert(s2.contains(s1[i]));
            let j = choose|j: int| 0 <= j < s2.len() && s2[j] == s1[i];
            lemma_storage_map_index(s2, j);
        }
        if storage_update_map(s2).dom().contains(k) {
            lemma_storage_map_member(s2, k);
            let i = choose|i: int| 0 <= i < s2.len() && #[trigger] s2[i].0 == k;
            lemma_storage_map_index(s2, i);
            assert(s2.contains(s2[i]));
            assert(s1.contains(s2[i]));
            let j = choose|j: int| 0 <= j < s1.len() && s1[j] == s2[i];
            lemma_storage_map_index(s1, j);
        }
    });
}

/// Two state transitions built from the same diff set, listed in two
/// different orders, commit the same contract-state and class maps — and
/// so, through the trees' roots, identical global roots.
pub proof fn lemma_state_updates_order_free(
    old: Map<Felt, ContractState>,
    old_class: Map<Felt, ContractClassLeaf>,
    kind: HashKind,
    ch1: Seq<(Felt, Felt)>,
    ch2: Seq<(Felt, Felt)>,
    non1: Seq<(Felt, Felt)>,
    non2: Seq<(Felt, Felt)>,
    cc1: Seq<(Felt, Felt)>,
    cc2: Seq<(Felt, Felt)>,
    stu1: Seq<(Felt, Vec<(Felt, Felt)>)>,
    stu2: Seq<(Felt, Vec<(Felt, Felt)>)>,
)
    requires
        pair_keys_distinct(ch1),
        pair_keys_distinct(ch2),
        pair_keys_distinct(non1),
        pair_keys_distinct(non2),
        pair_keys_distinct(cc1),
        pair_keys_distinct(cc2),
        forall|i: int, j: int| 0 <= i < j < stu1.len() ==> stu1[i].0 != stu1[j].0,
        forall|i: int, j: int| 0 <= i < j < stu2.len() ==> stu2[i].0 != stu2[j].0,
        forall|p: (Felt, Felt)| ch1.contains(p) == ch2.contains(p),
        forall|p: (Felt, Felt)| non1.contains(p) == non2.contains(p),
        forall|p: (Felt, Felt)| cc1.contains(p) == cc2.contains(p),
        forall|p: (Felt, Vec<(Felt, Felt)>)| stu1.contains(p) == stu2.contains(p),
    ensures
        contract_map_after(old, kind, pair_map(ch1), pair_map(non1), storage_update_map(stu1))
            == contract_map_after(
            old,
            kind,
            pair_map(ch2),
            pair_map(non2),
            storage_update_map(stu2),
        ),
        class_map_after(old_class, pair_map(cc1)) == class_map_after(old_class, pair_map(cc2)),
{
    lemma_pair_map_order_free(ch1, ch2);
    lemma_pair_map_order_free(non1, non2);
    lemma_pair_map_order_free(cc1, cc2);
    lemma_storage_map_order_free(stu1, stu2);
}

/// An empty diff leaves the committed maps untouched: applying it to any
/// state yields a state with identical contents, and so identical roots.
pub proof fn lemma_empty_diff_identity(
    old: Map<Felt, ContractState>,
    old_class: Map<Felt, ContractClassLeaf>,
    kind: HashKind,
)
    ensures
        contract_map_after(
            old,
            kind,
            Map::<Felt, Felt>::empty(),
            Map::<Felt, Felt>::empty(),
            Map::<Felt, Seq<(Felt, Felt)>>::empty(),
        ) == old,
        class_map_after(old_class, Map::<Felt, Felt>::empty()) == old_class,
{
    assert_maps_equal!(contract_map_after(
        old,
        kind,
        Map::<Felt, Felt>::empty(),
        Map::<Felt, Felt>::empty(),
        Map::<Felt, Seq<(Felt, Felt)>>::empty(),
    ), old, k => {});
    assert_maps_equal!(class_map_after(old_class, Map::<Felt, Felt>::empty()), old_class, k => {});
}

} // verus!
