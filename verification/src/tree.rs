use vstd::prelude::*;
use crate::errors::TreeError;
use crate::leaf::{image_of, typed_images, LeafFact};
use crate::felt::{
    felt_zero, fits_below, spec_bit, with_bit_clear, with_bit_set, Felt, lemma_bit_set_clear_inverse,
    lemma_felt_of_bytes_of, lemma_fits_below_zero, lemma_with_bit_set_bits, lemma_zero_bits,
    bytes_of_felt, felt_of_bytes,
};
use crate::hashing::{hash_node, node_digest, HashKind};
use crate::storage::{
    clone_bytes, copy_range, lemma_store_extends_trans, store_extends, write_fact, Storage,
};
use crate::tree_model::{
    apply_mods, entries_wf, keep_clear, keep_set, lhalf, map_absent, rhalf, root_of, tree_rep,
    LeafImage, lemma_apply_all_zero, lemma_apply_mods_wf, lemma_apply_split, lemma_halves_absent,
    lemma_halves_wf, lemma_keep_fits, lemma_rep_absent, lemma_rep_extends, lemma_rep_root,
};

verus! {

/// The executable carrier of one leaf fact: its digest and its serialized
/// bytes.  A digest equal to the empty sentinel stands for the empty leaf
/// and erases the index it is written to.
pub struct LeafPayload {
    pub digest: Felt,
    pub bytes: Vec<u8>,
}

impl View for LeafPayload {
    type V = LeafImage;

    open spec fn view(&self) -> LeafImage {
        LeafImage { digest: self.digest, bytes: self.bytes@ }
    }
}

impl LeafPayload {
    /// A deep copy.
    pub fn duplicate(&self) -> (r: LeafPayload)
        ensures
            r@ == self@,
    {
        LeafPayload { digest: self.digest, bytes: clone_bytes(&self.bytes) }
    }
}

/// The images of a modification list.
pub open spec fn mods_images(s: Seq<(Felt, LeafPayload)>) -> Seq<(Felt, LeafImage)> {
    s.map_values(|m: (Felt, LeafPayload)| (m.0, m.1@))
}

/// The serialized bytes stored for index `key`, if any.
pub open spec fn leaf_bytes_at(f: Map<Felt, LeafImage>, key: Felt) -> Option<Seq<u8>> {
    if f.dom().contains(key) {
        Some(f[key].bytes)
    } else {
        None
    }
}

/// The leaf map of a tree of height `height` whose every index holds the
/// same non-empty default leaf.
pub open spec fn const_leaves(height: int, img: LeafImage) -> Map<Felt, LeafImage> {
    Map::new(|k: Felt| fits_below(k, height), |k: Felt| img)
}

/// The leaf map an empty tree starts from: no leaves for an empty default,
/// the same default everywhere otherwise.
pub open spec fn default_leaves(height: int, img: LeafImage) -> Map<Felt, LeafImage> {
    if img.digest == felt_zero() {
        Map::empty()
    } else {
        const_leaves(height, img)
    }
}

/// A fixed-height, content-addressed binary Merkle trie over 256-bit
/// indices.  `root` is the digest of the whole content; `leaves` is the
/// ghost map of the non-empty leaves it commits to.
#[derive(Clone, Copy)]
pub struct PatriciaTree {
    pub root: Felt,
    pub height: u64,
    pub leaves: Ghost<Map<Felt, LeafImage>>,
}

impl PatriciaTree {
    /// The tree is represented in `store` under hash domain `kind`.
    pub open spec fn wf(&self, store: Map<Felt, Seq<u8>>, kind: HashKind) -> bool {
        tree_rep(store, kind, self.root, self.height as nat, self.leaves@)
    }
}

/// Reads the two-child preimage of an inner node.
fn read_node<S: Storage>(
    storage: &S,
    root: &Felt,
    Ghost(kind): Ghost<HashKind>,
    Ghost(level): Ghost<nat>,
    Ghost(f): Ghost<Map<Felt, LeafImage>>,
) -> (r: Result<(Felt, Felt), TreeError>)
    requires
        tree_rep(storage.contents(), kind, *root, level, f),
        *root != felt_zero(),
        level > 0,
    ensures
        match r {
            Ok(lr) => *root == node_digest(kind, lr.0, lr.1) && tree_rep(
                storage.contents(),
                kind,
                lr.0,
                (level - 1) as nat,
                lhalf(f, level - 1),
            ) && tree_rep(
                storage.contents(),
                kind,
                lr.1,
                (level - 1) as nat,
                rhalf(f, level - 1),
            ),
            Err(e) => e == TreeError::StorageFailure,
        },
{
    match storage.get_value(root) {
        Ok(Some(v)) => {
            if v.len() != 64 {
                proof {
                    assert(false);
                }
                return Err(TreeError::DecodeFailure);
            }
            let lb = copy_range(&v, 0, 32);
            let rb = copy_range(&v, 32, 64);
            let l = Felt::from_bytes_be(lb.as_slice());
            let r = Felt::from_bytes_be(rb.as_slice());
            proof {
                assert(v@.subrange(0, 32) =~= storage.contents()[*root].take(32));
                assert(v@.subrange(32, 64) =~= storage.contents()[*root].subrange(32, 64));
            }
            Ok((l, r))
        },
        Ok(None) => {
            proof {
                assert(false);
            }
            Err(TreeError::MissingFact)
        },
        Err(e) => Err(e),
    }
}

/// Splits a modification list by bit `b` of the index: indices with the bit
/// clear keep their index; indices with the bit set are re-indexed with the
/// bit cleared.
fn partition_mods(mods: &Vec<(Felt, LeafPayload)>, b: u64) -> (r: (
    Vec<(Felt, LeafPayload)>,
    Vec<(Felt, LeafPayload)>,
))
    requires
        b < 256,
    ensures
        mods_images(r.0@) == keep_clear(mods_images(mods@), b as int),
        mods_images(r.1@) == keep_set(mods_images(mods@), b as int),
{
    let ghost imgs = mods_images(mods@);
    let mut left: Vec<(Felt, LeafPayload)> = Vec::new();
    let mut right: Vec<(Felt, LeafPayload)> = Vec::new();
    let mut i: usize = 0;
    while i < mods.len()
        invariant
            i <= mods@.len(),
            imgs == mods_images(mods@),
            b < 256,
            mods_images(left@) == keep_clear(imgs.take(i as int), b as int),
            mods_images(right@) == keep_set(imgs.take(i as int), b as int),
        decreases mods@.len() - i,
    {
        let ghost prev_left = left@;
        let ghost prev_right = right@;
        let m = &mods[i];
        if m.0.bit(b) {
            right.push((m.0.with_bit_cleared(b), m.1.duplicate()));
        } else {
            left.push((m.0, m.1.duplicate()));
        }
        proof {
            assert(imgs.take(i + 1).drop_last() =~= imgs.take(i as int));
            assert(imgs.take(i + 1).last() == imgs[i as int]);
            assert(imgs[i as int] == (mods@[i as int].0, mods@[i as int].1@));
            if spec_bit(mods@[i as int].0, b as int) {
                assert(mods_images(right@) =~= mods_images(prev_right).push(
                    (with_bit_clear(mods@[i as int].0, b as int), mods@[i as int].1@),
                ));
                assert(mods_images(left@) =~= mods_images(prev_left));
            } else {
                assert(mods_images(left@) =~= mods_images(prev_left).push(
                    (mods@[i as int].0, mods@[i as int].1@),
                ));
                assert(mods_images(right@) =~= mods_images(prev_right));
            }
        }
        i += 1;
    }
    proof {
        assert(imgs.take(mods@.len() as int) =~= imgs);
    }
    (left, right)
}

/// Applies a batch of leaf writes below a node and returns the node's new
/// digest, writing every recomputed fact along the touched paths.  Facts of
/// untouched subtrees are reused, never rewritten.
#[verifier::rlimit(100)]
fn update_node<S: Storage>(
    storage: &mut S,
    kind: HashKind,
    root: Felt,
    level: u64,
    mods: &Vec<(Felt, LeafPayload)>,
    Ghost(f): Ghost<Map<Felt, LeafImage>>,
) -> (r: Result<Felt, TreeError>)
    requires
        tree_rep(old(storage).contents(), kind, root, level as nat, f),
        level <= 256,
        forall|i: int| 0 <= i < mods@.len() ==> fits_below(#[trigger] mods@[i].0, level as int),
    ensures
        store_extends(final (storage).contents(), old(storage).contents()),
        match r {
            Ok(nr) => nr == root_of(kind, level as nat, apply_mods(f, mods_images(mods@)))
                && tree_rep(
                final (storage).contents(),
                kind,
                nr,
                level as nat,
                apply_mods(f, mods_images(mods@)),
            ),
            Err(e) => e == TreeError::StorageFailure || e == TreeError::FactConflict,
        },
        mods@.len() == 0 ==> r == Ok::<Felt, TreeError>(root) && final (storage).contents() == old(
            storage,
        ).contents(),
    decreases level,
{
    let ghost nf = apply_mods(f, mods_images(mods@));
    if mods.len() == 0 {
        proof {
            lemma_rep_root(storage.contents(), kind, root, level as nat, f);
        }
        return Ok(root);
    }
    if level == 0 {
        proof {
            assert forall|i: int| 0 <= i < mods_images(mods@).len() implies #[trigger] mods_images(
                mods@,
            )[i].0 == felt_zero() by {
                lemma_fits_below_zero(mods@[i].0);
            };
            lemma_apply_all_zero(f, mods_images(mods@));
            lemma_zero_bits();
        }
        let last = mods.len() - 1;
        let m = &mods[last];
        proof {
            lemma_fits_below_zero(m.0);
            assert(mods_images(mods@).last() == (m.0, m.1@));
        }
        if m.1.digest.is_zero() {
            proof {
                assert forall|k: Felt| !nf.dom().contains(k) by {
                    if k != felt_zero() && f.dom().contains(k) {
                        lemma_fits_below_zero(k);
                    }
                };
            }
            return Ok(Felt::zero());
        }
        match write_fact(storage, m.1.digest, clone_bytes(&m.1.bytes)) {
            Ok(_) => {},
            Err(e) => {
                return Err(e);
            },
        }
        proof {
            assert(nf == f.insert(felt_zero(), m.1@));
            assert(nf.dom().contains(felt_zero()));
            assert(nf[felt_zero()].digest == m.1.digest);
            assert(entries_wf(nf, 0)) by {
                lemma_apply_mods_wf(f, mods_images(mods@), 0);
            };
            assert(!map_absent(nf));
            assert(tree_rep(storage.contents(), kind, m.1.digest, 0, nf));
        }
        return Ok(m.1.digest);
    }
    let b: u64 = level - 1;
    let ghost lf = lhalf(f, b as int);
    let ghost rf = rhalf(f, b as int);
    proof {
        lemma_halves_wf(f, b as int);
    }
    let (lroot, rroot) = if root.is_zero() {
        proof {
            lemma_halves_absent(f, b as int);
        }
        (Felt::zero(), Felt::zero())
    } else {
        match read_node(&*storage, &root, Ghost(kind), Ghost(level as nat), Ghost(f)) {
            Ok(p) => p,
            Err(e) => {
                return Err(e);
            },
        }
    };
    let pair = partition_mods(mods, b);
    let lmods = pair.0;
    let rmods = pair.1;
    proof {
        assert forall|i: int| 0 <= i < mods_images(mods@).len() implies fits_below(
            #[trigger] mods_images(mods@)[i].0,
            b + 1,
        ) by {
            assert(mods_images(mods@)[i].0 == mods@[i].0);
        };
        lemma_keep_fits(mods_images(mods@), b as int, level as int);
        lemma_apply_split(f, mods_images(mods@), b as int);
        assert forall|i: int| 0 <= i < lmods@.len() implies fits_below(
            #[trigger] lmods@[i].0,
            b as int,
        ) by {
            assert(mods_images(lmods@)[i].0 == lmods@[i].0);
            assert(mods_images(lmods@) == keep_clear(mods_images(mods@), b as int));
        };
        assert forall|i: int| 0 <= i < rmods@.len() implies fits_below(
            #[trigger] rmods@[i].0,
            b as int,
        ) by {
            assert(mods_images(rmods@)[i].0 == rmods@[i].0);
            assert(mods_images(rmods@) == keep_set(mods_images(mods@), b as int));
        };
    }
    let ghost store0 = storage.contents();
    let lnew = match update_node(storage, kind, lroot, b, &lmods, Ghost(lf)) {
        Ok(x) => x,
        Err(e) => {
            return Err(e);
        },
    };
    let ghost nlf = apply_mods(lf, mods_images(lmods@));
    proof {
        lemma_rep_extends(store0, storage.contents(), kind, rroot, b as nat, rf);
    }
    let ghost store1 = storage.contents();
    let rnew = match update_node(storage, kind, rroot, b, &rmods, Ghost(rf)) {
        Ok(x) => x,
        Err(e) => {
            proof {
                lemma_store_extends_trans(store0, store1, storage.contents());
            }
            return Err(e);
        },
    };
    let ghost nrf = apply_mods(rf, mods_images(rmods@));
    proof {
        lemma_store_extends_trans(store0, store1, storage.contents());
        lemma_rep_extends(store1, storage.contents(), kind, lnew, b as nat, nlf);
        assert(nlf == lhalf(nf, b as int));
        assert(nrf == rhalf(nf, b as int));
        lemma_apply_mods_wf(f, mods_images(mods@), level as int);
    }
    if lnew.is_zero() && rnew.is_zero() {
        proof {
            lemma_rep_absent(storage.contents(), kind, lnew, b as nat, nlf);
            lemma_rep_absent(storage.contents(), kind, rnew, b as nat, nrf);
            lemma_halves_absent(nf, b as int);
        }
        return Ok(Felt::zero());
    }
    let h = hash_node(kind, &lnew, &rnew);
    if h.is_zero() {
        return Err(TreeError::FactConflict);
    }
    let mut nb = lnew.to_bytes_be();
    let mut tail = rnew.to_bytes_be();
    nb.append(&mut tail);
    let ghost store2 = storage.contents();
    match write_fact(storage, h, nb) {
        Ok(_) => {},
        Err(e) => {
            proof {
                lemma_store_extends_trans(store0, store2, storage.contents());
            }
            return Err(e);
        },
    }
    proof {
        lemma_store_extends_trans(store0, store2, storage.contents());
        lemma_rep_extends(store2, storage.contents(), kind, lnew, b as nat, nlf);
        lemma_rep_extends(store2, storage.contents(), kind, rnew, b as nat, nrf);
        lemma_rep_root(storage.contents(), kind, lnew, b as nat, nlf);
        lemma_rep_root(storage.contents(), kind, rnew, b as nat, nrf);
        lemma_felt_of_bytes_of(lnew);
        lemma_felt_of_bytes_of(rnew);
        let stored = storage.contents()[h];
        assert(stored == bytes_of_felt(lnew) + bytes_of_felt(rnew));
        assert(stored.take(32) =~= bytes_of_felt(lnew));
        assert(stored.subrange(32, 64) =~= bytes_of_felt(rnew));
        assert(felt_of_bytes(stored.take(32)) == lnew);
        assert(felt_of_bytes(stored.subrange(32, 64)) == rnew);
        lemma_halves_absent(nf, b as int);
        lemma_rep_absent(storage.contents(), kind, lnew, b as nat, nlf);
        lemma_rep_absent(storage.contents(), kind, rnew, b as nat, nrf);
        assert(!map_absent(nf));
        assert(tree_rep(storage.contents(), kind, h, level as nat, nf));
    }
    Ok(h)
}

/// Both halves of the everywhere-default leaf map one level up are the
/// everywhere-default leaf map.
proof fn lemma_const_halves(h: int, img: LeafImage)
    requires
        0 <= h < 256,
    ensures
        lhalf(const_leaves(h + 1, img), h) == const_leaves(h, img),
        rhalf(const_leaves(h + 1, img), h) == const_leaves(h, img),
{
    assert forall|k: Felt| #[trigger] fits_below(k, h) implies fits_below(k, h + 1) && !spec_bit(
        k,
        h,
    ) && fits_below(with_bit_set(k, h), h + 1) by {
        lemma_with_bit_set_bits(k, h);
        assert forall|j: int| h + 1 <= j < 256 implies !spec_bit(with_bit_set(k, h), j) by {
            assert(spec_bit(with_bit_set(k, h), j) == spec_bit(k, j));
        };
    };
    assert forall|k: Felt|
        !fits_below(k, h) && 0 <= h < 256 implies !(fits_below(k, h + 1) && !spec_bit(k, h)) && !(
        !spec_bit(k, h) && fits_below(with_bit_set(k, h), h + 1)) by {
        lemma_with_bit_set_bits(k, h);
        if !spec_bit(k, h) {
            let j = choose|j: int| h <= j < 256 && spec_bit(k, j);
            if fits_below(k, h + 1) {
                assert(spec_bit(k, j) && h <= j < 256);
                assert(j == h || j >= h + 1);
            }
            if fits_below(with_bit_set(k, h), h + 1) {
                assert(spec_bit(k, j) && h <= j < 256);
                if j >= h + 1 {
                    assert(spec_bit(with_bit_set(k, h), j) == spec_bit(k, j));
                }
            }
        }
    };
    assert(lhalf(const_leaves(h + 1, img), h) =~= const_leaves(h, img));
    assert(rhalf(const_leaves(h + 1, img), h) =~= const_leaves(h, img));
}

/// Builds the root of a tree whose every index holds the same default leaf,
/// by hashing the default up `height` levels of self-pairing.  An empty
/// default needs no storage writes at all: the root is the empty sentinel.
fn empty_tree_raw<S: Storage>(
    storage: &mut S,
    kind: HashKind,
    height: u64,
    default: &LeafPayload,
) -> (r: Result<PatriciaTree, TreeError>)
    requires
        height <= 256,
    ensures
        store_extends(final (storage).contents(), old(storage).contents()),
        match r {
            Ok(t) => t.height == height && t.leaves@ == default_leaves(height as int, default@)
                && t.wf(final (storage).contents(), kind) && t.root == root_of(
                kind,
                height as nat,
                t.leaves@,
            ),
            Err(e) => e == TreeError::StorageFailure || e == TreeError::FactConflict,
        },
        default@.digest == felt_zero() ==> r == Ok::<PatriciaTree, TreeError>(
            PatriciaTree {
                root: felt_zero(),
                height,
                leaves: Ghost(Map::<Felt, LeafImage>::empty()),
            },
        ) && final (storage).contents() == old(storage).contents(),
{
    proof {
        lemma_zero_bits();
    }
    if default.digest.is_zero() {
        let t = PatriciaTree {
            root: Felt::zero(),
            height,
            leaves: Ghost(Map::<Felt, LeafImage>::empty()),
        };
        return Ok(t);
    }
    match write_fact(storage, default.digest, clone_bytes(&default.bytes)) {
        Ok(_) => {},
        Err(e) => {
            return Err(e);
        },
    }
    let mut cur = default.digest;
    let mut h: u64 = 0;
    proof {
        assert(const_leaves(0, default@).dom() =~= Set::<Felt>::empty().insert(felt_zero())) by {
            assert forall|k: Felt| fits_below(k, 0) implies k == felt_zero() by {
                lemma_fits_below_zero(k);
            };
        };
        assert(tree_rep(storage.contents(), kind, cur, 0, const_leaves(0, default@)));
    }
    while h < height
        invariant
            h <= height <= 256,
            default@.digest != felt_zero(),
            tree_rep(storage.contents(), kind, cur, h as nat, const_leaves(h as int, default@)),
            store_extends(storage.contents(), old(storage).contents()),
        decreases height - h,
    {
        let parent = hash_node(kind, &cur, &cur);
        if parent.is_zero() {
            return Err(TreeError::FactConflict);
        }
        let mut nb = cur.to_bytes_be();
        let mut tail = cur.to_bytes_be();
        nb.append(&mut tail);
        let ghost store_before = storage.contents();
        match write_fact(storage, parent, nb) {
            Ok(_) => {},
            Err(e) => {
                proof {
                    lemma_store_extends_trans(
                        old(storage).contents(),
                        store_before,
                        storage.contents(),
                    );
                }
                return Err(e);
            },
        }
        proof {
            lemma_store_extends_trans(old(storage).contents(), store_before, storage.contents());
            lemma_const_halves(h as int, default@);
            lemma_rep_extends(
                store_before,
                storage.contents(),
                kind,
                cur,
                h as nat,
                const_leaves(h as int, default@),
            );
            lemma_felt_of_bytes_of(cur);
            let stored = storage.contents()[parent];
            assert(stored == bytes_of_felt(cur) + bytes_of_felt(cur));
            assert(stored.take(32) =~= bytes_of_felt(cur));
            assert(stored.subrange(32, 64) =~= bytes_of_felt(cur));
            assert(felt_of_bytes(stored.take(32)) == cur);
            assert(felt_of_bytes(stored.subrange(32, 64)) == cur);
            lemma_zero_bits();
            assert(const_leaves(h + 1 as int, default@).dom().contains(felt_zero()));
            assert(entries_wf(const_leaves(h + 1 as int, default@), h + 1));
            assert(tree_rep(
                storage.contents(),
                kind,
                parent,
                (h + 1) as nat,
                const_leaves(h + 1 as int, default@),
            ));
        }
        cur = parent;
        h += 1;
    }
    let t = PatriciaTree {
        root: cur,
        height,
        leaves: Ghost(const_leaves(height as int, default@)),
    };
    proof {
        lemma_rep_root(storage.contents(), kind, t.root, height as nat, t.leaves@);
    }
    Ok(t)
}

/// Descends `level` bits of `key` from the most significant and returns the
/// stored leaf bytes, or nothing when the path ends in an empty subtree.
fn get_leaf_node<S: Storage>(
    storage: &S,
    root: Felt,
    level: u64,
    key: Felt,
    Ghost(kind): Ghost<HashKind>,
    Ghost(f): Ghost<Map<Felt, LeafImage>>,
) -> (r: Result<Option<Vec<u8>>, TreeError>)
    requires
        tree_rep(storage.contents(), kind, root, level as nat, f),
        level <= 256,
        fits_below(key, level as int),
    ensures
        match r {
            Ok(o) => crate::storage::opt_bytes(o) == leaf_bytes_at(f, key),
            Err(e) => e == TreeError::StorageFailure,
        },
        root == felt_zero() ==> r is Ok,
    decreases level,
{
    if root.is_zero() {
        return Ok(None);
    }
    if level == 0 {
        proof {
            lemma_fits_below_zero(key);
        }
        match storage.get_value(&root) {
            Ok(Some(v)) => Ok(Some(v)),
            Ok(None) => {
                proof {
                    assert(false);
                }
                Err(TreeError::MissingFact)
            },
            Err(e) => Err(e),
        }
    } else {
        let b = level - 1;
        let children = match read_node(storage, &root, Ghost(kind), Ghost(level as nat), Ghost(f)) {
            Ok(p) => p,
            Err(e) => {
                return Err(e);
            },
        };
        if key.bit(b) {
            let ck = key.with_bit_cleared(b);
            proof {
                lemma_bit_set_clear_inverse(key, b as int);
                assert(with_bit_set(ck, b as int) == key);
                assert forall|j: int| b <= j < 256 implies !spec_bit(ck, j) by {
                    if j > b {
                        assert(fits_below(key, level as int));
                    }
                };
                assert(rhalf(f, b as int).dom().contains(ck) == f.dom().contains(key));
            }
            get_leaf_node(storage, children.1, b, ck, Ghost(kind), Ghost(rhalf(f, b as int)))
        } else {
            proof {
                assert forall|j: int| b <= j < 256 implies !spec_bit(key, j) by {
                    if j > b {
                        assert(fits_below(key, level as int));
                    }
                };
            }
            get_leaf_node(storage, children.0, b, key, Ghost(kind), Ghost(lhalf(f, b as int)))
        }
    }
}

/// One in-progress descent of a batched read: the node digest reached so
/// far and what is left of the leaf index below it.
struct Cursor {
    node: Felt,
    key: Felt,
}

/// Collects the node digests the frontier still has to resolve, skipping
/// empty subtrees: the sentinel never requires a storage lookup.  Entry `t`
/// of the returned positions gives the batch index of cursor `t`'s digest
/// (unused for an empty subtree).
fn collect_batch(cursors: &Vec<Cursor>) -> (r: (Vec<Felt>, Vec<usize>))
    ensures
        r.1@.len() == cursors@.len(),
        r.0@.len() <= cursors@.len(),
        forall|t: int|
            0 <= t < cursors@.len() && cursors@[t].node != felt_zero() ==> r.1@[t] < r.0@.len()
                && r.0@[#[trigger] r.1@[t] as int] == cursors@[t].node,
        r.0@.len() > 0 ==> exists|t: int|
            0 <= t < cursors@.len() && (#[trigger] cursors@[t]).node != felt_zero(),
{
    let mut batch: Vec<Felt> = Vec::new();
    let mut positions: Vec<usize> = Vec::new();
    let mut t: usize = 0;
    while t < cursors.len()
        invariant
            t <= cursors@.len(),
            positions@.len() == t,
            batch@.len() <= t,
            forall|u: int|
                0 <= u < t && cursors@[u].node != felt_zero() ==> positions@[u] < batch@.len()
                    && batch@[#[trigger] positions@[u] as int] == cursors@[u].node,
            batch@.len() > 0 ==> exists|u: int|
                0 <= u < t && (#[trigger] cursors@[u]).node != felt_zero(),
        decreases cursors@.len() - t,
    {
        if cursors[t].node.is_zero() {
            positions.push(0);
        } else {
            positions.push(batch.len());
            batch.push(cursors[t].node);
        }
        t += 1;
    }
    (batch, positions)
}

/// Reads many leaves breadth first.  At each depth, the preimages of every
/// node the frontier still touches are fetched in one collective storage
/// read before any descent to the next depth, so a remote backend pays one
/// round-trip per level, never one per leaf.  Entry `i` of the result
/// holds the stored leaf bytes for key `i`, or nothing where the path runs
/// through an empty subtree.
#[verifier::loop_isolation(false)]
#[verifier::rlimit(100)]
fn get_leaves_node<S: Storage>(
    storage: &S,
    root: Felt,
    height: u64,
    keys: &Vec<Felt>,
    Ghost(kind): Ghost<HashKind>,
    Ghost(f): Ghost<Map<Felt, LeafImage>>,
) -> (r: Result<Vec<Option<Vec<u8>>>, TreeError>)
    requires
        tree_rep(storage.contents(), kind, root, height as nat, f),
        height <= 256,
        forall|i: int| 0 <= i < keys@.len() ==> fits_below(#[trigger] keys@[i], height as int),
    ensures
        match r {
            Ok(vals) => vals@.len() == keys@.len() && forall|i: int|
                0 <= i < keys@.len() ==> crate::storage::opt_bytes(#[trigger] vals@[i])
                    == leaf_bytes_at(f, keys@[i]),
            Err(e) => e == TreeError::StorageFailure,
        },
        keys@.len() == 0 ==> r is Ok,
        root == felt_zero() ==> r is Ok,
{
    let mut cursors: Vec<Cursor> = Vec::new();
    let ghost mut subs: Seq<Map<Felt, LeafImage>> = Seq::empty();
    let mut t: usize = 0;
    while t < keys.len()
        invariant
            t <= keys@.len(),
            cursors@.len() == t,
            subs.len() == t,
            forall|u: int| 0 <= u < t ==> #[trigger] cursors@[u] == (Cursor {
                node: root,
                key: keys@[u],
            }),
            forall|u: int| 0 <= u < t ==> #[trigger] subs[u] == f,
        decreases keys@.len() - t,
    {
        cursors.push(Cursor { node: root, key: keys[t] });
        proof {
            subs = subs.push(f);
        }
        t += 1;
    }
    let mut level: u64 = height;
    while level > 0
        invariant
            level <= height,
            cursors@.len() == keys@.len(),
            subs.len() == keys@.len(),
            forall|u: int|
                0 <= u < keys@.len() ==> tree_rep(
                    storage.contents(),
                    kind,
                    (#[trigger] cursors@[u]).node,
                    level as nat,
                    subs[u],
                ),
            forall|u: int|
                0 <= u < keys@.len() ==> fits_below((#[trigger] cursors@[u]).key, level as int),
            forall|u: int|
                0 <= u < keys@.len() ==> leaf_bytes_at(f, keys@[u]) == leaf_bytes_at(
                    subs[u],
                    (#[trigger] cursors@[u]).key,
                ),
            root == felt_zero() ==> forall|u: int|
                0 <= u < keys@.len() ==> (#[trigger] cursors@[u]).node == felt_zero(),
        decreases level,
    {
        let b: u64 = level - 1;
        let pair = collect_batch(&cursors);
        let batch = pair.0;
        let positions = pair.1;
        let vals: Vec<Option<Vec<u8>>> = if batch.len() == 0 {
            Vec::new()
        } else {
            match storage.get_many(&batch) {
                Ok(v) => v,
                Err(e) => {
                    proof {
                        if root == felt_zero() {
                            let w = choose|w: int|
                                0 <= w < cursors@.len() && (#[trigger] cursors@[w]).node
                                    != felt_zero();
                            assert(false);
                        }
                    }
                    return Err(e);
                },
            }
        };
        proof {
            assert forall|j: int| 0 <= j < batch@.len() implies crate::storage::opt_bytes(
                #[trigger] vals@[j],
            ) == crate::storage::store_lookup(storage.contents(), batch@[j]) by {};
        }
        let mut next: Vec<Cursor> = Vec::new();
        let ghost mut nsubs: Seq<Map<Felt, LeafImage>> = Seq::empty();
        let mut t: usize = 0;
        while t < cursors.len()
            invariant
                t <= cursors@.len(),
                next@.len() == t,
                nsubs.len() == t,
                forall|u: int|
                    0 <= u < t ==> tree_rep(
                        storage.contents(),
                        kind,
                        (#[trigger] next@[u]).node,
                        b as nat,
                        nsubs[u],
                    ),
                forall|u: int| 0 <= u < t ==> fits_below((#[trigger] next@[u]).key, b as int),
                forall|u: int|
                    0 <= u < t ==> leaf_bytes_at(subs[u], cursors@[u].key) == leaf_bytes_at(
                        nsubs[u],
                        (#[trigger] next@[u]).key,
                    ),
                root == felt_zero() ==> forall|u: int|
                    0 <= u < t ==> (#[trigger] next@[u]).node == felt_zero(),
            decreases cursors@.len() - t,
        {
            let node = cursors[t].node;
            let key = cursors[t].key;
            let take_right = key.bit(b);
            let ck = if take_right {
                key.with_bit_cleared(b)
            } else {
                key
            };
            proof {
                assert forall|j: int| b <= j < 256 implies !spec_bit(ck, j) by {
                    if j > b {
                        assert(fits_below(key, level as int));
                    }
                };
                if take_right {
                    lemma_bit_set_clear_inverse(key, b as int);
                    assert(with_bit_set(ck, b as int) == key);
                }
            }
            if node.is_zero() {
                next.push(Cursor { node: Felt::zero(), key: ck });
                proof {
                    let child = if take_right {
                        rhalf(subs[t as int], b as int)
                    } else {
                        lhalf(subs[t as int], b as int)
                    };
                    lemma_halves_wf(subs[t as int], b as int);
                    lemma_halves_absent(subs[t as int], b as int);
                    nsubs = nsubs.push(child);
                }
            } else {
                let pos = positions[t];
                let v = match &vals[pos] {
                    Some(v) => v,
                    None => {
                        proof {
                            assert(false);
                        }
                        return Err(TreeError::MissingFact);
                    },
                };
                if v.len() != 64 {
                    proof {
                        assert(false);
                    }
                    return Err(TreeError::DecodeFailure);
                }
                let lb = copy_range(v, 0, 32);
                let rb = copy_range(v, 32, 64);
                let l = Felt::from_bytes_be(lb.as_slice());
                let r = Felt::from_bytes_be(rb.as_slice());
                proof {
                    assert(v@ == storage.contents()[node]);
                    assert(v@.subrange(0, 32) =~= storage.contents()[node].take(32));
                    assert(v@.subrange(32, 64) =~= storage.contents()[node].subrange(32, 64));
                }
                if take_right {
                    next.push(Cursor { node: r, key: ck });
                    proof {
                        nsubs = nsubs.push(rhalf(subs[t as int], b as int));
                    }
                } else {
                    next.push(Cursor { node: l, key: ck });
                    proof {
                        nsubs = nsubs.push(lhalf(subs[t as int], b as int));
                    }
                }
            }
            t += 1;
        }
        cursors = next;
        proof {
            subs = nsubs;
        }
        level = b;
    }
    // Depth zero: one more collective read resolves the leaf bytes.
    let pair = collect_batch(&cursors);
    let batch = pair.0;
    let positions = pair.1;
    let vals: Vec<Option<Vec<u8>>> = if batch.len() == 0 {
        Vec::new()
    } else {
        match storage.get_many(&batch) {
            Ok(v) => v,
            Err(e) => {
                proof {
                    if root == felt_zero() {
                        let w = choose|w: int|
                            0 <= w < cursors@.len() && (#[trigger] cursors@[w]).node
                                != felt_zero();
                        assert(false);
                    }
                }
                return Err(e);
            },
        }
    };
    proof {
        assert forall|j: int| 0 <= j < batch@.len() implies crate::storage::opt_bytes(
            #[trigger] vals@[j],
        ) == crate::storage::store_lookup(storage.contents(), batch@[j]) by {};
    }
    let mut out: Vec<Option<Vec<u8>>> = Vec::new();
    let mut t: usize = 0;
    while t < cursors.len()
        invariant
            t <= cursors@.len(),
            out@.len() == t,
            forall|u: int|
                0 <= u < t ==> crate::storage::opt_bytes(#[trigger] out@[u]) == leaf_bytes_at(
                    f,
                    keys@[u],
                ),
        decreases cursors@.len() - t,
    {
        let node = cursors[t].node;
        if node.is_zero() {
            out.push(None);
        } else {
            proof {
                lemma_fits_below_zero(cursors@[t as int].key);
            }
            let pos = positions[t];
            let v = match &vals[pos] {
                Some(v) => v,
                None => {
                    proof {
                        assert(false);
                    }
                    return Err(TreeError::MissingFact);
                },
            };
            out.push(Some(clone_bytes(v)));
        }
        t += 1;
    }
    Ok(out)
}

/// What a successful leaf read must return: the decoding of the stored
/// bytes where a leaf exists, the canonical empty leaf where none does.
pub open spec fn leaf_read_ok<LF: LeafFact>(f: Map<Felt, LeafImage>, key: Felt, leaf: LF) -> bool {
    if f.dom().contains(key) {
        LF::parse_spec(f[key].bytes) == Some(leaf)
    } else {
        leaf == LF::empty_spec()
    }
}

impl PatriciaTree {
    /// Builds a tree of the given height whose every index holds
    /// `default_leaf`.  For an empty default no fact is written at all: the
    /// whole tree is the implicit empty sentinel.
    pub fn empty_tree<S: Storage, LF: LeafFact>(
        storage: &mut S,
        kind: HashKind,
        height: u64,
        default_leaf: &LF,
    ) -> (r: Result<PatriciaTree, TreeError>)
        requires
            height <= 256,
        ensures
            store_extends(final (storage).contents(), old(storage).contents()),
            match r {
                Ok(t) => t.height == height && t.leaves@ == default_leaves(
                    height as int,
                    image_of(*default_leaf),
                ) && t.wf(final (storage).contents(), kind) && t.root == root_of(
                    kind,
                    height as nat,
                    t.leaves@,
                ),
                Err(e) => e == TreeError::StorageFailure || e == TreeError::FactConflict,
            },
            default_leaf.is_empty_spec() ==> match r {
                Ok(t) => t.root == felt_zero() && t.leaves@ == Map::<Felt, LeafImage>::empty()
                    && final (storage).contents() == old(storage).contents(),
                Err(_) => false,
            },
    {
        let payload = LeafPayload { digest: default_leaf.leaf_digest(), bytes: default_leaf.serialize() };
        proof {
            default_leaf.law_empty_digest();
        }
        empty_tree_raw(storage, kind, height, &payload)
    }

    /// Reads the leaf at `key`, descending by its bits from the most
    /// significant; a path through an empty subtree yields the empty leaf
    /// without touching storage.
    pub fn get_leaf<S: Storage, LF: LeafFact>(&self, storage: &S, kind: HashKind, key: &Felt) -> (r:
        Result<LF, TreeError>)
        requires
            self.wf(storage.contents(), kind),
            self.height <= 256,
            fits_below(*key, self.height as int),
        ensures
            match r {
                Ok(leaf) => leaf_read_ok(self.leaves@, *key, leaf),
                Err(e) => e == TreeError::StorageFailure || (e == TreeError::DecodeFailure
                    && self.leaves@.dom().contains(*key) && LF::parse_spec(
                    self.leaves@[*key].bytes,
                ) is None),
            },
            self.root == felt_zero() ==> r is Ok,
    {
        match get_leaf_node(
            storage,
            self.root,
            self.height,
            *key,
            Ghost(kind),
            Ghost(self.leaves@),
        ) {
            Ok(None) => Ok(LF::empty_leaf()),
            Ok(Some(bytes)) => {
                proof {
                    assert(self.leaves@.dom().contains(*key));
                }
                LF::deserialize(&bytes)
            },
            Err(e) => Err(e),
        }
    }

    /// Reads many leaves; entry `i` of the result answers for key `i`.
    pub fn get_leaves<S: Storage, LF: LeafFact>(
        &self,
        storage: &S,
        kind: HashKind,
        keys: &Vec<Felt>,
    ) -> (r: Result<Vec<LF>, TreeError>)
        requires
            self.wf(storage.contents(), kind),
            self.height <= 256,
            forall|i: int|
                0 <= i < keys@.len() ==> fits_below(#[trigger] keys@[i], self.height as int),
        ensures
            match r {
                Ok(vals) => vals@.len() == keys@.len() && forall|i: int|
                    0 <= i < keys@.len() ==> leaf_read_ok(self.leaves@, keys@[i], #[trigger] vals@[i]),
                Err(e) => e == TreeError::StorageFailure || (e == TreeError::DecodeFailure
                    && exists|i: int|
                    0 <= i < keys@.len() && self.leaves@.dom().contains(#[trigger] keys@[i])
                        && LF::parse_spec(self.leaves@[keys@[i]].bytes) is None),
            },
            keys@.len() == 0 ==> r is Ok,
            self.root == felt_zero() ==> r is Ok,
    {
        let raw = match get_leaves_node(
            storage,
            self.root,
            self.height,
            keys,
            Ghost(kind),
            Ghost(self.leaves@),
        ) {
            Ok(v) => v,
            Err(e) => {
                return Err(e);
            },
        };
        let mut vals: Vec<LF> = Vec::new();
        let mut i: usize = 0;
        while i < raw.len()
            invariant
                i <= raw@.len(),
                raw@.len() == keys@.len(),
                vals@.len() == i,
                self.wf(storage.contents(), kind),
                forall|t: int|
                    0 <= t < keys@.len() ==> crate::storage::opt_bytes(#[trigger] raw@[t])
                        == leaf_bytes_at(self.leaves@, keys@[t]),
                forall|t: int|
                    0 <= t < i ==> leaf_read_ok(self.leaves@, keys@[t], #[trigger] vals@[t]),
            decreases raw@.len() - i,
        {
            match &raw[i] {
                Some(bytes) => {
                    match LF::deserialize(bytes) {
                        Ok(leaf) => vals.push(leaf),
                        Err(e) => {
                            proof {
                                assert(self.leaves@.dom().contains(keys@[i as int])
                                    && LF::parse_spec(self.leaves@[keys@[i as int]].bytes) is None);
                            }
                            return Err(e);
                        },
                    }
                },
                None => vals.push(LF::empty_leaf()),
            }
            i += 1;
        }
        Ok(vals)
    }

    /// Applies a batch of leaf writes and returns the new tree; the
    /// receiver is unchanged and its facts stay valid.  Each index may
    /// appear at most once per call.  An empty batch changes nothing.
    pub fn update<S: Storage, LF: LeafFact>(
        &self,
        storage: &mut S,
        kind: HashKind,
        mods: &Vec<(Felt, LF)>,
    ) -> (r: Result<PatriciaTree, TreeError>)
        requires
            self.wf(old(storage).contents(), kind),
            self.height <= 256,
            forall|i: int|
                0 <= i < mods@.len() ==> fits_below(#[trigger] mods@[i].0, self.height as int),
            forall|i: int, j: int| 0 <= i < j < mods@.len() ==> mods@[i].0 != mods@[j].0,
        ensures
            store_extends(final (storage).contents(), old(storage).contents()),
            match r {
                Ok(t) => t.height == self.height && t.leaves@ == apply_mods(
                    self.leaves@,
                    typed_images(mods@),
                ) && t.root == root_of(kind, self.height as nat, t.leaves@) && t.wf(
                    final (storage).contents(),
                    kind,
                ),
                Err(e) => e == TreeError::StorageFailure || e == TreeError::FactConflict,
            },
            mods@.len() == 0 ==> final (storage).contents() == old(storage).contents() && match r {
                Ok(t) => t.root == self.root,
                Err(_) => false,
            },
    {
        let ghost f = self.leaves@;
        let mut payloads: Vec<(Felt, LeafPayload)> = Vec::new();
        let mut i: usize = 0;
        while i < mods.len()
            invariant
                i <= mods@.len(),
                payloads@.len() == i,
                mods_images(payloads@) == typed_images(mods@.take(i as int)),
            decreases mods@.len() - i,
        {
            let m = &mods[i];
            let ghost prev = payloads@;
            payloads.push((m.0, LeafPayload { digest: m.1.leaf_digest(), bytes: m.1.serialize() }));
            proof {
                assert(typed_images(mods@.take(i + 1)).drop_last() =~= typed_images(
                    mods@.take(i as int),
                ));
                assert(typed_images(mods@.take(i + 1)).last() == (
                    mods@[i as int].0,
                    image_of(mods@[i as int].1),
                ));
                assert(mods_images(payloads@) =~= mods_images(prev).push(
                    (mods@[i as int].0, image_of(mods@[i as int].1)),
                ));
                assert(typed_images(mods@.take(i + 1)) =~= typed_images(mods@.take(i as int)).push(
                    (mods@[i as int].0, image_of(mods@[i as int].1)),
                ));
            }
            i += 1;
        }
        proof {
            assert(mods@.take(mods@.len() as int) =~= mods@);
            assert forall|t: int| 0 <= t < payloads@.len() implies fits_below(
                #[trigger] payloads@[t].0,
                self.height as int,
            ) by {
                assert(mods_images(payloads@)[t].0 == payloads@[t].0);
                assert(typed_images(mods@)[t].0 == mods@[t].0);
            };
        }
        match update_node(storage, kind, self.root, self.height, &payloads, Ghost(f)) {
            Ok(nr) => {
                let t = PatriciaTree {
                    root: nr,
                    height: self.height,
                    leaves: Ghost(apply_mods(f, typed_images(mods@))),
                };
                Ok(t)
            },
            Err(e) => Err(e),
        }
    }
}

} // verus!
