use vstd::prelude::*;
use crate::felt::{
    felt_of_bytes, felt_zero, fits_below, spec_bit, with_bit_clear, with_bit_set, Felt,
    lemma_fits_below_zero, lemma_with_bit_clear_bits, lemma_with_bit_set_bits,
    lemma_bit_set_clear_inverse, lemma_felt_bit_ext,
};
use crate::hashing::{node_digest, HashKind};
use crate::storage::store_extends;

verus! {

/// The stored image of one leaf: the digest under which its fact lives and
/// the serialized bytes of the fact.  A digest equal to the empty sentinel
/// never appears in a tree's leaf map; such a leaf is simply absent.
pub struct LeafImage {
    pub digest: Felt,
    pub bytes: Seq<u8>,
}

/// Whether `m` binds nothing.
pub open spec fn map_absent<K, V>(m: Map<K, V>) -> bool {
    forall|k: K| !m.dom().contains(k)
}

/// Leaf-map well-formedness at `level`: every index fits in `level` bits
/// and every entry is a non-empty leaf.
pub open spec fn entries_wf(f: Map<Felt, LeafImage>, level: int) -> bool {
    forall|k: Felt| #[trigger]
        f.dom().contains(k) ==> fits_below(k, level) && f[k].digest != felt_zero()
}

/// The leaves of the subtree where bit `b` of the index is clear, under
/// their unchanged indices.
pub open spec fn lhalf(f: Map<Felt, LeafImage>, b: int) -> Map<Felt, LeafImage> {
    Map::new(|k: Felt| f.dom().contains(k) && !spec_bit(k, b), |k: Felt| f[k])
}

/// The leaves of the subtree where bit `b` of the index is set, re-indexed
/// with that bit cleared.
pub open spec fn rhalf(f: Map<Felt, LeafImage>, b: int) -> Map<Felt, LeafImage> {
    Map::new(
        |k: Felt| !spec_bit(k, b) && f.dom().contains(with_bit_set(k, b)),
        |k: Felt| f[with_bit_set(k, b)],
    )
}

/// The root digest of a height-`level` tree holding the leaves `f`: the
/// empty sentinel for no leaves, the single leaf digest at height zero, and
/// the binary hash of the two child roots otherwise.
pub open spec fn root_of(kind: HashKind, level: nat, f: Map<Felt, LeafImage>) -> Felt
    decreases level,
{
    if map_absent(f) {
        felt_zero()
    } else if level == 0 {
        f[felt_zero()].digest
    } else {
        node_digest(
            kind,
            root_of(kind, (level - 1) as nat, lhalf(f, level - 1)),
            root_of(kind, (level - 1) as nat, rhalf(f, level - 1)),
        )
    }
}

/// The store `store` holds a well-formed height-`level` tree with root
/// digest `root` and leaves `f`: every node on a path to a leaf of `f` has
/// its two-child preimage stored under its digest, untouched empty subtrees
/// are the sentinel and need no storage row, and each leaf's fact bytes are
/// stored under the leaf digest.
pub open spec fn tree_rep(
    store: Map<Felt, Seq<u8>>,
    kind: HashKind,
    root: Felt,
    level: nat,
    f: Map<Felt, LeafImage>,
) -> bool
    decreases level,
{
    entries_wf(f, level as int) && if root == felt_zero() {
        map_absent(f)
    } else if level == 0 {
        f.dom().contains(felt_zero()) && f[felt_zero()].digest == root && store.dom().contains(root)
            && store[root] == f[felt_zero()].bytes
    } else {
        !map_absent(f) && store.dom().contains(root) && store[root].len() == 64 && {
            let l = felt_of_bytes(store[root].take(32));
            let r = felt_of_bytes(store[root].subrange(32, 64));
            root == node_digest(kind, l, r) && tree_rep(
                store,
                kind,
                l,
                (level - 1) as nat,
                lhalf(f, level - 1),
            ) && tree_rep(store, kind, r, (level - 1) as nat, rhalf(f, level - 1))
        }
    }
}

/// The leaf map after a batch of modifications, applied in order: a
/// non-empty leaf replaces the binding at its index, an empty leaf erases
/// it.
pub open spec fn apply_mods(f: Map<Felt, LeafImage>, mods: Seq<(Felt, LeafImage)>) -> Map<
    Felt,
    LeafImage,
>
    decreases mods.len(),
{
    if mods.len() == 0 {
        f
    } else {
        let rest = apply_mods(f, mods.drop_last());
        let m = mods.last();
        if m.1.digest == felt_zero() {
            rest.remove(m.0)
        } else {
            rest.insert(m.0, m.1)
        }
    }
}

/// The modifications whose index has bit `b` clear, in order.
pub open spec fn keep_clear(mods: Seq<(Felt, LeafImage)>, b: int) -> Seq<(Felt, LeafImage)>
    decreases mods.len(),
{
    if mods.len() == 0 {
        Seq::empty()
    } else {
        let r = keep_clear(mods.drop_last(), b);
        if !spec_bit(mods.last().0, b) {
            r.push(mods.last())
        } else {
            r
        }
    }
}

/// The modifications whose index has bit `b` set, in order, re-indexed with
/// that bit cleared.
pub open spec fn keep_set(mods: Seq<(Felt, LeafImage)>, b: int) -> Seq<(Felt, LeafImage)>
    decreases mods.len(),
{
    if mods.len() == 0 {
        Seq::empty()
    } else {
        let r = keep_set(mods.drop_last(), b);
        if spec_bit(mods.last().0, b) {
            r.push((with_bit_clear(mods.last().0, b), mods.last().1))
        } else {
            r
        }
    }
}

/// A tree representation survives adding facts to the store.
pub proof fn lemma_rep_extends(
    s1: Map<Felt, Seq<u8>>,
    s2: Map<Felt, Seq<u8>>,
    kind: HashKind,
    root: Felt,
    level: nat,
    f: Map<Felt, LeafImage>,
)
    requires
        tree_rep(s1, kind, root, level, f),
        store_extends(s2, s1),
    ensures
        tree_rep(s2, kind, root, level, f),
    decreases level,
{
    if root == felt_zero() {
    } else if level == 0 {
    } else {
        let l = felt_of_bytes(s1[root].take(32));
        let r = felt_of_bytes(s1[root].subrange(32, 64));
        lemma_rep_extends(s1, s2, kind, l, (level - 1) as nat, lhalf(f, level - 1));
        lemma_rep_extends(s1, s2, kind, r, (level - 1) as nat, rhalf(f, level - 1));
    }
}

/// A represented tree's root is the root its leaves define.
pub proof fn lemma_rep_root(
    store: Map<Felt, Seq<u8>>,
    kind: HashKind,
    root: Felt,
    level: nat,
    f: Map<Felt, LeafImage>,
)
    requires
        tree_rep(store, kind, root, level, f),
    ensures
        root == root_of(kind, level, f),
    decreases level,
{
    if root == felt_zero() {
    } else if level == 0 {
    } else {
        let l = felt_of_bytes(store[root].take(32));
        let r = felt_of_bytes(store[root].subrange(32, 64));
        lemma_rep_root(store, kind, l, (level - 1) as nat, lhalf(f, level - 1));
        lemma_rep_root(store, kind, r, (level - 1) as nat, rhalf(f, level - 1));
    }
}

/// In a represented tree, an empty root means no leaves and conversely.
pub proof fn lemma_rep_absent(
    store: Map<Felt, Seq<u8>>,
    kind: HashKind,
    root: Felt,
    level: nat,
    f: Map<Felt, LeafImage>,
)
    requires
        tree_rep(store, kind, root, level, f),
    ensures
        (root == felt_zero()) == map_absent(f),
{
    if root != felt_zero() && level == 0 {
        assert(f.dom().contains(felt_zero()));
    }
}

/// A leaf map at `level + 1` is absent exactly when both its halves are.
pub proof fn lemma_halves_absent(f: Map<Felt, LeafImage>, b: int)
    requires
        0 <= b < 256,
        entries_wf(f, b + 1),
    ensures
        map_absent(f) == (map_absent(lhalf(f, b)) && map_absent(rhalf(f, b))),
{
    if map_absent(lhalf(f, b)) && map_absent(rhalf(f, b)) {
        assert forall|k: Felt| !f.dom().contains(k) by {
            if f.dom().contains(k) {
                if !spec_bit(k, b) {
                    assert(lhalf(f, b).dom().contains(k));
                } else {
                    let ck = with_bit_clear(k, b);
                    lemma_with_bit_clear_bits(k, b);
                    lemma_bit_set_clear_inverse(k, b);
                    assert(rhalf(f, b).dom().contains(ck));
                }
            }
        };
    }
    if map_absent(f) {
        assert forall|k: Felt| !lhalf(f, b).dom().contains(k) by {};
        assert forall|k: Felt| !rhalf(f, b).dom().contains(k) by {};
    }
}

/// Half-map entries are well formed one level down.
pub proof fn lemma_halves_wf(f: Map<Felt, LeafImage>, b: int)
    requires
        0 <= b < 256,
        entries_wf(f, b + 1),
    ensures
        entries_wf(lhalf(f, b), b),
        entries_wf(rhalf(f, b), b),
{
    assert forall|k: Felt| #[trigger] lhalf(f, b).dom().contains(k) implies fits_below(k, b)
        && lhalf(f, b)[k].digest != felt_zero() by {
        assert(f.dom().contains(k));
        assert forall|j: int| b <= j < 256 implies !spec_bit(k, j) by {
            if j > b {
                assert(fits_below(k, b + 1));
            }
        };
    };
    assert forall|k: Felt| #[trigger] rhalf(f, b).dom().contains(k) implies fits_below(k, b)
        && rhalf(f, b)[k].digest != felt_zero() by {
        let sk = with_bit_set(k, b);
        assert(f.dom().contains(sk));
        lemma_with_bit_set_bits(k, b);
        assert forall|j: int| b <= j < 256 implies !spec_bit(k, j) by {
            if j > b {
                assert(fits_below(sk, b + 1));
                assert(spec_bit(sk, j) == spec_bit(k, j));
            }
        };
    };
}

/// Modifications keep entries well formed.
pub proof fn lemma_apply_mods_wf(
    f: Map<Felt, LeafImage>,
    mods: Seq<(Felt, LeafImage)>,
    level: int,
)
    requires
        entries_wf(f, level),
        forall|i: int| 0 <= i < mods.len() ==> fits_below(#[trigger] mods[i].0, level),
    ensures
        entries_wf(apply_mods(f, mods), level),
    decreases mods.len(),
{
    if mods.len() > 0 {
        lemma_apply_mods_wf(f, mods.drop_last(), level);
        assert(mods[mods.len() - 1] == mods.last());
    }
}

/// Applying a concatenation applies the parts in turn.
pub proof fn lemma_apply_mods_concat(
    f: Map<Felt, LeafImage>,
    m1: Seq<(Felt, LeafImage)>,
    m2: Seq<(Felt, LeafImage)>,
)
    ensures
        apply_mods(f, m1 + m2) == apply_mods(apply_mods(f, m1), m2),
    decreases m2.len(),
{
    if m2.len() == 0 {
        assert(m1 + m2 =~= m1);
    } else {
        lemma_apply_mods_concat(f, m1, m2.drop_last());
        assert((m1 + m2).drop_last() =~= m1 + m2.drop_last());
        assert((m1 + m2).last() == m2.last());
    }
}

/// An insertion at an index with bit `b` clear lands in the left half and
/// leaves the right half alone.
proof fn lemma_halves_insert_clear(g: Map<Felt, LeafImage>, k: Felt, e: LeafImage, b: int)
    requires
        0 <= b < 256,
        !spec_bit(k, b),
    ensures
        lhalf(g.insert(k, e), b) == lhalf(g, b).insert(k, e),
        rhalf(g.insert(k, e), b) == rhalf(g, b),
        lhalf(g.remove(k), b) == lhalf(g, b).remove(k),
        rhalf(g.remove(k), b) == rhalf(g, b),
{
    assert forall|q: Felt| !spec_bit(q, b) implies spec_bit(#[trigger] with_bit_set(q, b), b) by {
        lemma_with_bit_set_bits(q, b);
    };
    assert(lhalf(g.insert(k, e), b) =~= lhalf(g, b).insert(k, e));
    assert(lhalf(g.remove(k), b) =~= lhalf(g, b).remove(k));
    assert forall|q: Felt| #[trigger] rhalf(g, b).dom().contains(q) || rhalf(
        g.insert(k, e),
        b,
    ).dom().contains(q) || rhalf(g.remove(k), b).dom().contains(q) implies with_bit_set(q, b)
        != k by {
        lemma_with_bit_set_bits(q, b);
    };
    assert(rhalf(g.insert(k, e), b) =~= rhalf(g, b));
    assert(rhalf(g.remove(k), b) =~= rhalf(g, b));
}

/// An insertion at an index with bit `b` set lands in the right half under
/// the cleared index and leaves the left half alone.
proof fn lemma_halves_insert_set(g: Map<Felt, LeafImage>, k: Felt, e: LeafImage, b: int)
    requires
        0 <= b < 256,
        spec_bit(k, b),
    ensures
        lhalf(g.insert(k, e), b) == lhalf(g, b),
        rhalf(g.insert(k, e), b) == rhalf(g, b).insert(with_bit_clear(k, b), e),
        lhalf(g.remove(k), b) == lhalf(g, b),
        rhalf(g.remove(k), b) == rhalf(g, b).remove(with_bit_clear(k, b)),
{
    let ck = with_bit_clear(k, b);
    lemma_with_bit_clear_bits(k, b);
    lemma_bit_set_clear_inverse(k, b);
    assert(with_bit_set(ck, b) == k);
    assert(lhalf(g.insert(k, e), b) =~= lhalf(g, b));
    assert(lhalf(g.remove(k), b) =~= lhalf(g, b));
    assert forall|q: Felt| !spec_bit(q, b) && #[trigger] with_bit_set(q, b) == k implies q
        == ck by {
        lemma_bit_set_clear_inverse(q, b);
    };
    assert forall|q: Felt| !spec_bit(q, b) && q != ck implies #[trigger] with_bit_set(q, b)
        != k by {};
    assert(rhalf(g.insert(k, e), b) =~= rhalf(g, b).insert(ck, e));
    assert(rhalf(g.remove(k), b) =~= rhalf(g, b).remove(ck));
}

/// Splitting the modifications by bit `b` commutes with applying them.
pub proof fn lemma_apply_split(f: Map<Felt, LeafImage>, mods: Seq<(Felt, LeafImage)>, b: int)
    requires
        0 <= b < 256,
    ensures
        lhalf(apply_mods(f, mods), b) == apply_mods(lhalf(f, b), keep_clear(mods, b)),
        rhalf(apply_mods(f, mods), b) == apply_mods(rhalf(f, b), keep_set(mods, b)),
    decreases mods.len(),
{
    if mods.len() == 0 {
    } else {
        lemma_apply_split(f, mods.drop_last(), b);
        let g = apply_mods(f, mods.drop_last());
        let m = mods.last();
        let k = m.0;
        let e = m.1;
        if !spec_bit(k, b) {
            lemma_halves_insert_clear(g, k, e, b);
            assert(keep_clear(mods, b).drop_last() =~= keep_clear(mods.drop_last(), b));
            assert(keep_set(mods, b) =~= keep_set(mods.drop_last(), b));
        } else {
            lemma_halves_insert_set(g, k, e, b);
            assert(keep_set(mods, b).drop_last() =~= keep_set(mods.drop_last(), b));
            assert(keep_clear(mods, b) =~= keep_clear(mods.drop_last(), b));
        }
    }
}

/// Keys of the split modification lists fit one level down.
pub proof fn lemma_keep_fits(mods: Seq<(Felt, LeafImage)>, b: int, level: int)
    requires
        0 <= b < 256,
        b + 1 <= level,
        forall|i: int| 0 <= i < mods.len() ==> fits_below(#[trigger] mods[i].0, b + 1),
    ensures
        forall|i: int|
            0 <= i < keep_clear(mods, b).len() ==> fits_below(
                #[trigger] keep_clear(mods, b)[i].0,
                b,
            ),
        forall|i: int|
            0 <= i < keep_set(mods, b).len() ==> fits_below(#[trigger] keep_set(mods, b)[i].0, b),
        keep_clear(mods, b).len() <= mods.len(),
        keep_set(mods, b).len() <= mods.len(),
    decreases mods.len(),
{
    if mods.len() > 0 {
        lemma_keep_fits(mods.drop_last(), b, level);
        let m = mods.last();
        assert(mods[mods.len() - 1] == m);
        lemma_with_bit_clear_bits(m.0, b);
        if !spec_bit(m.0, b) {
            assert forall|j: int| b <= j < 256 implies !spec_bit(m.0, j) by {
                if j > b {
                    assert(fits_below(m.0, b + 1));
                }
            };
            assert(fits_below(m.0, b));
        } else {
            let ck = with_bit_clear(m.0, b);
            assert forall|j: int| b <= j < 256 implies !spec_bit(ck, j) by {
                if j > b {
                    assert(fits_below(m.0, b + 1));
                    assert(spec_bit(ck, j) == spec_bit(m.0, j));
                }
            };
            assert(fits_below(ck, b));
        }
    }
}

/// The modification recorded for index `k`, when the list holds one.
pub open spec fn mod_entry(mods: Seq<(Felt, LeafImage)>, k: Felt) -> Option<LeafImage> {
    if exists|i: int| 0 <= i < mods.len() && mods[i].0 == k {
        Some(mods[choose|i: int| 0 <= i < mods.len() && mods[i].0 == k].1)
    } else {
        None
    }
}

/// With each index modified at most once, the applied map reads pointwise:
/// the recorded leaf where one exists (erasing when it is empty), the old
/// binding elsewhere.
pub proof fn lemma_apply_mods_lookup(f: Map<Felt, LeafImage>, mods: Seq<(Felt, LeafImage)>, k: Felt)
    requires
        forall|i: int, j: int| 0 <= i < j < mods.len() ==> mods[i].0 != mods[j].0,
    ensures
        match mod_entry(mods, k) {
            Some(e) => if e.digest == felt_zero() {
                !apply_mods(f, mods).dom().contains(k)
            } else {
                apply_mods(f, mods).dom().contains(k) && apply_mods(f, mods)[k] == e
            },
            None => apply_mods(f, mods).dom().contains(k) == f.dom().contains(k) && (
            f.dom().contains(k) ==> apply_mods(f, mods)[k] == f[k]),
        },
    decreases mods.len(),
{
    if mods.len() == 0 {
    } else {
        let rest = mods.drop_last();
        let m = mods.last();
        assert(mods[mods.len() - 1] == m);
        assert(forall|i: int, j: int| 0 <= i < j < rest.len() ==> rest[i].0 != rest[j].0) by {
            assert(forall|i: int| 0 <= i < rest.len() ==> rest[i] == mods[i]);
        };
        lemma_apply_mods_lookup(f, rest, k);
        if m.0 == k {
            assert(mod_entry(mods, k) is Some);
            let i = choose|i: int| 0 <= i < mods.len() && mods[i].0 == k;
            assert(i == mods.len() - 1);
            assert(mod_entry(mods, k) == Some(m.1));
        } else {
            if exists|i: int| 0 <= i < rest.len() && rest[i].0 == k {
                let i1 = choose|i: int| 0 <= i < rest.len() && rest[i].0 == k;
                assert(rest[i1] == mods[i1]);
                assert(mods[i1].0 == k);
                assert(mod_entry(mods, k) is Some);
                let i2 = choose|i: int| 0 <= i < mods.len() && mods[i].0 == k;
                assert(i2 < mods.len() - 1);
                assert(i1 == i2);
                assert(mod_entry(mods, k) == mod_entry(rest, k));
            } else {
                assert forall|i: int| 0 <= i < mods.len() implies mods[i].0 != k by {
                    if i < mods.len() - 1 {
                        assert(rest[i] == mods[i]);
                    }
                };
                assert(mod_entry(mods, k) is None);
                assert(mod_entry(rest, k) is None);
            }
        }
    }
}

/// When every modification hits index zero, only the last one counts.
pub proof fn lemma_apply_all_zero(f: Map<Felt, LeafImage>, mods: Seq<(Felt, LeafImage)>)
    requires
        mods.len() > 0,
        forall|i: int| 0 <= i < mods.len() ==> #[trigger] mods[i].0 == felt_zero(),
    ensures
        apply_mods(f, mods) == (if mods.last().1.digest == felt_zero() {
            f.remove(felt_zero())
        } else {
            f.insert(felt_zero(), mods.last().1)
        }),
    decreases mods.len(),
{
    let m = mods.last();
    assert(mods[mods.len() - 1].0 == felt_zero());
    assert(m.0 == felt_zero());
    if mods.len() == 1 {
        assert(apply_mods(f, mods.drop_last()) == f);
    } else {
        assert forall|i: int| 0 <= i < mods.len() - 1 implies #[trigger] mods.drop_last()[i].0
            == felt_zero() by {
            assert(mods.drop_last()[i] == mods[i]);
        };
        lemma_apply_all_zero(f, mods.drop_last());
        let g = apply_mods(f, mods.drop_last());
        let p = mods.drop_last().last();
        if m.1.digest == felt_zero() {
            assert(g.remove(felt_zero()) =~= f.remove(felt_zero()));
        } else {
            assert(g.insert(felt_zero(), m.1) =~= f.insert(felt_zero(), m.1));
        }
    }
}

} // verus!
