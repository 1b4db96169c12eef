use vstd::prelude::*;
use crate::felt::Felt;

verus! {

/// The mapping described by a key/value pair list, later entries winning.
/// The state-diff lists the engine consumes bind each key at most once, so
/// the order of the list never matters to the mapping.
pub open spec fn pair_map(s: Seq<(Felt, Felt)>) -> Map<Felt, Felt>
    decreases s.len(),
{
    if s.len() == 0 {
        Map::empty()
    } else {
        pair_map(s.drop_last()).insert(s.last().0, s.last().1)
    }
}

/// The per-contract storage-write lists keyed by contract address.
pub open spec fn storage_update_map(s: Seq<(Felt, Vec<(Felt, Felt)>)>) -> Map<
    Felt,
    Seq<(Felt, Felt)>,
>
    decreases s.len(),
{
    if s.len() == 0 {
        Map::empty()
    } else {
        storage_update_map(s.drop_last()).insert(s.last().0, s.last().1@)
    }
}

/// Whether the keys of a pair list are pairwise distinct.
pub open spec fn pair_keys_distinct(s: Seq<(Felt, Felt)>) -> bool {
    forall|i: int, j: int| 0 <= i < j < s.len() ==> s[i].0 != s[j].0
}

/// A key that no entry of `s[i..]` binds resolves the same in `s` as in
/// `s[..i]`.
proof fn lemma_pair_map_skip(s: Seq<(Felt, Felt)>, k: Felt, i: int)
    requires
        0 <= i <= s.len(),
        forall|t: int| i <= t < s.len() ==> s[t].0 != k,
    ensures
        pair_map(s).dom().contains(k) == pair_map(s.take(i)).dom().contains(k),
        pair_map(s).dom().contains(k) ==> pair_map(s)[k] == pair_map(s.take(i))[k],
    decreases s.len() - i,
{
    if i == s.len() {
        assert(s.take(i) =~= s);
    } else {
        assert(s[s.len() - 1].0 != k);
        lemma_pair_map_skip(s.drop_last(), k, i);
        assert(s.drop_last().take(i) =~= s.take(i));
    }
}

/// The same, for the storage-write lists.
proof fn lemma_storage_map_skip(s: Seq<(Felt, Vec<(Felt, Felt)>)>, k: Felt, i: int)
    requires
        0 <= i <= s.len(),
        forall|t: int| i <= t < s.len() ==> s[t].0 != k,
    ensures
        storage_update_map(s).dom().contains(k) == storage_update_map(s.take(i)).dom().contains(k),
        storage_update_map(s).dom().contains(k) ==> storage_update_map(s)[k] == storage_update_map(
            s.take(i),
        )[k],
    decreases s.len() - i,
{
    if i == s.len() {
        assert(s.take(i) =~= s);
    } else {
        assert(s[s.len() - 1].0 != k);
        lemma_storage_map_skip(s.drop_last(), k, i);
        assert(s.drop_last().take(i) =~= s.take(i));
    }
}

/// Pushing keeps every element present, and adds the pushed one.
pub proof fn lemma_push_keeps_contains(s: Seq<Felt>, v: Felt)
    ensures
        forall|x: Felt| s.contains(x) ==> #[trigger] s.push(v).contains(x),
        s.push(v).contains(v),
{
    assert forall|x: Felt| s.contains(x) implies #[trigger] s.push(v).contains(x) by {
        let e = choose|e: int| 0 <= e < s.len() && s[e] == x;
        assert(s.push(v)[e] == x);
    };
    assert(s.push(v)[s.len() as int] == v);
}

/// Looks a key up in a pair list.
pub fn lookup_pair(s: &Vec<(Felt, Felt)>, key: &Felt) -> (r: Option<Felt>)
    ensures
        match r {
            Some(v) => pair_map(s@).dom().contains(*key) && pair_map(s@)[*key] == v,
            None => !pair_map(s@).dom().contains(*key),
        },
{
    let mut i: usize = s.len();
    while i > 0
        invariant
            i <= s@.len(),
            forall|t: int| i <= t < s@.len() ==> s@[t].0 != *key,
        decreases i,
    {
        i = i - 1;
        if s[i].0 == *key {
            proof {
                lemma_pair_map_skip(s@, *key, i + 1);
                assert(s@.take(i + 1).drop_last() =~= s@.take(i as int));
                assert(s@.take(i + 1).last() == s@[i as int]);
            }
            return Some(s[i].1);
        }
    }
    proof {
        lemma_pair_map_skip(s@, *key, 0);
        assert(s@.take(0) =~= Seq::<(Felt, Felt)>::empty());
    }
    None
}

/// Finds the entry of a storage-write list for an address, as its index.
pub fn lookup_storage_updates(s: &Vec<(Felt, Vec<(Felt, Felt)>)>, key: &Felt) -> (r: Option<usize>)
    ensures
        match r {
            Some(i) => i < s@.len() && s@[i as int].0 == *key && storage_update_map(
                s@,
            ).dom().contains(*key) && storage_update_map(s@)[*key] == s@[i as int].1@,
            None => !storage_update_map(s@).dom().contains(*key),
        },
{
    let mut i: usize = s.len();
    while i > 0
        invariant
            i <= s@.len(),
            forall|t: int| i <= t < s@.len() ==> s@[t].0 != *key,
        decreases i,
    {
        i = i - 1;
        if s[i].0 == *key {
            proof {
                lemma_storage_map_skip(s@, *key, i + 1);
                assert(s@.take(i + 1).drop_last() =~= s@.take(i as int));
                assert(s@.take(i + 1).last() == s@[i as int]);
            }
            return Some(i);
        }
    }
    proof {
        lemma_storage_map_skip(s@, *key, 0);
        assert(s@.take(0) =~= Seq::<(Felt, Vec<(Felt, Felt)>)>::empty());
    }
    None
}

/// With distinct keys, the mapping reads pointwise from the list: the value
/// at a key's unique entry.
pub proof fn lemma_pair_map_index(s: Seq<(Felt, Felt)>, i: int)
    requires
        pair_keys_distinct(s),
        0 <= i < s.len(),
    ensures
        pair_map(s).dom().contains(s[i].0),
        pair_map(s)[s[i].0] == s[i].1,
    decreases s.len(),
{
    if i == s.len() - 1 {
        assert(s.last() == s[i]);
    } else {
        assert(forall|t: int, u: int|
            0 <= t < u < s.drop_last().len() ==> s.drop_last()[t].0 != s.drop_last()[u].0) by {
            assert(forall|t: int| 0 <= t < s.drop_last().len() ==> s.drop_last()[t] == s[t]);
        };
        lemma_pair_map_index(s.drop_last(), i);
        assert(s.drop_last()[i] == s[i]);
        assert(s.last() == s[s.len() - 1]);
        assert(s[i].0 != s[s.len() - 1].0);
    }
}

/// With distinct addresses, the storage-write mapping reads pointwise from
/// the list.
pub proof fn lemma_storage_map_index(s: Seq<(Felt, Vec<(Felt, Felt)>)>, i: int)
    requires
        forall|t: int, u: int| 0 <= t < u < s.len() ==> s[t].0 != s[u].0,
        0 <= i < s.len(),
    ensures
        storage_update_map(s).dom().contains(s[i].0),
        storage_update_map(s)[s[i].0] == s[i].1@,
    decreases s.len(),
{
    if i == s.len() - 1 {
        assert(s.last() == s[i]);
    } else {
        assert(forall|t: int, u: int|
            0 <= t < u < s.drop_last().len() ==> s.drop_last()[t].0 != s.drop_last()[u].0) by {
            assert(forall|t: int| 0 <= t < s.drop_last().len() ==> s.drop_last()[t] == s[t]);
        };
        lemma_storage_map_index(s.drop_last(), i);
        assert(s.drop_last()[i] == s[i]);
        assert(s.last() == s[s.len() - 1]);
        assert(s[i].0 != s[s.len() - 1].0);
    }
}

/// Every key of the mapping stands somewhere in the list.
pub proof fn lemma_pair_map_member(s: Seq<(Felt, Felt)>, k: Felt)
    requires
        pair_map(s).dom().contains(k),
    ensures
        exists|i: int| 0 <= i < s.len() && #[trigger] s[i].0 == k,
    decreases s.len(),
{
    if s.len() > 0 {
        if s.last().0 == k {
            assert(s[s.len() - 1].0 == k);
        } else {
            lemma_pair_map_member(s.drop_last(), k);
            let i = choose|i: int| 0 <= i < s.drop_last().len() && #[trigger] s.drop_last()[i].0
                == k;
            assert(s[i].0 == k);
        }
    }
}

/// Every address of the storage-write mapping stands somewhere in the list.
pub proof fn lemma_storage_map_member(s: Seq<(Felt, Vec<(Felt, Felt)>)>, k: Felt)
    requires
        storage_update_map(s).dom().contains(k),
    ensures
        exists|i: int| 0 <= i < s.len() && #[trigger] s[i].0 == k,
    decreases s.len(),
{
    if s.len() > 0 {
        if s.last().0 == k {
            assert(s[s.len() - 1].0 == k);
        } else {
            lemma_storage_map_member(s.drop_last(), k);
            let i = choose|i: int| 0 <= i < s.drop_last().len() && #[trigger] s.drop_last()[i].0
                == k;
            assert(s[i].0 == k);
        }
    }
}

} // verus!
