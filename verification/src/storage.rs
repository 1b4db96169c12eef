use vstd::prelude::*;
use crate::errors::TreeError;
use crate::felt::Felt;

verus! {

/// What a lookup of `k` in store contents `m` yields.
pub open spec fn store_lookup(m: Map<Felt, Seq<u8>>, k: Felt) -> Option<Seq<u8>> {
    if m.dom().contains(k) {
        Some(m[k])
    } else {
        None
    }
}

/// The byte view of an optional byte vector.
pub open spec fn opt_bytes(o: Option<Vec<u8>>) -> Option<Seq<u8>> {
    match o {
        Some(v) => Some(v@),
        None => None,
    }
}

/// `new` keeps every binding of `old`: facts are only ever added.
pub open spec fn store_extends(new: Map<Felt, Seq<u8>>, old: Map<Felt, Seq<u8>>) -> bool {
    forall|k: Felt| #[trigger] old.dom().contains(k) ==> new.dom().contains(k) && new[k] == old[k]
}

/// Extension of stores is transitive.
pub proof fn lemma_store_extends_trans(
    a: Map<Felt, Seq<u8>>,
    b: Map<Felt, Seq<u8>>,
    c: Map<Felt, Seq<u8>>,
)
    requires
        store_extends(b, a),
        store_extends(c, b),
    ensures
        store_extends(c, a),
{
    assert forall|k: Felt| a.dom().contains(k) implies c.dom().contains(k) && c[k] == a[k] by {
        assert(b.dom().contains(k) && b[k] == a[k]);
    };
}

/// A content-addressed fact store: keys are digests, values are serialized
/// facts.  There is no deletion and no update-in-place; a backend may fail,
/// and failure is reported, never retried here.
pub trait Storage: Sized {
    /// The bindings the store currently holds.
    spec fn contents(&self) -> Map<Felt, Seq<u8>>;

    /// Reads the bytes stored under `key`, if any.
    fn get_value(&self, key: &Felt) -> (r: Result<Option<Vec<u8>>, TreeError>)
        ensures
            match r {
                Ok(o) => opt_bytes(o) == store_lookup(self.contents(), *key),
                Err(e) => e == TreeError::StorageFailure,
            },
    ;

    /// Binds `key` to `value`.
    fn set_value(&mut self, key: Felt, value: Vec<u8>) -> (r: Result<(), TreeError>)
        ensures
            match r {
                Ok(_) => final (self).contents() == old(self).contents().insert(key, value@),
                Err(e) => e == TreeError::StorageFailure && final (self).contents() == old(
                    self
                ).contents(),
            },
    ;

    /// Reads many keys in one collective request; entry `i` of the result
    /// answers for key `i`.
    fn get_many(&self, keys: &Vec<Felt>) -> (r: Result<Vec<Option<Vec<u8>>>, TreeError>)
        ensures
            match r {
                Ok(vals) => vals@.len() == keys@.len() && forall|i: int|
                    0 <= i < keys@.len() ==> opt_bytes(vals@[i]) == store_lookup(
                        self.contents(),
                        keys@[i],
                    ),
                Err(e) => e == TreeError::StorageFailure,
            },
    ;
}

/// Copies a byte vector.
pub fn clone_bytes(v: &Vec<u8>) -> (r: Vec<u8>)
    ensures
        r@ == v@,
{
    let mut r: Vec<u8> = Vec::new();
    let mut i: usize = 0;
    while i < v.len()
        invariant
            i <= v@.len(),
            r@ == v@.take(i as int),
        decreases v@.len() - i,
    {
        r.push(v[i]);
        proof {
            assert(r@ =~= v@.take(i + 1));
        }
        i += 1;
    }
    proof {
        assert(v@.take(v@.len() as int) =~= v@);
    }
    r
}

/// Copies `v[start..end]`.
pub fn copy_range(v: &Vec<u8>, start: usize, end: usize) -> (r: Vec<u8>)
    requires
        start <= end <= v@.len(),
    ensures
        r@ == v@.subrange(start as int, end as int),
{
    let mut r: Vec<u8> = Vec::new();
    let mut i: usize = start;
    while i < end
        invariant
            start <= i <= end <= v@.len(),
            r@ == v@.subrange(start as int, i as int),
        decreases end - i,
    {
        r.push(v[i]);
        proof {
            assert(r@ =~= v@.subrange(start as int, i + 1));
        }
        i += 1;
    }
    r
}

/// Whether two byte vectors hold the same bytes.
pub fn bytes_eq(a: &Vec<u8>, b: &Vec<u8>) -> (r: bool)
    ensures
        r == (a@ == b@),
{
    if a.len() != b.len() {
        return false;
    }
    let mut i: usize = 0;
    while i < a.len()
        invariant
            a@.len() == b@.len(),
            i <= a@.len(),
            forall|t: int| 0 <= t < i ==> a@[t] == b@[t],
        decreases a@.len() - i,
    {
        if a[i] != b[i] {
            return false;
        }
        i += 1;
    }
    proof {
        assert(a@ =~= b@);
    }
    true
}

/// An in-memory fact store: the substitutable test backend.  Bindings live
/// in insertion order; the latest binding of a key wins.
pub struct DictStorage {
    pub slots: Vec<(Felt, Vec<u8>)>,
}

/// The bindings described by an association list, later entries winning.
pub open spec fn assoc_contents(s: Seq<(Felt, Vec<u8>)>) -> Map<Felt, Seq<u8>>
    decreases s.len(),
{
    if s.len() == 0 {
        Map::empty()
    } else {
        assoc_contents(s.drop_last()).insert(s.last().0, s.last().1@)
    }
}

/// A key that no entry of `s[i..]` binds resolves the same in `s` as in
/// `s[..i]`.
proof fn lemma_assoc_skip(s: Seq<(Felt, Vec<u8>)>, k: Felt, i: int)
    requires
        0 <= i <= s.len(),
        forall|t: int| i <= t < s.len() ==> s[t].0 != k,
    ensures
        store_lookup(assoc_contents(s), k) == store_lookup(assoc_contents(s.take(i)), k),
    decreases s.len() - i,
{
    if i == s.len() {
        assert(s.take(i) =~= s);
    } else {
        assert(s[s.len() - 1].0 != k);
        lemma_assoc_skip(s.drop_last(), k, i);
        assert(s.drop_last().take(i) =~= s.take(i));
    }
}

impl DictStorage {
    /// An empty store.
    pub fn new() -> (r: DictStorage)
        ensures
            r.contents() == Map::<Felt, Seq<u8>>::empty(),
    {
        DictStorage { slots: Vec::new() }
    }
}

impl Storage for DictStorage {
    open spec fn contents(&self) -> Map<Felt, Seq<u8>> {
        assoc_contents(self.slots@)
    }

    fn get_value(&self, key: &Felt) -> (r: Result<Option<Vec<u8>>, TreeError>) {
        let mut i: usize = self.slots.len();
        while i > 0
            invariant
                i <= self.slots@.len(),
                forall|t: int| i <= t < self.slots@.len() ==> self.slots@[t].0 != *key,
            decreases i,
        {
            i = i - 1;
            if self.slots[i].0 == *key {
                proof {
                    lemma_assoc_skip(self.slots@, *key, i + 1);
                    assert(self.slots@.take(i + 1).drop_last() =~= self.slots@.take(i as int));
                    assert(self.slots@.take(i + 1).last() == self.slots@[i as int]);
                }
                return Ok(Some(clone_bytes(&self.slots[i].1)));
            }
        }
        proof {
            lemma_assoc_skip(self.slots@, *key, 0);
            assert(self.slots@.take(0) =~= Seq::<(Felt, Vec<u8>)>::empty());
        }
        Ok(None)
    }

    fn set_value(&mut self, key: Felt, value: Vec<u8>) -> (r: Result<(), TreeError>) {
        self.slots.push((key, value));
        proof {
            assert(self.slots@.drop_last() =~= old(self).slots@);
        }
        Ok(())
    }

    fn get_many(&self, keys: &Vec<Felt>) -> (r: Result<Vec<Option<Vec<u8>>>, TreeError>) {
        let mut vals: Vec<Option<Vec<u8>>> = Vec::new();
        let mut i: usize = 0;
        while i < keys.len()
            invariant
                i <= keys@.len(),
                vals@.len() == i,
                forall|t: int| 0 <= t < i ==> opt_bytes(vals@[t]) == store_lookup(
                    self.contents(),
                    keys@[t],
                ),
            decreases keys@.len() - i,
        {
            match self.get_value(&keys[i]) {
                Ok(o) => vals.push(o),
                Err(e) => {
                    return Err(e);
                },
            }
            i += 1;
        }
        Ok(vals)
    }
}

/// Writes one fact under its digest.  Content addressing never rebinds a
/// digest: bytes already stored under `key` must be the same bytes, else
/// the store is inconsistent and the write fails.
pub fn write_fact<S: Storage>(storage: &mut S, key: Felt, value: Vec<u8>) -> (r: Result<
    (),
    TreeError,
>)
    ensures
        match r {
            Ok(_) => final (storage).contents() == old(storage).contents().insert(key, value@)
                && store_extends(final (storage).contents(), old(storage).contents()),
            Err(e) => (e == TreeError::StorageFailure || e == TreeError::FactConflict) && final (
                storage
            ).contents() == old(storage).contents(),
        },
        r == Result::<(), TreeError>::Err(TreeError::FactConflict) ==> old(
            storage
        ).contents().dom().contains(key) && old(storage).contents()[key] != value@,
{
    match storage.get_value(&key) {
        Ok(Some(existing)) => {
            if bytes_eq(&existing, &value) {
                proof {
                    assert(storage.contents().insert(key, value@) =~= storage.contents());
                }
                Ok(())
            } else {
                Err(TreeError::FactConflict)
            }
        },
        Ok(None) => {
            let r = storage.set_value(key, value);
            proof {
                if r is Ok {
                    assert(store_extends(storage.contents(), old(storage).contents()));
                }
            }
            r
        },
        Err(e) => Err(e),
    }
}

} // verus!
