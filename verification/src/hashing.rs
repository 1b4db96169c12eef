use vstd::prelude::*;
use crate::felt::{bytes_of_felt, felt_of_bytes, Felt};

verus! {

/// What `starknet_crypto::pedersen_hash` returns, as 32 big-endian bytes,
/// for two 32-byte big-endian inputs.  The digest depends on the inputs
/// alone.
pub uninterp spec fn pedersen_digest(a: Seq<u8>, b: Seq<u8>) -> Seq<u8>;

/// What `starknet_crypto::poseidon_hash` returns, as 32 big-endian bytes,
/// for two 32-byte big-endian inputs.  The digest depends on the inputs
/// alone.
pub uninterp spec fn poseidon_digest(a: Seq<u8>, b: Seq<u8>) -> Seq<u8>;

/// What `starknet_crypto::poseidon_hash_many` returns, as 32 big-endian
/// bytes, for a sequence of 32-byte big-endian inputs.  The digest depends
/// on the inputs alone.
pub uninterp spec fn poseidon_chain_digest(parts: Seq<Seq<u8>>) -> Seq<u8>;

/// The Pedersen combination of two values.
pub open spec fn pedersen_felt(a: Felt, b: Felt) -> Felt {
    felt_of_bytes(pedersen_digest(bytes_of_felt(a), bytes_of_felt(b)))
}

/// The Poseidon combination of two values.
pub open spec fn poseidon_felt(a: Felt, b: Felt) -> Felt {
    felt_of_bytes(poseidon_digest(bytes_of_felt(a), bytes_of_felt(b)))
}

/// The Poseidon combination of a sequence of values.
pub open spec fn poseidon_chain_felt(parts: Seq<Felt>) -> Felt {
    felt_of_bytes(poseidon_chain_digest(parts.map_values(|f: Felt| bytes_of_felt(f))))
}

/// Which binary hash a fact-fetching context combines tree nodes with.
///
/// Two domains are in use: Pedersen for the contract-state and storage
/// trees, Poseidon for the contract-class tree.  The choice is made when a
/// context is built, never inside the tree algorithms.
#[derive(Clone, Copy, Debug, PartialEq, Eq, Structural)]
pub enum HashKind {
    Pedersen,
    Poseidon,
}

/// The binary node combination of the chosen hash domain.
pub open spec fn node_digest(kind: HashKind, a: Felt, b: Felt) -> Felt {
    match kind {
        HashKind::Pedersen => pedersen_felt(a, b),
        HashKind::Poseidon => poseidon_felt(a, b),
    }
}

/// Relies on `starknet_crypto::pedersen_hash`: a deterministic function of
/// its two field-element arguments, returned here in 32-byte big-endian
/// form via `Felt::to_bytes_be`.
#[verifier::external_body]
fn pedersen_raw(a: &[u8], b: &[u8]) -> (r: Vec<u8>)
    requires
        a@.len() == 32,
        b@.len() == 32,
    ensures
        r@ == pedersen_digest(a@, b@),
        r@.len() == 32,
{
    let fa = starknet_crypto::Felt::from_bytes_be_slice(a);
    let fb = starknet_crypto::Felt::from_bytes_be_slice(b);
    starknet_crypto::pedersen_hash(&fa, &fb).to_bytes_be().to_vec()
}

/// Relies on `starknet_crypto::poseidon_hash`: a deterministic function of
/// its two field-element arguments, returned here in 32-byte big-endian
/// form via `Felt::to_bytes_be`.
#[verifier::external_body]
fn poseidon_raw(a: &[u8], b: &[u8]) -> (r: Vec<u8>)
    requires
        a@.len() == 32,
        b@.len() == 32,
    ensures
        r@ == poseidon_digest(a@, b@),
        r@.len() == 32,
{
    let fa = starknet_crypto::Felt::from_bytes_be_slice(a);
    let fb = starknet_crypto::Felt::from_bytes_be_slice(b);
    starknet_crypto::poseidon_hash(fa, fb).to_bytes_be().to_vec()
}

/// Relies on `starknet_crypto::poseidon_hash_many`: a deterministic
/// function of its sequence of field-element arguments, returned here in
/// 32-byte big-endian form via `Felt::to_bytes_be`.
#[verifier::external_body]
fn poseidon_chain_raw(parts: &Vec<Vec<u8>>) -> (r: Vec<u8>)
    requires
        forall|i: int| 0 <= i < parts@.len() ==> parts@[i]@.len() == 32,
    ensures
        r@ == poseidon_chain_digest(parts@.map_values(|v: Vec<u8>| v@)),
        r@.len() == 32,
{
    let felts: Vec<starknet_crypto::Felt> = parts
        .iter()
        .map(|p| starknet_crypto::Felt::from_bytes_be_slice(p))
        .collect();
    starknet_crypto::poseidon_hash_many(&felts).to_bytes_be().to_vec()
}

/// Combines two values with the context's binary hash.
pub fn hash_node(kind: HashKind, a: &Felt, b: &Felt) -> (r: Felt)
    ensures
        r == node_digest(kind, *a, *b),
{
    let ab = a.to_bytes_be();
    let bb = b.to_bytes_be();
    let digest = match kind {
        HashKind::Pedersen => pedersen_raw(ab.as_slice(), bb.as_slice()),
        HashKind::Poseidon => poseidon_raw(ab.as_slice(), bb.as_slice()),
    };
    Felt::from_bytes_be(digest.as_slice())
}

/// Combines a sequence of values with the Poseidon chain hash, as the
/// global-root composition does.
pub fn hash_chain(parts: &Vec<Felt>) -> (r: Felt)
    ensures
        r == poseidon_chain_felt(parts@),
{
    let mut raw: Vec<Vec<u8>> = Vec::new();
    let mut i: usize = 0;
    while i < parts.len()
        invariant
            i <= parts@.len(),
            raw@.len() == i,
            forall|t: int| 0 <= t < i ==> raw@[t]@ == bytes_of_felt(parts@[t]),
        decreases parts@.len() - i,
    {
        raw.push(parts[i].to_bytes_be());
        i += 1;
    }
    let digest = poseidon_chain_raw(&raw);
    proof {
        assert(raw@.map_values(|v: Vec<u8>| v@) =~= parts@.map_values(|f: Felt| bytes_of_felt(f)));
    }
    Felt::from_bytes_be(digest.as_slice())
}

} // verus!
