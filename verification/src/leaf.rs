use vstd::prelude::*;
use crate::errors::TreeError;
use crate::felt::{felt_zero, Felt};
use crate::tree_model::LeafImage;

verus! {

/// The protocol every tree leaf obeys: a deterministic serialization, a
/// deterministic digest, and an emptiness predicate.  A leaf is stored once
/// under its digest; the empty leaf's digest is the empty sentinel and is
/// never stored.
pub trait LeafFact: Sized {
    /// The digest under which this leaf's fact is stored.
    spec fn digest_spec(&self) -> Felt;

    /// The serialized fact bytes.
    spec fn serialized_spec(&self) -> Seq<u8>;

    /// Whether the leaf is semantically empty, i.e. an uninitialized slot.
    spec fn is_empty_spec(&self) -> bool;

    /// What deserialization yields on given bytes, if anything.
    spec fn parse_spec(data: Seq<u8>) -> Option<Self>;

    /// The canonical empty leaf.
    spec fn empty_spec() -> Self;

    /// Computes the digest.
    fn leaf_digest(&self) -> (r: Felt)
        ensures
            r == self.digest_spec(),
    ;

    /// Serializes the leaf.
    fn serialize(&self) -> (r: Vec<u8>)
        ensures
            r@ == self.serialized_spec(),
    ;

    /// Decodes a leaf; corrupt bytes are an error, never an empty leaf.
    fn deserialize(data: &Vec<u8>) -> (r: Result<Self, TreeError>)
        ensures
            match r {
                Ok(x) => Self::parse_spec(data@) == Some(x),
                Err(e) => e == TreeError::DecodeFailure && Self::parse_spec(data@) is None,
            },
    ;

    /// Builds the canonical empty leaf.
    fn empty_leaf() -> (r: Self)
        ensures
            r == Self::empty_spec(),
    ;

    /// Reports emptiness.
    fn is_empty(&self) -> (r: bool)
        ensures
            r == self.is_empty_spec(),
    ;

    /// An empty leaf's digest is the empty sentinel, so empty leaves are
    /// never stored and erase the index they are written to.
    proof fn law_empty_digest(&self)
        ensures
            self.is_empty_spec() ==> self.digest_spec() == felt_zero(),
    ;

    /// The canonical empty leaf is empty.
    proof fn law_empty_is_empty()
        ensures
            Self::empty_spec().is_empty_spec(),
    ;

    /// Deserializing a serialized leaf yields a leaf with the same content.
    proof fn law_roundtrip(&self)
        ensures
            Self::parse_spec(self.serialized_spec()) matches Some(y) && y.digest_spec()
                == self.digest_spec() && y.serialized_spec() == self.serialized_spec()
                && y.is_empty_spec() == self.is_empty_spec(),
    ;
}

/// The stored image of a leaf.
pub open spec fn image_of<LF: LeafFact>(leaf: LF) -> LeafImage {
    LeafImage { digest: leaf.digest_spec(), bytes: leaf.serialized_spec() }
}

/// The image map of a typed leaf map.
pub open spec fn images_of<LF: LeafFact>(tm: Map<Felt, LF>) -> Map<Felt, LeafImage> {
    Map::new(|k: Felt| tm.dom().contains(k), |k: Felt| image_of(tm[k]))
}

/// The images of a typed modification list.
pub open spec fn typed_images<LF: LeafFact>(s: Seq<(Felt, LF)>) -> Seq<(Felt, LeafImage)> {
    s.map_values(|m: (Felt, LF)| (m.0, image_of(m.1)))
}

} // verus!
