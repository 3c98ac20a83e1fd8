use crate::field::Fp;
use incrementalmerkletree::{Hashable, Level};
use orchard::tree::MerkleHashOrchard;
use vstd::prelude::*;

verus! {

/// The Merkle-node hash of two field elements at a layer, as a field element.
pub uninterp spec fn cmx_hash_of(layer: u8, left: nat, right: nat) -> nat;

/// BLAKE2b with a 32-byte digest, under a personalization.
pub uninterp spec fn blake2b_256_of(personal: Seq<u8>, msg: Seq<u8>) -> Seq<u8>;

/// The hash of an empty subtree whose root is at `layer`.
pub open spec fn empty_hash(layer: nat) -> nat
    decreases layer,
{
    if layer == 0 {
        2
    } else {
        cmx_hash_of((layer - 1) as u8, empty_hash((layer - 1) as nat), empty_hash((layer - 1) as nat))
    }
}

/// `Hashable::combine` of `orchard::tree::MerkleHashOrchard`, between
/// `from_bytes` and `to_bytes`: the node above two nodes of a layer.
#[verifier::external_body]
fn combine(layer: u8, left: &Fp, right: &Fp) -> (h: Fp)
    ensures
        h@ == cmx_hash_of(layer, left@, right@),
{
    let l = MerkleHashOrchard::from_bytes(&left.repr).unwrap();
    let r = MerkleHashOrchard::from_bytes(&right.repr).unwrap();
    Fp { repr: MerkleHashOrchard::combine(Level::from(layer), &l, &r).to_bytes() }
}

/// `Hashable::empty_leaf` of `orchard::tree::MerkleHashOrchard`: the leaf that
/// stands for no commitment, the field element 2.
#[verifier::external_body]
fn uncommitted() -> (h: Fp)
    ensures
        h@ == 2,
{
    Fp { repr: MerkleHashOrchard::empty_leaf().to_bytes() }
}

/// `Params::hash` of `blake2b_simd`, with `hash_length(32)` and the given
/// personalization.
#[verifier::external_body]
fn personalized_digest(personal: &[u8; 16], msg: &[u8]) -> (h: [u8; 32])
    ensures
        h@ == blake2b_256_of(personal@, msg@),
{
    let mut h = [0u8; 32];
    h.copy_from_slice(
        blake2b_simd::Params::new().hash_length(32).personal(personal).hash(msg).as_bytes(),
    );
    h
}

/// Hashes two nodes of `layer` into their parent.
pub fn cmx_hash(layer: u8, left: &Fp, right: &Fp) -> (h: Fp)
    ensures
        h@ == cmx_hash_of(layer, left@, right@),
{
    combine(layer, left, right)
}

/// The hash of the empty subtree whose root is `layer` layers above the leaves.
pub fn empty_hash_at(layer: u8) -> (h: Fp)
    ensures
        h@ == empty_hash(layer as nat),
{
    let mut h = uncommitted();
    let mut i: u8 = 0;
    while i < layer
        invariant
            i <= layer,
            h@ == empty_hash(i as nat),
        decreases layer - i,
    {
        h = combine(i, &h, &h);
        i += 1;
    }
    h
}

/// BLAKE2b-256 of `msg` under the 16-byte personalization.
pub fn blake2b_256(personal: &[u8; 16], msg: &[u8]) -> (h: [u8; 32])
    ensures
        h@ == blake2b_256_of(personal@, msg@),
{
    personalized_digest(personal, msg)
}

} // verus!
