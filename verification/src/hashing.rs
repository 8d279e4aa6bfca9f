//! Commitment, nullifier and tree-node digests.
//!
//! Every digest is a SHA-256 hash of a domain-separated preimage: the first
//! byte of the preimage is a tag that differs between commitments, internal
//! tree nodes and nullifiers, so the three uses of the hash primitive can
//! never be confused with one another.

use vstd::prelude::*;
use crate::bytesutil::push_bytes;

verus! {

/// Domain tag prefixed to a commitment preimage.
pub const COMMITMENT_TAG: u8 = 0;

/// Domain tag prefixed to an internal tree-node preimage.
pub const NODE_TAG: u8 = 1;

/// Domain tag prefixed to a nullifier preimage.
pub const NULLIFIER_TAG: u8 = 2;

/// The SHA-256 digest of a byte sequence, as computed by the host's hash
/// primitive. The digest is a pure function of the input bytes alone.
pub uninterp spec fn sha_of(data: Seq<u8>) -> Seq<u8>;

/// Relies on solana_program::hash::hash: the SHA-256 digest of the input
/// bytes, a pure function of them alone; `to_bytes` returns its 32 bytes.
#[verifier::external_body]
fn sha256(data: &[u8]) -> (r: [u8; 32])
    ensures
        r@ == sha_of(data@),
{
    solana_program::hash::hash(data).to_bytes()
}

/// Preimage of a commitment: tag, then the amount in little-endian bytes,
/// then the secret.
pub open spec fn commitment_preimage(amount: u64, secret: Seq<u8>) -> Seq<u8> {
    seq![COMMITMENT_TAG] + vstd::bytes::spec_u64_to_le_bytes(amount) + secret
}

/// The commitment digest binding an amount and a secret.
pub open spec fn commitment_hash(amount: u64, secret: Seq<u8>) -> Seq<u8> {
    sha_of(commitment_preimage(amount, secret))
}

/// Preimage of an internal tree node: tag, then the left child digest, then
/// the right child digest.
pub open spec fn node_preimage(left: Seq<u8>, right: Seq<u8>) -> Seq<u8> {
    seq![NODE_TAG] + left + right
}

/// The digest of an internal tree node over its two children.
pub open spec fn node_hash(left: Seq<u8>, right: Seq<u8>) -> Seq<u8> {
    sha_of(node_preimage(left, right))
}

/// Preimage of a nullifier: tag, then the secret, then the index of the leaf
/// being withdrawn in little-endian bytes. Binding the leaf index makes the
/// nullifier specific to one leaf: the same secret at a different index
/// yields a different preimage.
pub open spec fn nullifier_preimage(secret: Seq<u8>, leaf_index: u64) -> Seq<u8> {
    seq![NULLIFIER_TAG] + secret + vstd::bytes::spec_u64_to_le_bytes(leaf_index)
}

/// The nullifier digest binding a secret and a leaf index.
pub open spec fn nullifier_hash(secret: Seq<u8>, leaf_index: u64) -> Seq<u8> {
    sha_of(nullifier_preimage(secret, leaf_index))
}

/// Compute the commitment for a deposit of `amount` under `secret`.
pub fn hash_commitment(amount: u64, secret: &[u8]) -> (r: [u8; 32])
    ensures
        r@ == commitment_hash(amount, secret@),
{
    let mut buf: Vec<u8> = Vec::new();
    buf.push(COMMITMENT_TAG);
    let mut amount_bytes = vstd::bytes::u64_to_le_bytes(amount);
    buf.append(&mut amount_bytes);
    push_bytes(&mut buf, secret);
    proof {
        assert(buf@ =~= commitment_preimage(amount, secret@));
    }
    sha256(buf.as_slice())
}

/// Compute the digest of an internal tree node from its two children.
pub fn hash_node(left: &[u8; 32], right: &[u8; 32]) -> (r: [u8; 32])
    ensures
        r@ == node_hash(left@, right@),
{
    let mut buf: Vec<u8> = Vec::new();
    buf.push(NODE_TAG);
    push_bytes(&mut buf, left.as_slice());
    push_bytes(&mut buf, right.as_slice());
    proof {
        assert(buf@ =~= node_preimage(left@, right@));
    }
    sha256(buf.as_slice())
}

/// Derive the one-time nullifier for withdrawing the leaf at `leaf_index`
/// that was deposited under `secret`.
pub fn derive_nullifier(secret: &[u8], leaf_index: u64) -> (r: [u8; 32])
    ensures
        r@ == nullifier_hash(secret@, leaf_index),
{
    let mut buf: Vec<u8> = Vec::new();
    buf.push(NULLIFIER_TAG);
    push_bytes(&mut buf, secret);
    let mut index_bytes = vstd::bytes::u64_to_le_bytes(leaf_index);
    buf.append(&mut index_bytes);
    proof {
        assert(buf@ =~= nullifier_preimage(secret@, leaf_index));
    }
    sha256(buf.as_slice())
}

/// Determinism: the commitment digest is a function of the amount and the
/// secret alone, so two calls of `hash_commitment` on identical inputs
/// return identical digests by that function's contract.
pub proof fn lemma_commit_deterministic(
    amount1: u64,
    secret1: Seq<u8>,
    amount2: u64,
    secret2: Seq<u8>,
)
    requires
        amount1 == amount2,
        secret1 == secret2,
    ensures
        commitment_hash(amount1, secret1) == commitment_hash(amount2, secret2),
{
}

/// Domain separation: the preimages of the three digest kinds are pairwise
/// distinct, whatever their payloads, because each starts with its own tag.
pub proof fn lemma_domain_separation(
    amount: u64,
    secret: Seq<u8>,
    left: Seq<u8>,
    right: Seq<u8>,
    leaf_index: u64,
)
    ensures
        commitment_preimage(amount, secret) != node_preimage(left, right),
        commitment_preimage(amount, secret) != nullifier_preimage(secret, leaf_index),
        node_preimage(left, right) != nullifier_preimage(secret, leaf_index),
{
    assert(commitment_preimage(amount, secret)[0] == COMMITMENT_TAG);
    assert(node_preimage(left, right)[0] == NODE_TAG);
    assert(nullifier_preimage(secret, leaf_index)[0] == NULLIFIER_TAG);
}

} // verus!
