//! The Merkle tree over a sequence of leaf hashes, and its root.
//!
//! A level of the tree is cut into pairs from the left; a level of odd length
//! is filled up with the zero hash. The level above holds one hash per pair.
use crate::keccak;
use crate::keccak::{keccak_hash, KeccakHash};
use vstd::prelude::*;

verus! {

/// The bytes of two hashes, the smaller hash first.
pub open spec fn ordered_bytes(left: KeccakHash, right: KeccakHash) -> Seq<u8> {
    if left.spec_lt(right) {
        left.0@ + right.0@
    } else {
        right.0@ + left.0@
    }
}

/// The hash of a pair: the digest of the bytes of both, the smaller first.
pub open spec fn spec_hash_pair(left: KeccakHash, right: KeccakHash) -> KeccakHash {
    KeccakHash(keccak::keccak256(ordered_bytes(left, right)))
}

/// Concatenate two hashes, the smaller first.
pub fn ordered_concat(left: KeccakHash, right: KeccakHash) -> (bytes: Vec<u8>)
    ensures
        bytes@ == ordered_bytes(left, right),
{
    let (first, second) = if left.less_than(&right) {
        (left, right)
    } else {
        (right, left)
    };
    let mut bytes: Vec<u8> = Vec::new();
    bytes.extend_from_slice(first.0.as_slice());
    bytes.extend_from_slice(second.0.as_slice());
    assert(bytes@ =~= first.0@ + second.0@);
    bytes
}

/// Concatenate two keccak hashes and hash the result.
pub fn hash_pair(left: KeccakHash, right: KeccakHash) -> (hash: KeccakHash)
    ensures
        hash == spec_hash_pair(left, right),
{
    keccak_hash(ordered_concat(left, right).as_slice())
}

/// Two hashes are written in the same order, whichever is named first.
pub proof fn lemma_ordered_bytes_commute(left: KeccakHash, right: KeccakHash)
    ensures
        ordered_bytes(left, right) == ordered_bytes(right, left),
{
    keccak::lemma_lt_total(left, right);
    if left.spec_lt(right) && right.spec_lt(left) {
        keccak::lemma_lt_transitive(left, right, left);
        keccak::lemma_lt_irreflexive(left);
    }
}

/// The hash of a pair does not depend on which of the two stands on the left.
pub proof fn law_hash_pair_commutes(left: KeccakHash, right: KeccakHash)
    ensures
        spec_hash_pair(left, right) == spec_hash_pair(right, left),
{
    lemma_ordered_bytes_commute(left, right);
}

/// The number of pairs in a level of `len` nodes.
pub open spec fn pairs(len: nat) -> nat {
    (len + 1) / 2
}

/// The hash at position `i` of a level, the zero hash beyond its end.
pub open spec fn hash_at(level: Seq<KeccakHash>, i: int) -> KeccakHash {
    if i < level.len() {
        level[i]
    } else {
        keccak::zero_hash()
    }
}

/// The level above `level`.
pub open spec fn parents(level: Seq<KeccakHash>) -> Seq<KeccakHash> {
    Seq::new(
        pairs(level.len()),
        |i: int| spec_hash_pair(hash_at(level, 2 * i), hash_at(level, 2 * i + 1)),
    )
}

/// The root of the Merkle tree with the given leaves, the zero hash if there
/// are none.
pub open spec fn merkle_root(level: Seq<KeccakHash>) -> KeccakHash
    decreases level.len(),
{
    if level.len() <= 1 {
        hash_at(level, 0)
    } else {
        merkle_root(parents(level))
    }
}

/// Compute the root of the Merkle tree with the given leaves.
pub fn compute_root(leaves: Vec<KeccakHash>) -> (root: KeccakHash)
    ensures
        root == merkle_root(leaves@),
{
    let mut hashes = leaves;
    while hashes.len() > 1
        invariant
            merkle_root(hashes@) == merkle_root(leaves@),
        decreases hashes.len(),
    {
        let mut next_hashes: Vec<KeccakHash> = Vec::new();
        let len = hashes.len();
        let count: usize = len / 2 + len % 2;
        let mut k: usize = 0;
        while k < count
            invariant
                k <= count,
                len == hashes.len(),
                count == pairs(hashes@.len()),
                next_hashes@ == parents(hashes@).take(k as int),
            decreases count - k,
        {
            let left = hashes[2 * k];
            let right = if 2 * k + 1 < len {
                hashes[2 * k + 1]
            } else {
                KeccakHash::default()
            };
            next_hashes.push(hash_pair(left, right));
            k += 1;
        }
        assert(next_hashes@ =~= parents(hashes@));
        hashes = next_hashes;
    }
    if hashes.is_empty() {
        KeccakHash::default()
    } else {
        hashes[0]
    }
}

} // verus!
