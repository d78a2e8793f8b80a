//! Hashes as the ledger passes them on, whatever function made them.
use crate::keccak::KeccakHash;
use vstd::prelude::*;

verus! {

/// A 256 bit hash.
#[derive(Clone, Copy, Debug, PartialEq, Eq, PartialOrd, Ord, Hash)]
pub struct Hash(pub [u8; 32]);

impl From<KeccakHash> for Hash {
    fn from(hash: KeccakHash) -> (r: Hash) {
        Hash(hash.0)
    }
}

impl vstd::std_specs::convert::FromSpecImpl<KeccakHash> for Hash {
    open spec fn obeys_from_spec() -> bool {
        true
    }

    open spec fn from_spec(hash: KeccakHash) -> Hash {
        Hash(hash.0)
    }
}

impl From<Hash> for KeccakHash {
    fn from(hash: Hash) -> (r: KeccakHash) {
        KeccakHash(hash.0)
    }
}

impl vstd::std_specs::convert::FromSpecImpl<Hash> for KeccakHash {
    open spec fn obeys_from_spec() -> bool {
        true
    }

    open spec fn from_spec(hash: Hash) -> KeccakHash {
        KeccakHash(hash.0)
    }
}

} // verus!
