//! Keccak hashes: how they are made, and their order.
use tiny_keccak::{Hasher, Keccak};
use vstd::prelude::*;

verus! {

/// A 256 bit Keccak hash.
#[derive(Clone, Copy, Debug, Eq, PartialOrd, Ord, Hash)]
pub struct KeccakHash(pub [u8; 32]);

/// The Keccak-256 digest of `data`.
pub uninterp spec fn keccak256(data: Seq<u8>) -> [u8; 32];

/// Runs `tiny_keccak::Keccak::v256` over `bytes`: one `update` with all of
/// them and one `finalize` into 32 bytes.
///
/// The digest depends on the bytes alone; nothing more is said of it here.
#[verifier::external_body]
fn keccak_v256(bytes: &[u8]) -> (digest: [u8; 32])
    ensures
        digest == keccak256(bytes@),
{
    let mut output = [0u8; 32];
    let mut hasher = Keccak::v256();
    hasher.update(bytes);
    hasher.finalize(&mut output);
    output
}

/// Hash bytes using Keccak-256.
pub fn keccak_hash(bytes: &[u8]) -> (hash: KeccakHash)
    ensures
        hash == KeccakHash(keccak256(bytes@)),
{
    KeccakHash(keccak_v256(bytes))
}

/// `a` and `b` agree before position `k`, where `a` holds the smaller byte.
pub open spec fn smaller_at(a: Seq<u8>, b: Seq<u8>, k: int) -> bool {
    &&& 0 <= k < a.len()
    &&& k < b.len()
    &&& forall|j: int| 0 <= j < k ==> a[j] == b[j]
    &&& a[k] < b[k]
}

impl KeccakHash {
    /// Hashes are ordered as byte strings, by the first byte that differs.
    pub open spec fn spec_lt(self, other: KeccakHash) -> bool {
        exists|k: int| smaller_at(self.0@, other.0@, k)
    }

    /// Does this hash come before the other?
    pub fn less_than(&self, other: &KeccakHash) -> (r: bool)
        ensures
            r == self.spec_lt(*other),
    {
        let mut i: usize = 0;
        while i < 32
            invariant
                i <= 32,
                forall|j: int| 0 <= j < i ==> self.0@[j] == other.0@[j],
            decreases 32 - i,
        {
            if self.0[i] < other.0[i] {
                assert(smaller_at(self.0@, other.0@, i as int));
                return true;
            }
            if self.0[i] > other.0[i] {
                assert forall|k: int| !smaller_at(self.0@, other.0@, k) by {
                    if smaller_at(self.0@, other.0@, k) && k > i {
                        assert(self.0@[i as int] == other.0@[i as int]);
                    }
                }
                return false;
            }
            i += 1;
        }
        false
    }
}

impl PartialEq for KeccakHash {
    fn eq(&self, other: &KeccakHash) -> (r: bool) {
        let mut i: usize = 0;
        while i < 32
            invariant
                i <= 32,
                forall|j: int| 0 <= j < i ==> self.0@[j] == other.0@[j],
            decreases 32 - i,
        {
            if self.0[i] != other.0[i] {
                return false;
            }
            i += 1;
        }
        assert(self.0 =~= other.0);
        true
    }
}

impl vstd::std_specs::cmp::PartialEqSpecImpl for KeccakHash {
    open spec fn obeys_eq_spec() -> bool {
        true
    }

    open spec fn eq_spec(&self, other: &KeccakHash) -> bool {
        *self == *other
    }
}

impl Default for KeccakHash {
    /// The hash made of zero bytes.
    fn default() -> (hash: KeccakHash)
        ensures
            hash == zero_hash(),
    {
        KeccakHash([0u8; 32])
    }
}

/// The hash made of zero bytes.
pub open spec fn zero_hash() -> KeccakHash {
    KeccakHash(vstd::array::spec_array_fill_for_copy_type::<u8, 32>(0u8))
}

/// No hash comes before itself.
pub proof fn lemma_lt_irreflexive(a: KeccakHash)
    ensures
        !a.spec_lt(a),
{
}

/// The order of hashes is transitive.
pub proof fn lemma_lt_transitive(a: KeccakHash, b: KeccakHash, c: KeccakHash)
    requires
        a.spec_lt(b),
        b.spec_lt(c),
    ensures
        a.spec_lt(c),
{
    let i = choose|i: int| smaller_at(a.0@, b.0@, i);
    let j = choose|j: int| smaller_at(b.0@, c.0@, j);
    let k = if i < j { i } else { j };
    assert(smaller_at(a.0@, c.0@, k));
}

/// Two hashes are equal or one comes before the other.
pub proof fn lemma_lt_total(a: KeccakHash, b: KeccakHash)
    ensures
        a == b || a.spec_lt(b) || b.spec_lt(a),
{
    lemma_lt_total_from(a, b, 0);
}

proof fn lemma_lt_total_from(a: KeccakHash, b: KeccakHash, from: int)
    requires
        0 <= from <= 32,
        forall|j: int| 0 <= j < from ==> a.0@[j] == b.0@[j],
    ensures
        a == b || a.spec_lt(b) || b.spec_lt(a),
    decreases 32 - from,
{
    if from == 32 {
        assert(a.0 =~= b.0);
    } else if a.0@[from] < b.0@[from] {
        assert(smaller_at(a.0@, b.0@, from));
    } else if b.0@[from] < a.0@[from] {
        assert(smaller_at(b.0@, a.0@, from));
    } else {
        lemma_lt_total_from(a, b, from + 1);
    }
}

} // verus!
