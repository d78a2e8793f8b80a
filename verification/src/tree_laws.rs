//! What the order of hashes, the levels of a tree and its root are.
use crate::hash;
use crate::keccak;
use crate::keccak::KeccakHash;
use crate::leaf_set;
use crate::merkle;
use crate::pool;
use crate::pool::TreeView;
use vstd::prelude::*;
use vstd::std_specs::cmp::PartialEqSpec;
use vstd::std_specs::convert::FromSpec;

verus! {

/// Hashes are ordered by the first byte in which they differ, counted from the
/// front.
pub proof fn law_order_is_that_of_bytes(a: KeccakHash, b: KeccakHash, k: int)
    requires
        0 <= k < 32,
        forall|j: int| 0 <= j < k ==> a.0@[j] == b.0@[j],
        a.0@[k] < b.0@[k],
    ensures
        a.spec_lt(b),
        !b.spec_lt(a),
{
    assert(keccak::smaller_at(a.0@, b.0@, k));
    if b.spec_lt(a) {
        keccak::lemma_lt_transitive(a, b, a);
        keccak::lemma_lt_irreflexive(a);
    }
}

/// Exactly one of three things holds of two hashes: they are equal, or the one
/// comes first, or the other.
pub proof fn law_order_is_total(a: KeccakHash, b: KeccakHash)
    ensures
        a == b ==> !a.spec_lt(b) && !b.spec_lt(a),
        a != b ==> a.spec_lt(b) == !b.spec_lt(a),
{
    keccak::lemma_lt_total(a, b);
    keccak::lemma_lt_irreflexive(a);
    if a.spec_lt(b) && b.spec_lt(a) {
        keccak::lemma_lt_transitive(a, b, a);
    }
}

/// The zero hash is made of zero bytes.
pub proof fn law_zero_hash(i: int)
    requires
        0 <= i < 32,
    ensures
        keccak::zero_hash().0@[i] == 0,
{
}

/// The hash of a pair is the digest of the 64 bytes of both, those of the
/// smaller hash first, wherever each stands.
pub proof fn law_hash_of_pair(small: KeccakHash, large: KeccakHash)
    requires
        small == large || small.spec_lt(large),
    ensures
        merkle::spec_hash_pair(small, large).0 == keccak::keccak256(small.0@ + large.0@),
        merkle::spec_hash_pair(large, small).0 == keccak::keccak256(small.0@ + large.0@),
        merkle::ordered_bytes(small, large) == small.0@ + large.0@,
        merkle::ordered_bytes(large, small) == small.0@ + large.0@,
{
    merkle::lemma_ordered_bytes_commute(small, large);
}

/// The level above holds the hash of each two neighbours, taken from the left.
/// If the level is of odd length, its last node is hashed with the zero hash.
pub proof fn law_level_above(level: Seq<KeccakHash>, zero: KeccakHash)
    requires
        forall|i: int| 0 <= i < 32 ==> zero.0@[i] == 0,
    ensures
        merkle::parents(level).len() == (level.len() + 1) / 2,
        forall|i: int|
            0 <= i && 2 * i + 1 < level.len() ==> #[trigger] merkle::parents(level)[i]
                == merkle::spec_hash_pair(level[2 * i], level[2 * i + 1]),
        level.len() % 2 == 1 ==> merkle::parents(level).last() == merkle::spec_hash_pair(
            level.last(),
            zero,
        ),
{
    assert(zero.0 =~= keccak::zero_hash().0);
}

/// The root of no leaves is the zero hash, that of one leaf the leaf itself,
/// and that of several is the root of the level above them.
pub proof fn law_root_of_level(level: Seq<KeccakHash>, zero: KeccakHash)
    requires
        forall|i: int| 0 <= i < 32 ==> zero.0@[i] == 0,
    ensures
        level.len() == 0 ==> merkle::merkle_root(level) == zero,
        level.len() == 1 ==> merkle::merkle_root(level) == level[0],
        level.len() > 1 ==> merkle::merkle_root(level) == merkle::merkle_root(
            merkle::parents(level),
        ),
{
    assert(zero.0 =~= keccak::zero_hash().0);
}

/// The ascending order of a set lists each of its members once, the smaller
/// before the larger.
pub proof fn law_ascending_order(set: Set<KeccakHash>)
    requires
        set.finite(),
    ensures
        leaf_set::ascending(set).to_set() == set,
        forall|i: int, j: int|
            0 <= i < j < leaf_set::ascending(set).len() ==> (#[trigger] leaf_set::ascending(
                set,
            )[i]).spec_lt(#[trigger] leaf_set::ascending(set)[j]),
{
    leaf_set::lemma_ascending_exists(set);
}

/// The position that a search gives has the hashes that come first, and only
/// those, in front of it; and a vector may be searched if none of its hashes
/// comes before one in front.
pub proof fn law_lower_bound(hashes: Seq<KeccakHash>, hash: KeccakHash, pos: int)
    ensures
        leaf_set::is_lower_bound(hashes, hash, pos) <==> {
            &&& 0 <= pos <= hashes.len()
            &&& forall|i: int|
                0 <= i < hashes.len() ==> (#[trigger] hashes[i]).spec_lt(hash) == (i < pos)
        },
        leaf_set::is_sorted(hashes) <==> forall|i: int, j: int|
            0 <= i < j < hashes.len() ==> !(#[trigger] hashes[j]).spec_lt(#[trigger] hashes[i]),
{
}

/// The tree without leaves has a root of zero bytes.
pub proof fn law_empty_tree_view(i: int)
    requires
        0 <= i < 32,
    ensures
        TreeView::empty().leaves == Set::<KeccakHash>::empty(),
        TreeView::empty().root.0@[i] == 0,
{
}

/// Whichever way the leaves are listed in ascending order: after an insertion
/// and after a deletion the root is the Merkle root of that list, and a tree
/// is consistent if and only if its root is.
pub proof fn law_root_of_tree(tree: TreeView, hash: KeccakHash, list: Seq<KeccakHash>)
    requires
        forall|i: int, j: int| 0 <= i < j < list.len() ==> list[i].spec_lt(list[j]),
    ensures
        tree.inserted(hash).leaves == tree.leaves.insert(hash),
        tree.deleted(hash).leaves == tree.leaves.remove(hash),
        list.to_set() == tree.leaves.insert(hash) ==> tree.inserted(hash).root
            == merkle::merkle_root(list),
        list.to_set() == tree.leaves.remove(hash) ==> tree.deleted(hash).root
            == merkle::merkle_root(list),
        list.to_set() == tree.leaves ==> tree.consistent() == (tree.root == merkle::merkle_root(
            list,
        )),
        list.to_set() == tree.leaves ==> pool::root_of(tree.leaves) == merkle::merkle_root(list),
{
    leaf_set::lemma_ascending_of_members(list);
}

/// Two hashes compare equal if and only if all their bytes are equal.
pub proof fn law_equal_hashes(a: KeccakHash, b: KeccakHash)
    ensures
        a.eq_spec(&b) <==> forall|i: int| 0 <= i < 32 ==> a.0@[i] == b.0@[i],
{
    if forall|i: int| 0 <= i < 32 ==> a.0@[i] == b.0@[i] {
        assert(a.0 =~= b.0);
    }
}

/// A hash keeps its bytes when it is passed on, and when it comes back.
pub proof fn law_converted_hash(a: KeccakHash, b: hash::Hash)
    ensures
        <hash::Hash as FromSpec<KeccakHash>>::from_spec(a).0 == a.0,
        <KeccakHash as FromSpec<hash::Hash>>::from_spec(b).0 == b.0,
{
}

} // verus!
