//! What holds of the tree as a whole, over several of its operations.
use crate::completeness;
use crate::hex;
use crate::keccak;
use crate::keccak::KeccakHash;
use crate::leaf_set;
use crate::merkle;
use crate::multiproof;
use crate::multiproof::Node;
use crate::pool;
use crate::pool::{BridgePoolProof, TreeView};
use crate::sorting;
use crate::soundness;
use crate::transfer::{PendingTransfer, PendingTransferView};
use vstd::prelude::*;

verus! {

/// The tree without leaves has the zero hash as its root, and that is the root
/// of its leaves.
pub proof fn law_empty_tree()
    ensures
        pool::root_of(Set::empty()) == keccak::zero_hash(),
        TreeView::empty().consistent(),
{
    leaf_set::lemma_ascending_exists(Set::empty());
    let none = leaf_set::ascending(Set::empty());
    if none.len() > 0 {
        assert(none.to_set().contains(none[0]));
    }
}

/// A tree with a single leaf has that leaf as its root.
pub proof fn law_single_leaf(hash: KeccakHash)
    ensures
        TreeView::empty().inserted(hash).root == hash,
{
    let one = seq![hash];
    assert(one.to_set() =~= Set::empty().insert(hash)) by {
        assert(one[0] == hash);
    }
    assert(leaf_set::is_ascending(one));
    leaf_set::lemma_ascending_of_members(one);
}

/// After an insertion or a deletion the root is that of the leaves, whatever
/// it was before.
pub proof fn law_root_stays_consistent(tree: TreeView, hash: KeccakHash)
    ensures
        tree.inserted(hash).consistent(),
        tree.deleted(hash).consistent(),
{
}

/// An inserted leaf is in the tree, a deleted one is not, and no other leaf is
/// touched by either.
pub proof fn law_membership(tree: TreeView, hash: KeccakHash, other: KeccakHash)
    ensures
        tree.inserted(hash).leaves.contains(hash),
        !tree.deleted(hash).leaves.contains(hash),
        other != hash ==> tree.inserted(hash).leaves.contains(other) == tree.leaves.contains(other),
        other != hash ==> tree.deleted(hash).leaves.contains(other) == tree.leaves.contains(other),
{
}

/// Deleting a leaf that was new to the tree gives the tree back as it was
/// before the insertion, root and all.
pub proof fn law_delete_undoes_insert(tree: TreeView, hash: KeccakHash)
    requires
        tree.consistent(),
        !tree.leaves.contains(hash),
    ensures
        tree.inserted(hash).deleted(hash) == tree,
{
    assert(tree.leaves.insert(hash).remove(hash) =~= tree.leaves);
}

/// Inserting a leaf that was deleted from the tree gives the tree back as it
/// was before the deletion.
pub proof fn law_insert_undoes_delete(tree: TreeView, hash: KeccakHash)
    requires
        tree.consistent(),
        tree.leaves.contains(hash),
    ensures
        tree.deleted(hash).inserted(hash) == tree,
{
    assert(tree.leaves.remove(hash).insert(hash) =~= tree.leaves);
}

/// A second insertion, or a second deletion, of a leaf changes nothing.
pub proof fn law_idempotent(tree: TreeView, hash: KeccakHash)
    ensures
        tree.inserted(hash).inserted(hash) == tree.inserted(hash),
        tree.deleted(hash).deleted(hash) == tree.deleted(hash),
{
    assert(tree.leaves.insert(hash).insert(hash) =~= tree.leaves.insert(hash));
    assert(tree.leaves.remove(hash).remove(hash) =~= tree.leaves.remove(hash));
}

/// The order in which different leaves are inserted and deleted does not
/// matter.
pub proof fn law_order_does_not_matter(tree: TreeView, a: KeccakHash, b: KeccakHash)
    ensures
        tree.inserted(a).inserted(b) == tree.inserted(b).inserted(a),
        tree.deleted(a).deleted(b) == tree.deleted(b).deleted(a),
        a != b ==> tree.inserted(a).deleted(b) == tree.deleted(b).inserted(a),
{
    assert(tree.leaves.insert(a).insert(b) =~= tree.leaves.insert(b).insert(a));
    assert(tree.leaves.remove(a).remove(b) =~= tree.leaves.remove(b).remove(a));
    if a != b {
        assert(tree.leaves.insert(a).remove(b) =~= tree.leaves.remove(b).insert(a));
    }
}

/// The key of a transfer parses into the hash of the transfer.
pub proof fn law_transfer_key_parses(transfer: PendingTransferView)
    ensures
        pool::parsed_key(transfer.key()) == Ok::<KeccakHash, pool::Error>(transfer.hash()),
{
    hex::law_text_round_trip(transfer.hash());
}

/// The marked leaves of a tree, in order, are the ascending order of the
/// chosen ones.
proof fn lemma_on_hashes_of_marked(
    leaves: Seq<KeccakHash>,
    chosen: Set<KeccakHash>,
    n: nat,
)
    requires
        leaf_set::is_ascending(leaves),
        n <= leaves.len(),
    ensures
        leaf_set::is_ascending(completeness::on_hashes(multiproof::marked(leaves, chosen), n)),
        forall|hash: KeccakHash|
            #[trigger] leaves.take(n as int).contains(hash) ==> completeness::on_hashes(
                multiproof::marked(leaves, chosen),
                n,
            ).contains(hash) == chosen.contains(hash),
        forall|hash: KeccakHash| #[trigger]
            completeness::on_hashes(multiproof::marked(leaves, chosen), n).contains(hash)
                ==> leaves.take(n as int).contains(hash),
    decreases n,
{
    let nodes = multiproof::marked(leaves, chosen);
    let on = completeness::on_hashes(nodes, n);
    if n > 0 {
        let m = (n - 1) as nat;
        let before = completeness::on_hashes(nodes, m);
        let last = leaves[m as int];
        lemma_on_hashes_of_marked(leaves, chosen, m);
        assert(leaves.take(n as int) =~= leaves.take(m as int).push(last));
        assert forall|i: int| 0 <= i < before.len() implies before[i].spec_lt(last) by {
            assert(before.contains(before[i]));
            assert(leaves.take(m as int).contains(before[i]));
        }
        assert forall|hash: KeccakHash| #[trigger]
            leaves.take(n as int).contains(hash) implies on.contains(hash) == chosen.contains(
            hash,
        ) by {
            vstd::seq_lib::lemma_seq_contains_after_push(before, last, hash);
            vstd::seq_lib::lemma_seq_contains_after_push(leaves.take(m as int), last, hash);
        }
        assert forall|hash: KeccakHash| #[trigger] on.contains(hash) implies leaves.take(
            n as int,
        ).contains(hash) by {
            vstd::seq_lib::lemma_seq_contains_after_push(before, last, hash);
            vstd::seq_lib::lemma_seq_contains_after_push(leaves.take(m as int), last, hash);
        }
    } else {
        assert(on =~= leaves.take(0));
        assert(leaves.take(0).len() == 0);
    }
}

/// The membership proof that a tree gives for some of its leaves, each named
/// once, verifies against the root of the tree.
pub proof fn law_membership_proof_verifies(
    tree: TreeView,
    values: Seq<PendingTransfer>,
    given: BridgePoolProof,
)
    requires
        tree.leaves.finite(),
        pool::is_provable(tree, values),
        pool::is_proof_for(tree, values, given),
    ensures
        given.readable(),
        given.matches_root(tree.root),
{
    if values.len() == 0 {
        assert(values =~= seq![]);
        law_empty_proof_verifies(tree, given);
    } else {
        let leaves = leaf_set::ascending(tree.leaves);
        let chosen = sorting::hashes_of(values).to_set();
        let nodes = multiproof::marked(leaves, chosen);
        let sorted = given.leaves@;
        let hashes = sorting::hashes_of(sorted);
        let on = completeness::on_hashes(nodes, nodes.len());
        leaf_set::lemma_ascending_exists(tree.leaves);
        sorting::lemma_sort_keeps_hashes(values, sorted);
        sorting::lemma_sort_of_distinct(values, sorted);
        lemma_on_hashes_of_marked(leaves, chosen, leaves.len());
        assert(leaves.take(leaves.len() as int) =~= leaves);
        assert forall|hash: KeccakHash| chosen.contains(hash) implies on.to_set().contains(hash) by {
            assert(leaves.to_set().contains(hash));
            assert(leaves.take(leaves.len() as int).contains(hash));
        }
        assert forall|hash: KeccakHash| on.to_set().contains(hash) implies chosen.contains(hash) by {
            assert(on.contains(hash));
            assert(leaves.take(leaves.len() as int).contains(hash));
        }
        assert(on.to_set() =~= hashes.to_set());
        leaf_set::lemma_ascending_unique(on, hashes);
        assert(completeness::node_hashes(nodes) =~= leaves);
        completeness::law_marked_leaves_accepted(nodes);
    }
}

/// The membership proof that a tree gives for no leaves at all verifies
/// against the root of the tree.
pub proof fn law_empty_proof_verifies(tree: TreeView, given: BridgePoolProof)
    requires
        pool::is_proof_for(tree, seq![], given),
    ensures
        given.readable(),
        given.matches_root(tree.root),
{
    let none = Seq::<PendingTransfer>::empty();
    let nodes = multiproof::marked(
        leaf_set::ascending(tree.leaves),
        sorting::hashes_of(none).to_set(),
    );
    multiproof::lemma_unmarked(nodes);
}

/// A proof matches one root at most.
pub proof fn law_one_root_per_proof(given: BridgePoolProof, a: KeccakHash, b: KeccakHash)
    requires
        given.matches_root(a),
        given.matches_root(b),
    ensures
        a == b,
{
}

/// Whatever the values, the flags of the membership proof that a tree gives
/// for them call for no more hashes than the proof has.
pub proof fn law_made_proof_is_readable(
    tree: TreeView,
    values: Seq<PendingTransfer>,
    given: BridgePoolProof,
)
    requires
        pool::is_proof_for(tree, values, given),
    ensures
        given.readable(),
{
    let nodes = multiproof::marked(
        leaf_set::ascending(tree.leaves),
        sorting::hashes_of(values).to_set(),
    );
    if completeness::on_hashes(nodes, nodes.len()).len() > 0 {
        completeness::law_marked_leaves_accepted(nodes);
    } else {
        lemma_none_on_path(nodes, nodes.len());
        multiproof::lemma_unmarked(nodes);
    }
}

/// Where no hash is on a path, no node is.
proof fn lemma_none_on_path(nodes: Seq<Node>, n: nat)
    requires
        n <= nodes.len(),
        completeness::on_hashes(nodes, n).len() == 0,
    ensures
        forall|i: int| 0 <= i < n ==> !(#[trigger] nodes[i]).on(),
    decreases n,
{
    if n > 0 {
        lemma_none_on_path(nodes, (n - 1) as nat);
    }
}

/// The membership proof that a tree gives for some values verifies against the
/// root of the tree if and only if the values are leaves of the tree, each
/// named once. The one other way to meet the root is with a single value from
/// outside of the tree that has the root as its hash.
pub proof fn law_only_members_are_proved(
    tree: TreeView,
    values: Seq<PendingTransfer>,
    given: BridgePoolProof,
)
    requires
        tree.leaves.finite(),
        tree.consistent(),
        values.len() > 0,
        pool::is_proof_for(tree, values, given),
        forall|i: int|
            0 <= i < values.len() && !tree.leaves.contains(#[trigger] values[i]@.hash())
                ==> values[i]@.hash() != tree.root,
    ensures
        given.matches_root(tree.root) == pool::is_provable(tree, values),
        given.matches_root(tree.root) <==> {
            &&& forall|i: int|
                0 <= i < values.len() ==> tree.leaves.contains(#[trigger] values[i]@.hash())
            &&& forall|i: int, j: int|
                0 <= i < j < values.len() ==> #[trigger] values[i]@.hash()
                    != #[trigger] values[j]@.hash()
        },
{
    let leaves = leaf_set::ascending(tree.leaves);
    let hashes = sorting::hashes_of(values);
    let chosen = hashes.to_set();
    let nodes = multiproof::marked(leaves, chosen);
    let on = completeness::on_hashes(nodes, nodes.len());
    leaf_set::lemma_ascending_exists(tree.leaves);
    lemma_provable_values(tree, values);
    if pool::is_provable(tree, values) {
        law_membership_proof_verifies(tree, values, given);
    } else if given.matches_root(tree.root) {
        lemma_on_hashes_of_marked(leaves, chosen, leaves.len());
        assert(leaves.take(leaves.len() as int) =~= leaves);
        if on.len() > 0 {
            completeness::law_marked_leaves_accepted(nodes);
            assert(on.len() == hashes.len());
            assert forall|i: int, j: int| 0 <= i < on.len() && 0 <= j < on.len() && i != j implies on[i]
                != on[j] by {
                keccak::lemma_lt_irreflexive(on[i]);
                assert(on[i].spec_lt(on[j]) || on[j].spec_lt(on[i]));
            }
            assert(on.no_duplicates());
            assert forall|hash: KeccakHash| on.to_set().contains(hash) implies chosen.contains(hash)
                && tree.leaves.contains(hash) by {
                assert(on.contains(hash));
                assert(leaves.take(leaves.len() as int).contains(hash));
                assert(leaves.to_set().contains(hash));
            }
            lemma_all_named_once(hashes, on);
            assert(pool::is_provable(tree, values));
        } else {
            let sorted = given.leaves@;
            lemma_none_on_path(nodes, nodes.len());
            multiproof::lemma_unmarked(nodes);
            sorting::lemma_sort_keeps_hashes(values, sorted);
            let hash = sorting::hashes_of(sorted)[0];
            assert(hash == tree.root);
            assert(sorting::hashes_of(sorted).to_set().contains(hash));
            assert(chosen.contains(hash));
            let i = choose|i: int| 0 <= i < hashes.len() && hashes[i] == hash;
            assert(values[i]@.hash() == hash);
            assert(leaves.to_set().contains(hash));
            let j = choose|j: int| 0 <= j < leaves.len() && leaves[j] == hash;
            assert(nodes[j].on());
        }
    }
}

/// Values can be proved if they are leaves and no two have the same hash.
proof fn lemma_provable_values(tree: TreeView, values: Seq<PendingTransfer>)
    requires
        tree.consistent(),
    ensures
        pool::is_provable(tree, values) <==> {
            &&& forall|i: int|
                0 <= i < values.len() ==> tree.leaves.contains(#[trigger] values[i]@.hash())
            &&& forall|i: int, j: int|
                0 <= i < j < values.len() ==> #[trigger] values[i]@.hash()
                    != #[trigger] values[j]@.hash()
        },
{
    let hashes = sorting::hashes_of(values);
    if pool::is_provable(tree, values) {
        assert forall|i: int| 0 <= i < values.len() implies tree.leaves.contains(
            #[trigger] values[i]@.hash(),
        ) by {
            assert(hashes.to_set().contains(hashes[i]));
        }
        assert forall|i: int, j: int| 0 <= i < j < values.len() implies #[trigger] values[i]@.hash()
            != #[trigger] values[j]@.hash() by {
            assert(hashes[i] != hashes[j]);
        }
    }
    if (forall|i: int|
        0 <= i < values.len() ==> tree.leaves.contains(#[trigger] values[i]@.hash())) && (
    forall|i: int, j: int|
        0 <= i < j < values.len() ==> #[trigger] values[i]@.hash()
            != #[trigger] values[j]@.hash()) {
        assert forall|i: int, j: int|
            0 <= i < hashes.len() && 0 <= j < hashes.len() && i != j implies hashes[i]
            != hashes[j] by {
            assert(values[i]@.hash() != values[j]@.hash());
        }
        assert forall|hash: KeccakHash| hashes.to_set().contains(hash) implies tree.leaves.contains(
            hash,
        ) by {
            let i = choose|i: int| 0 <= i < hashes.len() && hashes[i] == hash;
            assert(tree.leaves.contains(values[i]@.hash()));
        }
    }
}

/// If as many distinct hashes as are named are all among them, each is named
/// once, and no other is.
proof fn lemma_all_named_once(named: Seq<KeccakHash>, distinct: Seq<KeccakHash>)
    requires
        distinct.no_duplicates(),
        distinct.len() == named.len(),
        distinct.to_set().subset_of(named.to_set()),
    ensures
        named.no_duplicates(),
        named.to_set() == distinct.to_set(),
{
    vstd::seq_lib::seq_to_set_is_finite(named);
    vstd::seq_lib::seq_to_set_is_finite(distinct);
    distinct.unique_seq_to_set();
    named.lemma_cardinality_of_set();
    vstd::set_lib::lemma_len_subset(distinct.to_set(), named.to_set());
    named.lemma_no_dup_set_cardinality();
    vstd::set_lib::lemma_subset_equality(distinct.to_set(), named.to_set());
}

/// The leaves of a readable proof that verifies against the root of a tree are
/// leaves of that tree.
///
/// The tree is one over transfers, its `members`. Of the strings that are
/// hashed for the tree, for the proof and for the transfers in either, no two
/// may have the same digest, and none the zero hash.
pub proof fn law_accepted_leaves_are_members(
    tree: TreeView,
    members: Seq<PendingTransfer>,
    given: BridgePoolProof,
)
    requires
        tree.leaves == sorting::hashes_of(members).to_set(),
        tree.consistent(),
        given.readable(),
        given.matches_root(tree.root),
        soundness::told_apart(soundness::hashed_for(members, tree, given)),
    ensures
        sorting::hashes_of(given.leaves@).to_set().subset_of(tree.leaves),
{
    vstd::seq_lib::seq_to_set_is_finite(sorting::hashes_of(members));
    leaf_set::lemma_ascending_exists(tree.leaves);
    soundness::lemma_accepted_leaves_in_tree(
        leaf_set::ascending(tree.leaves),
        members,
        tree,
        given,
    );
}

/// The two sequences have the same length and differ in a single entry.
pub open spec fn one_changed(a: Seq<KeccakHash>, b: Seq<KeccakHash>) -> bool {
    exists|k: int| soundness::changed_at(a, b, 0, k)
}

/// A proof that uses up its siblings no longer verifies against a root that it
/// verified against once a single sibling is changed, or a single leaf is
/// replaced by one of another hash.
///
/// Of the strings that are hashed in the two replays, no two may have the same
/// digest.
pub proof fn law_change_is_noticed(
    given: BridgePoolProof,
    changed: BridgePoolProof,
    root: KeccakHash,
)
    requires
        given.matches_root(root),
        given.flags@.len() == 0 || given.flags@.len() - multiproof::trues(
            given.flags@,
            given.flags@.len(),
        ) == given.proof@.len(),
        changed.flags@ == given.flags@,
        ({
            let before = sorting::hashes_of(given.leaves@);
            let after = sorting::hashes_of(changed.leaves@);
            ||| one_changed(before, after) && changed.proof@ == given.proof@
            ||| before == after && one_changed(given.proof@, changed.proof@)
        }),
        soundness::collision_free(soundness::hashed_in_replays(given, changed)),
    ensures
        !changed.matches_root(root),
{
    let before = sorting::hashes_of(given.leaves@);
    let after = sorting::hashes_of(changed.leaves@);
    let flags = given.flags@;
    let hashed = soundness::hashed_in_replays(given, changed);
    let k = if before == after {
        choose|k: int| soundness::changed_at(given.proof@, changed.proof@, 0, k)
    } else {
        choose|k: int| soundness::changed_at(before, after, 0, k)
    };
    if flags.len() > 0 {
        assert forall|j: nat| j < flags.len() implies hashed(
            #[trigger] soundness::flag_bytes(before, given.proof@, flags, j),
        ) by {
            assert(soundness::hashed_in_replay(
                given,
                soundness::flag_bytes(before, given.proof@, flags, j),
            ));
        }
        assert forall|j: nat| j < flags.len() implies hashed(
            #[trigger] soundness::flag_bytes(after, changed.proof@, flags, j),
        ) by {
            assert(soundness::hashed_in_replay(
                changed,
                soundness::flag_bytes(after, changed.proof@, flags, j),
            ));
        }
        assert(before + multiproof::replayed(before, given.proof@, flags, 0) =~= before);
        assert(after + multiproof::replayed(after, changed.proof@, flags, 0) =~= after);
        multiproof::lemma_replayed_len(before, given.proof@, flags, flags.len());
        multiproof::lemma_replayed_len(after, changed.proof@, flags, flags.len());
        soundness::lemma_change_carries_through(
            before,
            given.proof@,
            after,
            changed.proof@,
            flags,
            hashed,
            0,
            k,
        );
    }
}

} // verus!
