//! Why a proof that was made from a tree is accepted under the root of that
//! tree.
//!
//! The replay of a proof reads the nodes on a path level by level, from the
//! left to the right, and computes those of the level above in the same order.
use crate::keccak::KeccakHash;
use crate::merkle;
use crate::multiproof;
use crate::multiproof::Node;
use vstd::prelude::*;

verus! {

/// The hashes of the nodes on a path among the first `n` nodes of a level.
pub open spec fn on_hashes(nodes: Seq<Node>, n: nat) -> Seq<KeccakHash>
    decreases n,
{
    if n == 0 {
        seq![]
    } else {
        let before = on_hashes(nodes, (n - 1) as nat);
        let node = multiproof::node_at(nodes, n - 1);
        if node.on() {
            before.push(node.hash())
        } else {
            before
        }
    }
}

/// The hashes of a level of nodes.
pub open spec fn node_hashes(nodes: Seq<Node>) -> Seq<KeccakHash> {
    Seq::new(nodes.len(), |i: int| nodes[i].hash())
}

/// A replay that has used the first `c` flags is about to read the nodes on a
/// path of the level `nodes`.
spec fn at_level(
    leaves: Seq<KeccakHash>,
    siblings: Seq<KeccakHash>,
    flags: Seq<bool>,
    nodes: Seq<Node>,
    c: nat,
) -> bool {
    let queue = leaves + multiproof::replayed(leaves, siblings, flags, c);
    let read = (c + multiproof::trues(flags, c)) as int;
    let used = c - multiproof::trues(flags, c);
    &&& c <= flags.len()
    &&& 0 <= used <= siblings.len()
    &&& read <= queue.len()
    &&& flags.skip(c as int) == multiproof::proof_flags(nodes)
    &&& siblings.skip(used) == multiproof::proof_siblings(nodes)
    &&& queue.skip(read) == on_hashes(nodes, nodes.len())
}

/// The nodes on a path among the first `m` come first among those of the
/// first `n`.
proof fn lemma_on_hashes_prefix(nodes: Seq<Node>, m: nat, n: nat)
    requires
        m <= n,
    ensures
        on_hashes(nodes, m).is_prefix_of(on_hashes(nodes, n)),
    decreases n,
{
    if m < n {
        lemma_on_hashes_prefix(nodes, m, (n - 1) as nat);
    }
}

proof fn lemma_on_hashes_beyond(nodes: Seq<Node>, n: nat)
    requires
        n >= nodes.len(),
    ensures
        on_hashes(nodes, n) == on_hashes(nodes, nodes.len()),
    decreases n,
{
    if n > nodes.len() {
        lemma_on_hashes_beyond(nodes, (n - 1) as nat);
    }
}

proof fn lemma_level_prefixes(nodes: Seq<Node>, j: nat, k: nat)
    requires
        j <= k,
    ensures
        multiproof::level_flags(nodes, j).is_prefix_of(multiproof::level_flags(nodes, k)),
        multiproof::level_siblings(nodes, j).is_prefix_of(multiproof::level_siblings(nodes, k)),
    decreases k,
{
    if j < k {
        lemma_level_prefixes(nodes, j, (k - 1) as nat);
    }
}

/// What a replay has read and computed after the first `k` pairs of a level.
proof fn lemma_replay_pairs(
    leaves: Seq<KeccakHash>,
    siblings: Seq<KeccakHash>,
    flags: Seq<bool>,
    nodes: Seq<Node>,
    c: nat,
    k: nat,
)
    requires
        at_level(leaves, siblings, flags, nodes, c),
        nodes.len() >= 2,
        k <= merkle::pairs(nodes.len()),
    ensures
        ({
            let d = c + multiproof::level_flags(nodes, k).len();
            let above = on_hashes(multiproof::parent_nodes(nodes), k);
            &&& d <= flags.len()
            &&& above.len() == multiproof::level_flags(nodes, k).len()
            &&& on_hashes(nodes, 2 * k).len() <= 2 * above.len()
            &&& d + multiproof::trues(flags, d) == c + multiproof::trues(flags, c) + on_hashes(
                nodes,
                2 * k,
            ).len()
            &&& d - multiproof::trues(flags, d) == c - multiproof::trues(flags, c)
                + multiproof::level_siblings(nodes, k).len()
            &&& multiproof::replayed(leaves, siblings, flags, d) == multiproof::replayed(
                leaves,
                siblings,
                flags,
                c,
            ) + above
        }),
    decreases k,
{
    if k == 0 {
        assert(multiproof::replayed(leaves, siblings, flags, c) + Seq::<KeccakHash>::empty()
            =~= multiproof::replayed(leaves, siblings, flags, c));
    } else {
        let j = (k - 1) as nat;
        let all = merkle::pairs(nodes.len());
        lemma_replay_pairs(leaves, siblings, flags, nodes, c, j);
        lemma_level_prefixes(nodes, k, all);
        lemma_on_hashes_beyond(nodes, 2 * all);
        lemma_on_hashes_prefix(nodes, 2 * k, 2 * all);
        multiproof::lemma_replayed_len(leaves, siblings, flags, c);
        let e = c + multiproof::level_flags(nodes, j).len();
        multiproof::lemma_replayed_len(leaves, siblings, flags, e);
        let left = multiproof::left_of(nodes, j as int);
        let right = multiproof::right_of(nodes, j as int);
        let mid = on_hashes(nodes, 2 * j + 1);
        assert(mid == if left.on() {
            on_hashes(nodes, 2 * j).push(left.hash())
        } else {
            on_hashes(nodes, 2 * j)
        });
        assert(on_hashes(nodes, 2 * k) == if right.on() {
            mid.push(right.hash())
        } else {
            mid
        });
        if left.on() || right.on() {
            let level = multiproof::level_flags(nodes, all);
            let flag = multiproof::level_flags(nodes, k)[e - c];
            assert(flag == level[e - c]);
            assert(flag == multiproof::proof_flags(nodes)[e - c]);
            assert(flags.skip(c as int).len() == flags.len() - c);
            assert(flags.skip(c as int)[e - c] == flags[e as int]);
            assert(flags[e as int] == (left.on() && right.on()));
            let queue = leaves + multiproof::replayed(leaves, siblings, flags, c);
            let now = leaves + multiproof::replayed(leaves, siblings, flags, e);
            let read = (c + multiproof::trues(flags, c)) as int;
            let seen = on_hashes(nodes, 2 * j).len() as int;
            let on = on_hashes(nodes, nodes.len());
            let pair = on_hashes(nodes, 2 * k);
            let first = if left.on() {
                left.hash()
            } else {
                right.hash()
            };
            assert(pair[seen] == first);
            assert(on[seen] == first);
            assert(queue.skip(read).len() == queue.len() - read);
            assert(queue.skip(read)[seen] == now[read + seen]);
            assert(now[read + seen] == first);
            if left.on() && right.on() {
                assert(pair[seen + 1] == right.hash());
                assert(on[seen + 1] == right.hash());
                assert(queue.skip(read)[seen + 1] == now[read + seen + 1]);
                assert(now[read + seen + 1] == right.hash());
            } else {
                let used = c - multiproof::trues(flags, c);
                let at = multiproof::level_siblings(nodes, j).len() as int;
                let level = multiproof::level_siblings(nodes, all);
                let sibling = multiproof::level_siblings(nodes, k)[at];
                assert(sibling == level[at]);
                assert(sibling == multiproof::proof_siblings(nodes)[at]);
                assert(siblings.skip(used).len() == siblings.len() - used);
                assert(siblings.skip(used)[at] == siblings[used + at]);
            }
            merkle::law_hash_pair_commutes(left.hash(), right.hash());
            let parent = multiproof::parent_nodes(nodes)[j as int];
            assert(multiproof::replayed(leaves, siblings, flags, e + 1)
                == multiproof::replayed(leaves, siblings, flags, e).push(parent.hash()));
        }
    }
}

proof fn lemma_parents_of_nodes(nodes: Seq<Node>)
    ensures
        node_hashes(multiproof::parent_nodes(nodes)) == merkle::parents(node_hashes(nodes)),
{
    assert(node_hashes(multiproof::parent_nodes(nodes)) =~= merkle::parents(node_hashes(nodes)));
}

/// From a level of which at least one node is on a path, a replay ends with
/// the root, having used up all it was given.
proof fn lemma_replay_levels(
    leaves: Seq<KeccakHash>,
    siblings: Seq<KeccakHash>,
    flags: Seq<bool>,
    nodes: Seq<Node>,
    c: nat,
)
    requires
        at_level(leaves, siblings, flags, nodes, c),
        on_hashes(nodes, nodes.len()).len() > 0,
    ensures
        multiproof::lengths_match(leaves.len(), siblings.len(), flags.len()),
        leaves.len() == multiproof::trues(flags, flags.len()) + 1,
        (leaves + multiproof::replayed(leaves, siblings, flags, flags.len())).last()
            == merkle::merkle_root(node_hashes(nodes)),
    decreases nodes.len(),
{
    multiproof::lemma_replayed_len(leaves, siblings, flags, c);
    let t = multiproof::trues(flags, c);
    let queue = leaves + multiproof::replayed(leaves, siblings, flags, c);
    if nodes.len() <= 1 {
        assert(nodes.len() == 1);
        assert(on_hashes(nodes, 1) =~= seq![nodes[0].hash()]) by {
            assert(on_hashes(nodes, 0) =~= seq![]);
        }
        assert(flags.skip(c as int).len() == 0);
        assert(siblings.skip(c - t).len() == 0);
        assert(queue.skip((c + t) as int).len() == 1);
        assert(queue.skip((c + t) as int)[0] == queue.last());
    } else {
        let all = merkle::pairs(nodes.len());
        let above = multiproof::parent_nodes(nodes);
        let d = c + multiproof::level_flags(nodes, all).len();
        lemma_replay_pairs(leaves, siblings, flags, nodes, c, all);
        lemma_on_hashes_beyond(nodes, 2 * all);
        multiproof::lemma_replayed_len(leaves, siblings, flags, d);
        lemma_parents_of_nodes(nodes);
        let next = leaves + multiproof::replayed(leaves, siblings, flags, d);
        let read = (d + multiproof::trues(flags, d)) as int;
        let used = d - multiproof::trues(flags, d);
        assert(flags.skip(d as int) =~= flags.skip(c as int).skip(d - c));
        assert(flags.skip(d as int) =~= multiproof::proof_flags(above));
        assert(siblings.skip(used) =~= siblings.skip(c - t).skip(used - (c - t)));
        assert(siblings.skip(used) =~= multiproof::proof_siblings(above));
        assert(queue.skip((c + t) as int).len() == queue.len() - (c + t));
        assert(next.skip(read) =~= on_hashes(above, all));
        lemma_replay_levels(leaves, siblings, flags, above, d);
    }
}

/// The proof made from a tree, of which at least one leaf is marked, is
/// accepted under the root of the tree when it is given the marked leaves.
pub proof fn law_marked_leaves_accepted(nodes: Seq<Node>)
    requires
        on_hashes(nodes, nodes.len()).len() > 0,
    ensures
        ({
            let leaves = on_hashes(nodes, nodes.len());
            let siblings = multiproof::proof_siblings(nodes);
            let flags = multiproof::proof_flags(nodes);
            &&& multiproof::flags_fit(leaves.len(), flags)
            &&& multiproof::accepts(
                leaves,
                siblings,
                flags,
                merkle::merkle_root(node_hashes(nodes)),
            )
        }),
{
    let leaves = on_hashes(nodes, nodes.len());
    let siblings = multiproof::proof_siblings(nodes);
    let flags = multiproof::proof_flags(nodes);
    assert(flags.skip(0) =~= flags);
    assert(siblings.skip(0) =~= siblings);
    assert((leaves + multiproof::replayed(leaves, siblings, flags, 0)).skip(0) =~= leaves);
    lemma_replay_levels(leaves, siblings, flags, nodes, 0);
    multiproof::lemma_replayed_len(leaves, siblings, flags, flags.len());
}

} // verus!
