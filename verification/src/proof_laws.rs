//! What a membership proof is made of, and which proofs are accepted.
use crate::keccak;
use crate::keccak::KeccakHash;
use crate::leaf_set;
use crate::merkle;
use crate::multiproof;
use crate::multiproof::Node;
use crate::pool;
use crate::pool::{BridgePoolProof, TreeView};
use crate::sorting;
use crate::transfer::PendingTransfer;
use vstd::prelude::*;

verus! {

/// The flags that are `true` are counted, and no others.
pub proof fn law_true_flags_are_counted(flags: Seq<bool>)
    ensures
        multiproof::trues(flags, flags.len()) == flags.filter(|flag: bool| flag).len(),
    decreases flags.len(),
{
    reveal(Seq::filter);
    if flags.len() > 0 {
        law_true_flags_are_counted(flags.drop_last());
        lemma_trues_of_prefix(flags.drop_last(), flags, (flags.len() - 1) as nat);
    }
}

proof fn lemma_trues_of_prefix(a: Seq<bool>, b: Seq<bool>, n: nat)
    requires
        n <= a.len(),
        n <= b.len(),
        forall|i: int| 0 <= i < n ==> a[i] == b[i],
    ensures
        multiproof::trues(a, n) == multiproof::trues(b, n),
    decreases n,
{
    if n > 0 {
        lemma_trues_of_prefix(a, b, (n - 1) as nat);
    }
}

/// A proof has one hash more than flags, counting leaves and siblings, or it
/// matches no root at all.
pub proof fn law_unmatched_lengths_are_refused(given: BridgePoolProof, root: KeccakHash)
    requires
        given.proof@.len() + given.leaves@.len() != given.flags@.len() + 1,
    ensures
        !given.matches_root(root),
{
}

/// The flags of a proof whose lengths match can be read if and only if as many
/// of them are `true` as there are leaves, or one fewer. A proof whose lengths
/// do not match is refused before its flags are read.
pub proof fn law_readable_flags(given: BridgePoolProof)
    ensures
        given.readable() <==> {
            let count = given.flags@.filter(|flag: bool| flag).len();
            given.proof@.len() + given.leaves@.len() == given.flags@.len() + 1 ==> count
                <= given.leaves@.len() <= count + 1
        },
{
    law_true_flags_are_counted(given.flags@);
}

/// Whether a proof matches a root depends on the hashes of its leaves, in the
/// order in which they stand, on its siblings and on its flags.
pub proof fn law_match_goes_by_hashes(given: BridgePoolProof, root: KeccakHash)
    ensures
        given.matches_root(root) == multiproof::accepts(
            Seq::new(given.leaves@.len(), |i: int| given.leaves@[i]@.hash()),
            given.proof@,
            given.flags@,
            root,
        ),
{
    assert(Seq::new(given.leaves@.len(), |i: int| given.leaves@[i]@.hash())
        =~= sorting::hashes_of(given.leaves@));
}

/// Without flags, the root has to be the only hash that is given.
pub proof fn law_accepted_without_flags(
    leaves: Seq<KeccakHash>,
    siblings: Seq<KeccakHash>,
    root: KeccakHash,
)
    ensures
        multiproof::accepts(leaves, siblings, seq![], root) <==> leaves + siblings == seq![root],
{
    if leaves.len() + siblings.len() == 1 {
        assert((leaves + siblings)[0] == if leaves.len() > 0 {
            leaves[0]
        } else {
            siblings[0]
        });
        if leaves.len() > 0 && root == leaves[0] || leaves.len() == 0 && root == siblings[0] {
            assert(leaves + siblings =~= seq![root]);
        } else {
            assert((leaves + siblings)[0] != seq![root][0]);
        }
    } else {
        assert((leaves + siblings).len() != seq![root].len());
    }
}

/// A first flag that is `true` takes the first two leaves and puts their hash
/// behind the others; the rest of the proof is then checked alike.
pub proof fn law_true_flag_joins_leaves(
    leaves: Seq<KeccakHash>,
    siblings: Seq<KeccakHash>,
    flags: Seq<bool>,
    root: KeccakHash,
)
    requires
        flags.len() > 0,
        flags[0],
        leaves.len() >= 2,
    ensures
        multiproof::accepts(leaves, siblings, flags, root) == multiproof::accepts(
            leaves.skip(2).push(merkle::spec_hash_pair(leaves[0], leaves[1])),
            siblings,
            flags.skip(1),
            root,
        ),
{
    let joined = leaves.skip(2).push(merkle::spec_hash_pair(leaves[0], leaves[1]));
    lemma_first_flag(leaves, siblings, joined, siblings, flags, (flags.len() - 1) as nat);
    lemma_same_last(leaves, siblings, joined, siblings, flags, 2);
}

/// A first flag that is `false` takes the first leaf and the first sibling and
/// puts their hash behind the other leaves; the rest of the proof is then
/// checked alike. There has to be a sibling for each `false` flag.
pub proof fn law_false_flag_takes_sibling(
    leaves: Seq<KeccakHash>,
    siblings: Seq<KeccakHash>,
    flags: Seq<bool>,
    root: KeccakHash,
)
    requires
        flags.len() > 0,
        !flags[0],
        leaves.len() >= 1,
        flags.len() - multiproof::trues(flags, flags.len()) <= siblings.len(),
    ensures
        multiproof::accepts(leaves, siblings, flags, root) == multiproof::accepts(
            leaves.skip(1).push(merkle::spec_hash_pair(leaves[0], siblings[0])),
            siblings.skip(1),
            flags.skip(1),
            root,
        ),
{
    multiproof::lemma_trues_bounds(flags, 1, flags.len());
    assert(multiproof::trues(flags, 1) == 0) by {
        assert(multiproof::trues(flags, 0) == 0);
    }
    let joined = leaves.skip(1).push(merkle::spec_hash_pair(leaves[0], siblings[0]));
    lemma_first_flag(leaves, siblings, joined, siblings.skip(1), flags, (flags.len() - 1) as nat);
    lemma_same_last(leaves, siblings, joined, siblings.skip(1), flags, 1);
}

/// A lone leaf under a `true` flag is hashed with the zero hash.
pub proof fn law_lone_leaf_under_true_flag(
    leaf: KeccakHash,
    siblings: Seq<KeccakHash>,
    root: KeccakHash,
)
    ensures
        multiproof::accepts(seq![leaf], siblings, seq![true], root) <==> {
            &&& siblings.len() == 1
            &&& root == merkle::spec_hash_pair(leaf, keccak::zero_hash())
        },
{
    let flags = seq![true];
    assert(flags[0]);
    assert(multiproof::trues(flags, 0) == 0);
    assert(multiproof::replayed(seq![leaf], siblings, flags, 0) =~= seq![]);
    let before = multiproof::replayed(seq![leaf], siblings, flags, 0);
    let pair = multiproof::pair_read(seq![leaf], siblings, flags, before, 0);
    assert(pair.0 == leaf && pair.1 == keccak::zero_hash());
    assert(multiproof::replayed(seq![leaf], siblings, flags, 1) == before.push(
        merkle::spec_hash_pair(pair.0, pair.1),
    ));
}

/// If as many flags are `true` as there are leaves, and the last is `false`,
/// only the last sibling but one counts, hashed with the zero hash.
pub proof fn law_flags_beyond_the_leaves(
    leaves: Seq<KeccakHash>,
    siblings: Seq<KeccakHash>,
    flags: Seq<bool>,
    root: KeccakHash,
)
    requires
        flags.len() > 0,
        !flags.last(),
        multiproof::trues(flags, flags.len()) == leaves.len(),
    ensures
        multiproof::accepts(leaves, siblings, flags, root) <==> {
            &&& siblings.len() + leaves.len() == flags.len() + 1
            &&& root == merkle::spec_hash_pair(
                keccak::zero_hash(),
                siblings[siblings.len() - 2],
            )
        },
{
    let i = (flags.len() - 1) as nat;
    multiproof::lemma_replayed_len(leaves, siblings, flags, i);
    let before = multiproof::replayed(leaves, siblings, flags, i);
    let pair = multiproof::pair_read(leaves, siblings, flags, before, i);
    assert(pair.0 == keccak::zero_hash());
}

proof fn lemma_trues_of_rest(flags: Seq<bool>, n: nat)
    requires
        n < flags.len(),
    ensures
        multiproof::trues(flags, n + 1) == multiproof::trues(flags.skip(1), n) + if flags[0] {
            1nat
        } else {
            0nat
        },
    decreases n,
{
    if n > 0 {
        lemma_trues_of_rest(flags, (n - 1) as nat);
        assert(flags.skip(1)[n - 1] == flags[n as int]);
    } else {
        assert(multiproof::trues(flags, 0) == 0);
    }
}

/// After the first flag, a replay goes on as one that starts with what is then
/// in the queue.
proof fn lemma_first_flag(
    leaves: Seq<KeccakHash>,
    siblings: Seq<KeccakHash>,
    joined: Seq<KeccakHash>,
    rest: Seq<KeccakHash>,
    flags: Seq<bool>,
    n: nat,
)
    requires
        flags.len() > n,
        flags[0] ==> {
            &&& leaves.len() >= 2
            &&& joined == leaves.skip(2).push(merkle::spec_hash_pair(leaves[0], leaves[1]))
            &&& rest == siblings
        },
        !flags[0] ==> {
            &&& leaves.len() >= 1
            &&& flags.len() - multiproof::trues(flags, flags.len()) <= siblings.len()
            &&& joined == leaves.skip(1).push(merkle::spec_hash_pair(leaves[0], siblings[0]))
            &&& rest == siblings.skip(1)
        },
    ensures
        (leaves + multiproof::replayed(leaves, siblings, flags, n + 1)).skip(
            if flags[0] {
                2
            } else {
                1
            },
        ) == joined + multiproof::replayed(joined, rest, flags.skip(1), n),
    decreases n,
{
    let read = if flags[0] {
        2int
    } else {
        1int
    };
    let after = flags.skip(1);
    if n == 0 {
        assert(multiproof::trues(flags, 0) == 0);
        let before = multiproof::replayed(leaves, siblings, flags, 0);
        let pair = multiproof::pair_read(leaves, siblings, flags, before, 0);
        assert(multiproof::replayed(leaves, siblings, flags, 1) == before.push(
            merkle::spec_hash_pair(pair.0, pair.1),
        ));
        assert(multiproof::replayed(joined, rest, after, 0) =~= seq![]);
        assert((leaves + multiproof::replayed(leaves, siblings, flags, 1)).skip(read) =~= joined
            + multiproof::replayed(joined, rest, after, 0));
    } else {
        let m = (n - 1) as nat;
        lemma_first_flag(leaves, siblings, joined, rest, flags, m);
        lemma_trues_of_rest(flags, m);
        multiproof::lemma_trues_bounds(flags, n, n);
        multiproof::lemma_trues_bounds(after, m, m);
        let before = multiproof::replayed(leaves, siblings, flags, n);
        let short = multiproof::replayed(joined, rest, after, m);
        multiproof::lemma_replayed_len(leaves, siblings, flags, n);
        multiproof::lemma_replayed_len(joined, rest, after, m);
        let queue = leaves + before;
        let next = (n + multiproof::trues(flags, n)) as int;
        let other = (m + multiproof::trues(after, m)) as int;
        assert(next == other + read);
        assert(queue.skip(read) == joined + short);
        assert(multiproof::queue_at(leaves, before, next) == multiproof::queue_at(
            joined,
            short,
            other,
        ));
        assert(multiproof::queue_at(leaves, before, next + 1) == multiproof::queue_at(
            joined,
            short,
            other + 1,
        ));
        assert(after[m as int] == flags[n as int]);
        let a = multiproof::pair_read(leaves, siblings, flags, before, n);
        let b = multiproof::pair_read(joined, rest, after, short, m);
        if !flags[n as int] {
            multiproof::lemma_trues_bounds(flags, n + 1, flags.len());
            assert(a.1 == b.1);
        }
        assert(a == b);
        let hash = merkle::spec_hash_pair(a.0, a.1);
        assert(multiproof::replayed(leaves, siblings, flags, n + 1) == before.push(hash));
        assert(multiproof::replayed(joined, rest, after, n) == short.push(hash));
        assert((leaves + before.push(hash)).skip(read) =~= (joined + short).push(hash));
    }
}

/// Replays that end alike are accepted alike.
proof fn lemma_same_last(
    leaves: Seq<KeccakHash>,
    siblings: Seq<KeccakHash>,
    joined: Seq<KeccakHash>,
    rest: Seq<KeccakHash>,
    flags: Seq<bool>,
    read: int,
)
    requires
        flags.len() > 0,
        0 <= read <= leaves.len(),
        joined.len() == leaves.len() - read + 1,
        siblings.len() + leaves.len() == flags.len() + 1 ==> (leaves + multiproof::replayed(
            leaves,
            siblings,
            flags,
            flags.len(),
        )).skip(read) == joined + multiproof::replayed(
            joined,
            rest,
            flags.skip(1),
            (flags.len() - 1) as nat,
        ),
        siblings.len() + leaves.len() == flags.len() + 1 <==> rest.len() + joined.len()
            == flags.len(),
    ensures
        forall|root: KeccakHash|
            multiproof::accepts(leaves, siblings, flags, root) == multiproof::accepts(
                joined,
                rest,
                flags.skip(1),
                root,
            ),
{
    let n = (flags.len() - 1) as nat;
    multiproof::lemma_replayed_len(leaves, siblings, flags, flags.len());
    multiproof::lemma_replayed_len(joined, rest, flags.skip(1), n);
    if siblings.len() + leaves.len() == flags.len() + 1 {
        let long = leaves + multiproof::replayed(leaves, siblings, flags, flags.len());
        let short = joined + multiproof::replayed(joined, rest, flags.skip(1), n);
        assert(long.skip(read).last() == long.last());
        assert(short.last() == long.last());
    }
}

/// A node holds a hash, and says whether it is on a path.
pub proof fn law_nodes(hash: KeccakHash)
    ensures
        Node::OnPath(hash).hash() == hash,
        Node::OffPath(hash).hash() == hash,
        Node::OnPath(hash).on(),
        !Node::OffPath(hash).on(),
{
}

/// Of the leaves, those that were chosen are marked, and no others.
pub proof fn law_marked_leaves(leaves: Seq<KeccakHash>, chosen: Set<KeccakHash>)
    ensures
        multiproof::marked(leaves, chosen).len() == leaves.len(),
        forall|i: int|
            0 <= i < leaves.len() ==> #[trigger] multiproof::marked(leaves, chosen)[i]
                == if chosen.contains(leaves[i]) {
                Node::OnPath(leaves[i])
            } else {
                Node::OffPath(leaves[i])
            },
{
}

/// A node above is on a path if one of the two below is, and its hash is that
/// of theirs; behind a level of odd length stands a zero hash off the path.
pub proof fn law_nodes_above(nodes: Seq<Node>, zero: KeccakHash)
    requires
        forall|i: int| 0 <= i < 32 ==> zero.0@[i] == 0,
    ensures
        multiproof::parent_nodes(nodes).len() == (nodes.len() + 1) / 2,
        forall|k: int|
            0 <= k && 2 * k + 1 < nodes.len() ==> {
                let above = #[trigger] multiproof::parent_nodes(nodes)[k];
                let left = nodes[2 * k];
                let right = nodes[2 * k + 1];
                &&& (above is OnPath) == (left is OnPath || right is OnPath)
                &&& above.hash() == merkle::spec_hash_pair(left.hash(), right.hash())
            },
        nodes.len() % 2 == 1 ==> {
            let above = multiproof::parent_nodes(nodes).last();
            &&& (above is OnPath) == (nodes.last() is OnPath)
            &&& above.hash() == merkle::spec_hash_pair(nodes.last().hash(), zero)
        },
{
    assert(zero.0 =~= keccak::zero_hash().0);
}

/// The first `n` numbers.
pub open spec fn first(n: nat) -> Seq<int> {
    Seq::new(n, |i: int| i)
}

/// Each pair of a level with a node on a path has a flag, in order: whether
/// both are on one. Behind these come the flags of the level above.
pub proof fn law_flags_of_level(nodes: Seq<Node>)
    ensures
        nodes.len() <= 1 ==> multiproof::proof_flags(nodes) == Seq::<bool>::empty(),
        nodes.len() > 1 ==> {
            let on = |i: int| i < nodes.len() && nodes[i] is OnPath;
            multiproof::proof_flags(nodes) == first(((nodes.len() + 1) / 2) as nat).filter(
                |k: int| on(2 * k) || on(2 * k + 1),
            ).map_values(|k: int| on(2 * k) && on(2 * k + 1)) + multiproof::proof_flags(
                multiproof::parent_nodes(nodes),
            )
        },
{
    let on = |i: int| i < nodes.len() && nodes[i] is OnPath;
    lemma_level_flags(
        nodes,
        ((nodes.len() + 1) / 2) as nat,
        |k: int| on(2 * k) || on(2 * k + 1),
        |k: int| on(2 * k) && on(2 * k + 1),
    );
}

proof fn lemma_level_flags(
    nodes: Seq<Node>,
    n: nat,
    any: spec_fn(int) -> bool,
    both: spec_fn(int) -> bool,
)
    requires
        forall|k: int|
            0 <= k < n ==> #[trigger] any(k) == (multiproof::left_of(nodes, k).on()
                || multiproof::right_of(nodes, k).on()),
        forall|k: int|
            0 <= k < n ==> #[trigger] both(k) == (multiproof::left_of(nodes, k).on()
                && multiproof::right_of(nodes, k).on()),
    ensures
        multiproof::level_flags(nodes, n) == first(n).filter(any).map_values(both),
    decreases n,
{
    reveal(Seq::filter);
    if n > 0 {
        let m = (n - 1) as nat;
        lemma_level_flags(nodes, m, any, both);
        assert(first(n).drop_last() =~= first(m));
        assert(first(n).last() == m);
        assert(any(m as int) == (multiproof::left_of(nodes, m as int).on()
            || multiproof::right_of(nodes, m as int).on()));
        assert(both(m as int) == (multiproof::left_of(nodes, m as int).on()
            && multiproof::right_of(nodes, m as int).on()));
        assert(multiproof::level_flags(nodes, n) =~= first(n).filter(any).map_values(both));
    } else {
        assert(multiproof::level_flags(nodes, 0) =~= first(0).filter(any).map_values(both));
    }
}

/// Each pair of a level of which only one node is on a path has a sibling, in
/// order: the hash of the other node. Behind these come the siblings of the
/// level above.
pub proof fn law_siblings_of_level(nodes: Seq<Node>, zero: KeccakHash)
    requires
        forall|i: int| 0 <= i < 32 ==> zero.0@[i] == 0,
    ensures
        nodes.len() <= 1 ==> multiproof::proof_siblings(nodes) == Seq::<KeccakHash>::empty(),
        nodes.len() > 1 ==> {
            let on = |i: int| i < nodes.len() && nodes[i] is OnPath;
            let hash = |i: int|
                if i < nodes.len() {
                    nodes[i].hash()
                } else {
                    zero
                };
            multiproof::proof_siblings(nodes) == first(((nodes.len() + 1) / 2) as nat).filter(
                |k: int| on(2 * k) != on(2 * k + 1),
            ).map_values(
                |k: int|
                    if on(2 * k) {
                        hash(2 * k + 1)
                    } else {
                        hash(2 * k)
                    },
            ) + multiproof::proof_siblings(multiproof::parent_nodes(nodes))
        },
{
    assert(zero.0 =~= keccak::zero_hash().0);
    let on = |i: int| i < nodes.len() && nodes[i] is OnPath;
    let hash = |i: int|
        if i < nodes.len() {
            nodes[i].hash()
        } else {
            zero
        };
    lemma_level_siblings(
        nodes,
        ((nodes.len() + 1) / 2) as nat,
        |k: int| on(2 * k) != on(2 * k + 1),
        |k: int|
            if on(2 * k) {
                hash(2 * k + 1)
            } else {
                hash(2 * k)
            },
    );
}

proof fn lemma_level_siblings(
    nodes: Seq<Node>,
    n: nat,
    one: spec_fn(int) -> bool,
    other: spec_fn(int) -> KeccakHash,
)
    requires
        forall|k: int|
            0 <= k < n ==> #[trigger] one(k) == (multiproof::left_of(nodes, k).on()
                != multiproof::right_of(nodes, k).on()),
        forall|k: int|
            0 <= k < n ==> #[trigger] other(k) == if multiproof::left_of(nodes, k).on() {
                multiproof::right_of(nodes, k).hash()
            } else {
                multiproof::left_of(nodes, k).hash()
            },
    ensures
        multiproof::level_siblings(nodes, n) == first(n).filter(one).map_values(other),
    decreases n,
{
    reveal(Seq::filter);
    if n > 0 {
        let m = (n - 1) as nat;
        lemma_level_siblings(nodes, m, one, other);
        assert(first(n).drop_last() =~= first(m));
        assert(first(n).last() == m);
        assert(one(m as int) == (multiproof::left_of(nodes, m as int).on()
            != multiproof::right_of(nodes, m as int).on()));
        assert(other(m as int) == if multiproof::left_of(nodes, m as int).on() {
            multiproof::right_of(nodes, m as int).hash()
        } else {
            multiproof::left_of(nodes, m as int).hash()
        });
        assert(multiproof::level_siblings(nodes, n) =~= first(n).filter(one).map_values(other));
    } else {
        assert(multiproof::level_siblings(nodes, 0) =~= first(0).filter(one).map_values(other));
    }
}

/// Sorting keeps all transfers, and as often as each occurs. It brings them in
/// the order of their hashes, and leaves those of one hash in the order in
/// which they stood.
pub proof fn law_sorted_transfers(
    values: Seq<PendingTransfer>,
    sorted: Seq<PendingTransfer>,
    hash: KeccakHash,
)
    requires
        sorting::is_stable_sort(values, sorted),
    ensures
        sorted.to_multiset() == values.to_multiset(),
        forall|i: int, j: int|
            0 <= i < j < sorted.len() ==> !(#[trigger] sorted[j])@.hash().spec_lt(
                (#[trigger] sorted[i])@.hash(),
            ),
        sorted.filter(|value: PendingTransfer| value@.hash() == hash) == values.filter(
            |value: PendingTransfer| value@.hash() == hash,
        ),
{
    assert forall|value: PendingTransfer| #[trigger]
        sorted.to_multiset().count(value) == values.to_multiset().count(value) by {
        lemma_count_with_hash(values, value);
        lemma_count_with_hash(sorted, value);
        assert(sorting::with_hash(sorted, value@.hash()) == sorting::with_hash(
            values,
            value@.hash(),
        ));
    }
    assert(sorted.to_multiset() =~= values.to_multiset());
    let hashes = sorting::hashes_of(sorted);
    assert forall|i: int, j: int| 0 <= i < j < sorted.len() implies !(
    #[trigger] sorted[j])@.hash().spec_lt((#[trigger] sorted[i])@.hash()) by {
        assert(!hashes[j].spec_lt(hashes[i]));
    }
    assert(sorting::with_hash(sorted, hash) == sorting::with_hash(values, hash));
}

/// A transfer occurs as often as it does among those with its hash.
proof fn lemma_count_with_hash(values: Seq<PendingTransfer>, value: PendingTransfer)
    ensures
        sorting::with_hash(values, value@.hash()).to_multiset().count(value)
            == values.to_multiset().count(value),
    decreases values.len(),
{
    reveal(Seq::filter);
    broadcast use vstd::seq_lib::group_to_multiset_ensures;

    if values.len() > 0 {
        let front = values.drop_last();
        lemma_count_with_hash(front, value);
        assert(values =~= front.push(values.last()));
    }
}

/// The proof that a tree gives for some values, whichever way its leaves are
/// listed in ascending order with those of the values marked: it has the
/// siblings and the flags of that list, or just the root if there are no
/// values, and the values in the order of their hashes, where those of one
/// `hash` keep their order.
pub proof fn law_made_proof(
    tree: TreeView,
    values: Seq<PendingTransfer>,
    given: BridgePoolProof,
    nodes: Seq<Node>,
    hash: KeccakHash,
)
    requires
        pool::is_proof_for(tree, values, given),
        forall|i: int, j: int|
            0 <= i < j < nodes.len() ==> nodes[i].hash().spec_lt(nodes[j].hash()),
        Seq::new(nodes.len(), |i: int| nodes[i].hash()).to_set() == tree.leaves,
        forall|i: int|
            0 <= i < nodes.len() ==> ((#[trigger] nodes[i]) is OnPath <==> exists|j: int|
                0 <= j < values.len() && (#[trigger] values[j])@.hash() == nodes[i].hash()),
    ensures
        given.flags@ == multiproof::proof_flags(nodes),
        values.len() > 0 ==> given.proof@ == multiproof::proof_siblings(nodes),
        values.len() == 0 ==> given.proof@ == seq![tree.root],
        given.leaves@.to_multiset() == values.to_multiset(),
        forall|i: int, j: int|
            0 <= i < j < given.leaves@.len() ==> !(#[trigger] given.leaves@[j])@.hash().spec_lt(
                (#[trigger] given.leaves@[i])@.hash(),
            ),
        given.leaves@.filter(|value: PendingTransfer| value@.hash() == hash) == values.filter(
            |value: PendingTransfer| value@.hash() == hash,
        ),
{
    let list = Seq::new(nodes.len(), |i: int| nodes[i].hash());
    let hashes = sorting::hashes_of(values);
    assert(leaf_set::is_ascending(list));
    leaf_set::lemma_ascending_of_members(list);
    assert forall|i: int| 0 <= i < nodes.len() implies #[trigger] nodes[i] == multiproof::marked(
        list,
        hashes.to_set(),
    )[i] by {
        if nodes[i] is OnPath {
            let j = choose|j: int|
                0 <= j < values.len() && (#[trigger] values[j])@.hash() == nodes[i].hash();
            assert(hashes[j] == nodes[i].hash());
            assert(hashes.to_set().contains(nodes[i].hash()));
        } else if hashes.to_set().contains(nodes[i].hash()) {
            let j = choose|j: int| 0 <= j < hashes.len() && hashes[j] == nodes[i].hash();
            assert(values[j]@.hash() == nodes[i].hash());
        }
    }
    assert(nodes =~= multiproof::marked(list, hashes.to_set()));
    law_sorted_transfers(values, given.leaves@, hash);
}

} // verus!
