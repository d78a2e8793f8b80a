//! Why a proof that replays to the root of a tree is about leaves of that tree,
//! and why a change to a proof is noticed.
//!
//! Both rest on the digests of the strings that were hashed on the way being
//! told apart; of other strings nothing is asked.
use crate::keccak;
use crate::keccak::KeccakHash;
use crate::leaf_set;
use crate::merkle;
use crate::multiproof;
use crate::pool::{BridgePoolProof, TreeView};
use crate::sorting;
use crate::transfer;
use crate::transfer::PendingTransfer;
use vstd::prelude::*;

verus! {

/// The Keccak hash of a string.
pub open spec fn digest(bytes: Seq<u8>) -> KeccakHash {
    KeccakHash(keccak::keccak256(bytes))
}

/// No two of the strings have the same digest.
pub open spec fn collision_free(hashed: spec_fn(Seq<u8>) -> bool) -> bool {
    forall|a: Seq<u8>, b: Seq<u8>|
        #![trigger digest(a), digest(b)]
        hashed(a) && hashed(b) && digest(a) == digest(b) ==> a == b
}

/// No two of the strings have the same digest, and none has the zero hash.
pub open spec fn told_apart(hashed: spec_fn(Seq<u8>) -> bool) -> bool {
    &&& collision_free(hashed)
    &&& forall|a: Seq<u8>| hashed(a) ==> #[trigger] digest(a) != keccak::zero_hash()
}

/// The string that is hashed for pair `k` of a level.
pub open spec fn pair_bytes(level: Seq<KeccakHash>, k: int) -> Seq<u8> {
    merkle::ordered_bytes(merkle::hash_at(level, 2 * k), merkle::hash_at(level, 2 * k + 1))
}

/// Is the string hashed for a pair of a level of the tree over `level`?
pub open spec fn hashed_in_levels(level: Seq<KeccakHash>, bytes: Seq<u8>) -> bool
    decreases level.len(),
{
    level.len() > 1 && {
        ||| exists|k: int|
            0 <= k < merkle::pairs(level.len()) && bytes == #[trigger] pair_bytes(level, k)
        ||| hashed_in_levels(merkle::parents(level), bytes)
    }
}

/// The string that is hashed for flag `i` of a proof.
pub open spec fn flag_bytes(
    leaves: Seq<KeccakHash>,
    siblings: Seq<KeccakHash>,
    flags: Seq<bool>,
    i: nat,
) -> Seq<u8> {
    let before = multiproof::replayed(leaves, siblings, flags, i);
    let pair = multiproof::pair_read(leaves, siblings, flags, before, i);
    merkle::ordered_bytes(pair.0, pair.1)
}

/// Is the string hashed in the replay of a proof?
pub open spec fn hashed_in_replay(given: BridgePoolProof, bytes: Seq<u8>) -> bool {
    exists|i: nat|
        i < given.flags@.len() && bytes == #[trigger] flag_bytes(
            sorting::hashes_of(given.leaves@),
            given.proof@,
            given.flags@,
            i,
        )
}

/// The strings that are hashed in the replays of two proofs.
pub open spec fn hashed_in_replays(a: BridgePoolProof, b: BridgePoolProof) -> spec_fn(
    Seq<u8>,
) -> bool {
    |bytes: Seq<u8>| hashed_in_replay(a, bytes) || hashed_in_replay(b, bytes)
}

/// Is the string the encoding of one of the transfers?
pub open spec fn is_encoding(values: Seq<PendingTransfer>, bytes: Seq<u8>) -> bool {
    exists|i: int| 0 <= i < values.len() && bytes == #[trigger] values[i]@.encoding()
}

/// The strings that are hashed for a tree, for a proof, and for the transfers
/// in the one and in the other.
pub open spec fn hashed_for(
    members: Seq<PendingTransfer>,
    tree: TreeView,
    given: BridgePoolProof,
) -> spec_fn(Seq<u8>) -> bool {
    |bytes: Seq<u8>|
        {
            ||| hashed_in_levels(leaf_set::ascending(tree.leaves), bytes)
            ||| hashed_in_replay(given, bytes)
            ||| is_encoding(members, bytes)
            ||| is_encoding(given.leaves@, bytes)
        }
}

/// Does the hash stand in the tree over `level`, in that level or above?
pub open spec fn is_node(level: Seq<KeccakHash>, hash: KeccakHash) -> bool
    decreases level.len(),
{
    ||| level.contains(hash)
    ||| level.len() > 1 && is_node(merkle::parents(level), hash)
}

/// Two pairs that are written as the same string hold the same hashes.
proof fn lemma_same_bytes_same_pair(
    a: KeccakHash,
    b: KeccakHash,
    c: KeccakHash,
    d: KeccakHash,
)
    requires
        merkle::ordered_bytes(a, b) == merkle::ordered_bytes(c, d),
    ensures
        (a == c && b == d) || (a == d && b == c),
{
    let (p, q) = if a.spec_lt(b) {
        (a, b)
    } else {
        (b, a)
    };
    let (r, s) = if c.spec_lt(d) {
        (c, d)
    } else {
        (d, c)
    };
    let x = p.0@ + q.0@;
    let y = r.0@ + s.0@;
    assert(x == y);
    assert forall|i: int| 0 <= i < 32 implies p.0@[i] == r.0@[i] && q.0@[i] == s.0@[i] by {
        assert(x[i] == y[i]);
        assert(x[32 + i] == y[32 + i]);
    }
    assert(p.0 =~= r.0);
    assert(q.0 =~= s.0);
}

/// The leaf level is made of digests of strings longer than a pair, and all
/// strings of the tree are among those that are told apart.
spec fn is_covered(level: Seq<KeccakHash>, hashed: spec_fn(Seq<u8>) -> bool) -> bool {
    &&& told_apart(hashed)
    &&& forall|bytes: Seq<u8>| #[trigger] hashed_in_levels(level, bytes) ==> hashed(bytes)
    &&& forall|i: int| 0 <= i < level.len() ==> is_long_digest(#[trigger] level[i], hashed)
}

/// Is the hash the digest of a string that is longer than a pair?
spec fn is_long_digest(hash: KeccakHash, hashed: spec_fn(Seq<u8>) -> bool) -> bool {
    exists|bytes: Seq<u8>| hashed(bytes) && bytes.len() > 64 && #[trigger] digest(bytes) == hash
}

/// A node of the tree is a leaf, or the hash of two that are each a node or
/// the zero hash.
proof fn lemma_node_has_children(level: Seq<KeccakHash>, hash: KeccakHash) -> (pair: (
    KeccakHash,
    KeccakHash,
))
    requires
        is_node(level, hash),
        !level.contains(hash),
    ensures
        hash == merkle::spec_hash_pair(pair.0, pair.1),
        hashed_in_levels(level, merkle::ordered_bytes(pair.0, pair.1)),
        is_node(level, pair.0) || pair.0 == keccak::zero_hash(),
        is_node(level, pair.1) || pair.1 == keccak::zero_hash(),
    decreases level.len(),
{
    let above = merkle::parents(level);
    if above.contains(hash) {
        let k = choose|k: int| 0 <= k < above.len() && above[k] == hash;
        let pair = (merkle::hash_at(level, 2 * k), merkle::hash_at(level, 2 * k + 1));
        assert(pair_bytes(level, k) == merkle::ordered_bytes(pair.0, pair.1));
        assert(level.contains(level[2 * k]));
        if 2 * k + 1 < level.len() {
            assert(level.contains(level[2 * k + 1]));
        }
        pair
    } else {
        lemma_node_has_children(above, hash)
    }
}

/// The root is a node of the tree, if that has any.
proof fn lemma_root_is_node(level: Seq<KeccakHash>)
    requires
        level.len() > 0,
    ensures
        is_node(level, merkle::merkle_root(level)),
    decreases level.len(),
{
    if level.len() == 1 {
        assert(level.contains(level[0]));
    } else {
        lemma_root_is_node(merkle::parents(level));
    }
}

/// No node of the tree is the zero hash.
proof fn lemma_node_is_not_zero(
    level: Seq<KeccakHash>,
    hash: KeccakHash,
    hashed: spec_fn(Seq<u8>) -> bool,
)
    requires
        is_covered(level, hashed),
        is_node(level, hash),
    ensures
        hash != keccak::zero_hash(),
{
    if level.contains(hash) {
        let i = choose|i: int| 0 <= i < level.len() && level[i] == hash;
        assert(is_long_digest(level[i], hashed));
    } else {
        let pair = lemma_node_has_children(level, hash);
        assert(hash == digest(merkle::ordered_bytes(pair.0, pair.1)));
    }
}

/// A node that is the hash of two hashes is above them in the tree.
proof fn lemma_below_a_node(
    level: Seq<KeccakHash>,
    left: KeccakHash,
    right: KeccakHash,
    hashed: spec_fn(Seq<u8>) -> bool,
)
    requires
        is_covered(level, hashed),
        hashed(merkle::ordered_bytes(left, right)),
        is_node(level, merkle::spec_hash_pair(left, right)),
    ensures
        is_node(level, left) || left == keccak::zero_hash(),
        is_node(level, right) || right == keccak::zero_hash(),
{
    let hash = merkle::spec_hash_pair(left, right);
    let bytes = merkle::ordered_bytes(left, right);
    assert(hash == digest(bytes));
    if level.contains(hash) {
        let i = choose|i: int| 0 <= i < level.len() && level[i] == hash;
        assert(is_long_digest(level[i], hashed));
        let long = choose|long: Seq<u8>|
            hashed(long) && long.len() > 64 && #[trigger] digest(long) == hash;
        assert(long == bytes);
    } else {
        let pair = lemma_node_has_children(level, hash);
        let other = merkle::ordered_bytes(pair.0, pair.1);
        assert(digest(other) == digest(bytes));
        lemma_same_bytes_same_pair(left, right, pair.0, pair.1);
    }
}

/// A node that is the digest of a string longer than a pair is a leaf.
proof fn lemma_long_node_is_leaf(
    level: Seq<KeccakHash>,
    bytes: Seq<u8>,
    hashed: spec_fn(Seq<u8>) -> bool,
)
    requires
        is_covered(level, hashed),
        hashed(bytes),
        bytes.len() > 64,
        is_node(level, digest(bytes)),
    ensures
        level.contains(digest(bytes)),
{
    if !level.contains(digest(bytes)) {
        let pair = lemma_node_has_children(level, digest(bytes));
        let other = merkle::ordered_bytes(pair.0, pair.1);
        assert(digest(other) == digest(bytes));
    }
}

/// The root of a tree is not the hash of a pair that holds the zero hash.
proof fn lemma_no_zero_at_the_top(
    level: Seq<KeccakHash>,
    hash: KeccakHash,
    hashed: spec_fn(Seq<u8>) -> bool,
)
    requires
        is_covered(level, hashed),
        hashed(merkle::ordered_bytes(hash, keccak::zero_hash())),
    ensures
        merkle::merkle_root(level) != merkle::spec_hash_pair(hash, keccak::zero_hash()),
{
    let zero = keccak::zero_hash();
    let bytes = merkle::ordered_bytes(hash, zero);
    let root = merkle::merkle_root(level);
    assert(merkle::spec_hash_pair(hash, zero) == digest(bytes));
    if root == digest(bytes) {
        if level.len() == 1 {
            assert(is_long_digest(level[0], hashed));
            let long = choose|long: Seq<u8>|
                hashed(long) && long.len() > 64 && #[trigger] digest(long) == root;
            assert(long == bytes);
        } else if level.len() > 1 {
            let pair = lemma_top_pair(level);
            let other = merkle::ordered_bytes(pair.0, pair.1);
            assert(digest(other) == digest(bytes));
            lemma_same_bytes_same_pair(hash, zero, pair.0, pair.1);
            lemma_node_is_not_zero(level, pair.0, hashed);
            lemma_node_is_not_zero(level, pair.1, hashed);
        }
    }
}

/// The root of a tree with several leaves is the hash of two nodes.
proof fn lemma_top_pair(level: Seq<KeccakHash>) -> (pair: (KeccakHash, KeccakHash))
    requires
        level.len() > 1,
    ensures
        merkle::merkle_root(level) == merkle::spec_hash_pair(pair.0, pair.1),
        hashed_in_levels(level, merkle::ordered_bytes(pair.0, pair.1)),
        is_node(level, pair.0),
        is_node(level, pair.1),
    decreases level.len(),
{
    if level.len() == 2 {
        let above = merkle::parents(level);
        assert(above.len() == 1);
        assert(merkle::merkle_root(above) == above[0]);
        assert(pair_bytes(level, 0) == merkle::ordered_bytes(level[0], level[1]));
        assert(level.contains(level[0]));
        assert(level.contains(level[1]));
        (level[0], level[1])
    } else {
        lemma_top_pair(merkle::parents(level))
    }
}

/// Walking a replay back from its last hash, all that was read is in the tree:
/// each queue entry not read before flag `i` is a node or the zero hash.
proof fn lemma_queue_in_tree(
    level: Seq<KeccakHash>,
    leaves: Seq<KeccakHash>,
    siblings: Seq<KeccakHash>,
    flags: Seq<bool>,
    hashed: spec_fn(Seq<u8>) -> bool,
    i: nat,
)
    requires
        is_covered(level, hashed),
        forall|j: nat| j < flags.len() ==> hashed(#[trigger] flag_bytes(leaves, siblings, flags, j)),
        leaves.len() == multiproof::trues(flags, flags.len()) + 1,
        (leaves + multiproof::replayed(leaves, siblings, flags, flags.len())).last()
            == merkle::merkle_root(level),
        i <= flags.len(),
    ensures
        forall|k: int|
            i + multiproof::trues(flags, i) <= k < leaves.len() + flags.len() ==> {
                let hash = #[trigger] (leaves + multiproof::replayed(
                    leaves,
                    siblings,
                    flags,
                    flags.len(),
                ))[k];
                is_node(level, hash) || hash == keccak::zero_hash()
            },
    decreases flags.len() - i,
{
    let all = multiproof::replayed(leaves, siblings, flags, flags.len());
    let queue = leaves + all;
    multiproof::lemma_replayed_len(leaves, siblings, flags, flags.len());
    if i == flags.len() {
        if level.len() > 0 {
            lemma_root_is_node(level);
        }
    } else {
        let n = i + 1;
        lemma_queue_in_tree(level, leaves, siblings, flags, hashed, n);
        multiproof::lemma_trues_bounds(flags, i, flags.len());
        multiproof::lemma_trues_bounds(flags, n, flags.len());
        let before = multiproof::replayed(leaves, siblings, flags, i);
        let pair = multiproof::pair_read(leaves, siblings, flags, before, i);
        let hash = merkle::spec_hash_pair(pair.0, pair.1);
        multiproof::lemma_replayed_len(leaves, siblings, flags, i);
        lemma_replayed_prefix(leaves, siblings, flags, n, flags.len());
        lemma_replayed_prefix(leaves, siblings, flags, i, flags.len());
        assert(multiproof::replayed(leaves, siblings, flags, n)[i as int] == hash);
        assert(queue[(leaves.len() + i) as int] == hash);
        assert(hashed(flag_bytes(leaves, siblings, flags, i)));
        assert(hash == digest(flag_bytes(leaves, siblings, flags, i)));
        lemma_below_a_node(level, pair.0, pair.1, hashed);
        let next = (i + multiproof::trues(flags, i)) as int;
        assert(queue[next] == pair.0);
        if flags[i as int] {
            assert(queue[next + 1] == pair.1);
        }
    }
}

/// A longer replay computes what a shorter one does, and more.
proof fn lemma_replayed_prefix(
    leaves: Seq<KeccakHash>,
    siblings: Seq<KeccakHash>,
    flags: Seq<bool>,
    m: nat,
    n: nat,
)
    requires
        m <= n,
    ensures
        multiproof::replayed(leaves, siblings, flags, m).is_prefix_of(
            multiproof::replayed(leaves, siblings, flags, n),
        ),
    decreases n,
{
    if m < n {
        lemma_replayed_prefix(leaves, siblings, flags, m, (n - 1) as nat);
    }
}

/// The leaves of a proof that replays to the root of a tree are leaves of it.
pub proof fn lemma_accepted_leaves_in_tree(
    level: Seq<KeccakHash>,
    members: Seq<PendingTransfer>,
    tree: TreeView,
    given: BridgePoolProof,
)
    requires
        level == leaf_set::ascending(tree.leaves),
        level.to_set() == sorting::hashes_of(members).to_set(),
        given.readable(),
        given.matches_root(merkle::merkle_root(level)),
        told_apart(hashed_for(members, tree, given)),
    ensures
        sorting::hashes_of(given.leaves@).to_set().subset_of(level.to_set()),
{
    let leaves = sorting::hashes_of(given.leaves@);
    let siblings = given.proof@;
    let flags = given.flags@;
    let hashed = hashed_for(members, tree, given);
    let last = multiproof::replayed(leaves, siblings, flags, flags.len());
    assert forall|i: int| 0 <= i < level.len() implies is_long_digest(#[trigger] level[i], hashed) by {
        assert(level.to_set().contains(level[i]));
        let hashes = sorting::hashes_of(members);
        assert(hashes.to_set().contains(level[i]));
        let j = choose|j: int| 0 <= j < hashes.len() && hashes[j] == level[i];
        let bytes = members[j]@.encoding();
        transfer::lemma_encoding_len(members[j]@);
        assert(is_encoding(members, bytes));
        assert(digest(bytes) == level[i]);
    }
    assert forall|j: nat| j < flags.len() implies hashed(
        #[trigger] flag_bytes(leaves, siblings, flags, j),
    ) by {
        assert(hashed_in_replay(given, flag_bytes(leaves, siblings, flags, j)));
    }
    assert(is_covered(level, hashed));
    multiproof::lemma_replayed_len(leaves, siblings, flags, flags.len());
    if leaves.len() > 0 && leaves.len() == multiproof::trues(flags, flags.len()) {
        lemma_unread_proof_is_refused(level, leaves, siblings, flags, hashed);
    } else if leaves.len() > 0 {
        lemma_queue_in_tree(level, leaves, siblings, flags, hashed, 0);
        assert forall|hash: KeccakHash| leaves.to_set().contains(hash) implies level.to_set().contains(
            hash,
        ) by {
            let k = choose|k: int| 0 <= k < leaves.len() && leaves[k] == hash;
            assert((leaves + last)[k] == hash);
            let bytes = given.leaves@[k]@.encoding();
            transfer::lemma_encoding_len(given.leaves@[k]@);
            assert(is_encoding(given.leaves@, bytes));
            assert(digest(bytes) == hash);
            lemma_long_node_is_leaf(level, bytes, hashed);
        }
    }
}

/// A proof with as many `true` flags as leaves does not replay to the root of
/// a tree.
proof fn lemma_unread_proof_is_refused(
    level: Seq<KeccakHash>,
    leaves: Seq<KeccakHash>,
    siblings: Seq<KeccakHash>,
    flags: Seq<bool>,
    hashed: spec_fn(Seq<u8>) -> bool,
)
    requires
        is_covered(level, hashed),
        forall|j: nat| j < flags.len() ==> hashed(#[trigger] flag_bytes(leaves, siblings, flags, j)),
        flags.len() > 0,
        leaves.len() == multiproof::trues(flags, flags.len()),
    ensures
        multiproof::replayed(leaves, siblings, flags, flags.len()).last() != merkle::merkle_root(
            level,
        ),
{
    let zero = keccak::zero_hash();
    let i = (flags.len() - 1) as nat;
    let before = multiproof::replayed(leaves, siblings, flags, i);
    multiproof::lemma_replayed_len(leaves, siblings, flags, i);
    let pair = multiproof::pair_read(leaves, siblings, flags, before, i);
    let bytes = flag_bytes(leaves, siblings, flags, i);
    assert(hashed(bytes));
    merkle::lemma_ordered_bytes_commute(pair.0, pair.1);
    if flags[i as int] {
        assert(pair.1 == zero);
        lemma_no_zero_at_the_top(level, pair.0, hashed);
    } else {
        assert(pair.0 == zero);
        merkle::law_hash_pair_commutes(pair.0, pair.1);
        lemma_no_zero_at_the_top(level, pair.1, hashed);
    }
}

/// The two sequences differ in entry `k`, and in no other from `from` on.
pub open spec fn changed_at(
    a: Seq<KeccakHash>,
    b: Seq<KeccakHash>,
    from: int,
    k: int,
) -> bool {
    &&& a.len() == b.len()
    &&& from <= k < a.len()
    &&& a[k] != b[k]
    &&& forall|j: int| from <= j < a.len() && j != k ==> #[trigger] a[j] == b[j]
}

/// The two sequences are the same from `from` on.
pub open spec fn same_from(a: Seq<KeccakHash>, b: Seq<KeccakHash>, from: int) -> bool {
    &&& a.len() == b.len()
    &&& forall|j: int| from <= j < a.len() ==> #[trigger] a[j] == b[j]
}

/// A single change to what two replays of the same flags have yet to read
/// carries through to their last hashes.
pub proof fn lemma_change_carries_through(
    leaves_a: Seq<KeccakHash>,
    siblings_a: Seq<KeccakHash>,
    leaves_b: Seq<KeccakHash>,
    siblings_b: Seq<KeccakHash>,
    flags: Seq<bool>,
    hashed: spec_fn(Seq<u8>) -> bool,
    i: nat,
    k: int,
)
    requires
        collision_free(hashed),
        forall|j: nat|
            j < flags.len() ==> hashed(#[trigger] flag_bytes(leaves_a, siblings_a, flags, j)),
        forall|j: nat|
            j < flags.len() ==> hashed(#[trigger] flag_bytes(leaves_b, siblings_b, flags, j)),
        leaves_a.len() == leaves_b.len() == multiproof::trues(flags, flags.len()) + 1,
        siblings_a.len() == siblings_b.len() == flags.len() - multiproof::trues(flags, flags.len()),
        i <= flags.len(),
        ({
            let queue_a = leaves_a + multiproof::replayed(leaves_a, siblings_a, flags, i);
            let queue_b = leaves_b + multiproof::replayed(leaves_b, siblings_b, flags, i);
            let read = (i + multiproof::trues(flags, i)) as int;
            let used = i - multiproof::trues(flags, i);
            ||| changed_at(queue_a, queue_b, read, k) && same_from(siblings_a, siblings_b, used)
            ||| same_from(queue_a, queue_b, read) && changed_at(siblings_a, siblings_b, used, k)
        }),
    ensures
        (leaves_a + multiproof::replayed(leaves_a, siblings_a, flags, flags.len())).last() != (
        leaves_b + multiproof::replayed(leaves_b, siblings_b, flags, flags.len())).last(),
    decreases flags.len() - i,
{
    let before_a = multiproof::replayed(leaves_a, siblings_a, flags, i);
    let before_b = multiproof::replayed(leaves_b, siblings_b, flags, i);
    let queue_a = leaves_a + before_a;
    let queue_b = leaves_b + before_b;
    let read = (i + multiproof::trues(flags, i)) as int;
    let used = i - multiproof::trues(flags, i);
    multiproof::lemma_replayed_len(leaves_a, siblings_a, flags, i);
    multiproof::lemma_replayed_len(leaves_b, siblings_b, flags, i);
    if i < flags.len() {
        let n = i + 1;
        multiproof::lemma_trues_bounds(flags, i, flags.len());
        multiproof::lemma_trues_bounds(flags, n, flags.len());
        let pair_a = multiproof::pair_read(leaves_a, siblings_a, flags, before_a, i);
        let pair_b = multiproof::pair_read(leaves_b, siblings_b, flags, before_b, i);
        let bytes_a = flag_bytes(leaves_a, siblings_a, flags, i);
        let bytes_b = flag_bytes(leaves_b, siblings_b, flags, i);
        let hash_a = digest(bytes_a);
        let hash_b = digest(bytes_b);
        let next_a = leaves_a + multiproof::replayed(leaves_a, siblings_a, flags, n);
        let next_b = leaves_b + multiproof::replayed(leaves_b, siblings_b, flags, n);
        assert(next_a =~= queue_a.push(hash_a));
        assert(next_b =~= queue_b.push(hash_b));
        assert(pair_a.0 == queue_a[read] && pair_b.0 == queue_b[read]);
        if flags[i as int] {
            assert(pair_a.1 == queue_a[read + 1] && pair_b.1 == queue_b[read + 1]);
        } else {
            assert(pair_a.1 == siblings_a[used] && pair_b.1 == siblings_b[used]);
        }
        if pair_a == pair_b {
            lemma_change_carries_through(
                leaves_a,
                siblings_a,
                leaves_b,
                siblings_b,
                flags,
                hashed,
                n,
                k,
            );
        } else {
            if bytes_a == bytes_b {
                lemma_same_bytes_same_pair(pair_a.0, pair_a.1, pair_b.0, pair_b.1);
            }
            assert(hashed(bytes_a) && hashed(bytes_b));
            assert(hash_a != hash_b);
            lemma_change_carries_through(
                leaves_a,
                siblings_a,
                leaves_b,
                siblings_b,
                flags,
                hashed,
                n,
                (leaves_a.len() + i) as int,
            );
        }
    }
}

} // verus!
