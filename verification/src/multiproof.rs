//! Batched membership proofs: how one is made from a tree whose leaves are
//! marked, and how one is checked against a root.
use crate::keccak;
use crate::keccak::KeccakHash;
use crate::merkle;
use crate::merkle::hash_pair;
use vstd::prelude::*;

verus! {

/// Keeps track if a node is on a path from the root of the Merkle tree to one
/// of the leaves being included in a multi-proof.
#[derive(Clone, Copy, Debug)]
pub enum Node {
    /// Node is on a path from root to leaf in proof
    OnPath(KeccakHash),
    /// Node is not on a path from root to leaf in proof
    OffPath(KeccakHash),
}

impl Default for Node {
    /// The node that fills up a level of odd length.
    fn default() -> (node: Node)
        ensures
            node == Node::OffPath(keccak::zero_hash()),
    {
        Node::OffPath(KeccakHash::default())
    }
}

impl Node {
    /// Is the node on a path from the root to a leaf in the proof?
    pub open spec fn on(self) -> bool {
        self is OnPath
    }

    /// The hash of the node.
    pub open spec fn hash(self) -> KeccakHash {
        match self {
            Node::OnPath(hash) => hash,
            Node::OffPath(hash) => hash,
        }
    }

    /// A node with this hash, on a path or not.
    pub open spec fn new(on: bool, hash: KeccakHash) -> Node {
        if on {
            Node::OnPath(hash)
        } else {
            Node::OffPath(hash)
        }
    }
}

/// The node at position `i` of a level, the filling node beyond its end.
pub open spec fn node_at(nodes: Seq<Node>, i: int) -> Node {
    if i < nodes.len() {
        nodes[i]
    } else {
        Node::OffPath(keccak::zero_hash())
    }
}

/// The left node of pair `k`.
pub open spec fn left_of(nodes: Seq<Node>, k: int) -> Node {
    node_at(nodes, 2 * k)
}

/// The right node of pair `k`.
pub open spec fn right_of(nodes: Seq<Node>, k: int) -> Node {
    node_at(nodes, 2 * k + 1)
}

/// The leaves of a tree, of which the chosen ones are on a path.
pub open spec fn marked(leaves: Seq<KeccakHash>, chosen: Set<KeccakHash>) -> Seq<Node> {
    Seq::new(leaves.len(), |i: int| Node::new(chosen.contains(leaves[i]), leaves[i]))
}

/// The level of nodes above `nodes`: a node is on a path if one of the two
/// below it is.
pub open spec fn parent_nodes(nodes: Seq<Node>) -> Seq<Node> {
    Seq::new(
        merkle::pairs(nodes.len()),
        |k: int|
            Node::new(
                left_of(nodes, k).on() || right_of(nodes, k).on(),
                merkle::spec_hash_pair(left_of(nodes, k).hash(), right_of(nodes, k).hash()),
            ),
    )
}

/// The flags of the first `k` pairs of a level. A pair with a node on a path
/// has a flag, which says whether both its nodes are on one.
pub open spec fn level_flags(nodes: Seq<Node>, k: nat) -> Seq<bool>
    decreases k,
{
    if k == 0 {
        seq![]
    } else {
        let left = left_of(nodes, k - 1).on();
        let right = right_of(nodes, k - 1).on();
        let before = level_flags(nodes, (k - 1) as nat);
        if left || right {
            before.push(left && right)
        } else {
            before
        }
    }
}

/// The siblings of the first `k` pairs of a level. A pair of which only one
/// node is on a path has a sibling, the hash of the other.
pub open spec fn level_siblings(nodes: Seq<Node>, k: nat) -> Seq<KeccakHash>
    decreases k,
{
    if k == 0 {
        seq![]
    } else {
        let left = left_of(nodes, k - 1);
        let right = right_of(nodes, k - 1);
        let before = level_siblings(nodes, (k - 1) as nat);
        if left.on() && !right.on() {
            before.push(right.hash())
        } else if !left.on() && right.on() {
            before.push(left.hash())
        } else {
            before
        }
    }
}

/// The flags of the levels from `nodes` up to the root.
pub open spec fn proof_flags(nodes: Seq<Node>) -> Seq<bool>
    decreases nodes.len(),
{
    if nodes.len() <= 1 {
        seq![]
    } else {
        level_flags(nodes, merkle::pairs(nodes.len())) + proof_flags(parent_nodes(nodes))
    }
}

/// The siblings of the levels from `nodes` up to the root.
pub open spec fn proof_siblings(nodes: Seq<Node>) -> Seq<KeccakHash>
    decreases nodes.len(),
{
    if nodes.len() <= 1 {
        seq![]
    } else {
        level_siblings(nodes, merkle::pairs(nodes.len())) + proof_siblings(parent_nodes(nodes))
    }
}

/// Where no node is on a path there are no flags and no siblings.
pub proof fn lemma_unmarked(nodes: Seq<Node>)
    requires
        forall|i: int| 0 <= i < nodes.len() ==> !nodes[i].on(),
    ensures
        proof_flags(nodes) == Seq::<bool>::empty(),
        proof_siblings(nodes) == Seq::<KeccakHash>::empty(),
    decreases nodes.len(),
{
    if nodes.len() > 1 {
        lemma_unmarked_level(nodes, merkle::pairs(nodes.len()));
        lemma_unmarked(parent_nodes(nodes));
    }
}

proof fn lemma_unmarked_level(nodes: Seq<Node>, k: nat)
    requires
        forall|i: int| 0 <= i < nodes.len() ==> !nodes[i].on(),
    ensures
        level_flags(nodes, k) == Seq::<bool>::empty(),
        level_siblings(nodes, k) == Seq::<KeccakHash>::empty(),
    decreases k,
{
    if k > 0 {
        lemma_unmarked_level(nodes, (k - 1) as nat);
    }
}

/// Walk the tree above the given nodes, and collect the siblings and the flags
/// of a multi-proof.
pub fn multi_proof(nodes: Vec<Node>) -> (r: (Vec<KeccakHash>, Vec<bool>))
    ensures
        r.0@ == proof_siblings(nodes@),
        r.1@ == proof_flags(nodes@),
{
    let mut proof_hashes: Vec<KeccakHash> = Vec::new();
    let mut flags: Vec<bool> = Vec::new();
    let mut level = nodes;
    while level.len() > 1
        invariant
            proof_siblings(nodes@) == proof_hashes@ + proof_siblings(level@),
            proof_flags(nodes@) == flags@ + proof_flags(level@),
        decreases level.len(),
    {
        let ghost siblings_below = proof_hashes@;
        let ghost flags_below = flags@;
        let mut next_level: Vec<Node> = Vec::new();
        let len = level.len();
        let count: usize = len / 2 + len % 2;
        let mut k: usize = 0;
        while k < count
            invariant
                k <= count,
                len == level.len(),
                count == merkle::pairs(level@.len()),
                next_level@ == parent_nodes(level@).take(k as int),
                proof_hashes@ == siblings_below + level_siblings(level@, k as nat),
                flags@ == flags_below + level_flags(level@, k as nat),
            decreases count - k,
        {
            let left = level[2 * k];
            let right = if 2 * k + 1 < len {
                level[2 * k + 1]
            } else {
                Node::default()
            };
            match (left, right) {
                (Node::OnPath(left), Node::OnPath(right)) => {
                    flags.push(true);
                    next_level.push(Node::OnPath(hash_pair(left, right)));
                },
                (Node::OnPath(hash), Node::OffPath(sib)) => {
                    flags.push(false);
                    proof_hashes.push(sib);
                    next_level.push(Node::OnPath(hash_pair(hash, sib)));
                },
                (Node::OffPath(sib), Node::OnPath(hash)) => {
                    proof {
                        merkle::law_hash_pair_commutes(hash, sib);
                    }
                    flags.push(false);
                    proof_hashes.push(sib);
                    next_level.push(Node::OnPath(hash_pair(hash, sib)));
                },
                (Node::OffPath(left), Node::OffPath(right)) => {
                    next_level.push(Node::OffPath(hash_pair(left, right)));
                },
            }
            k += 1;
        }
        assert(next_level@ =~= parent_nodes(level@));
        level = next_level;
    }
    (proof_hashes, flags)
}

/// The number of `true` among the first `n` flags.
pub open spec fn trues(flags: Seq<bool>, n: nat) -> nat
    decreases n,
{
    if n == 0 {
        0
    } else {
        trues(flags, (n - 1) as nat) + if flags[n - 1] { 1nat } else { 0nat }
    }
}

/// Entry `k` of the queue of nodes that a replay reads from: the leaves, and
/// behind them the hashes computed so far. Beyond the end it reads as zero.
pub open spec fn queue_at(leaves: Seq<KeccakHash>, computed: Seq<KeccakHash>, k: int) -> KeccakHash {
    merkle::hash_at(leaves + computed, k)
}

/// The two hashes that flag `i` combines, given the hashes computed so far.
///
/// Each flag combines the next entry of the queue with the one after it if the
/// flag is `true`, with the next sibling otherwise. So before flag `i`, as
/// many entries of the queue have been read as there are flags before it and
/// `true` flags among them, and as many siblings as `false` flags.
pub open spec fn pair_read(
    leaves: Seq<KeccakHash>,
    siblings: Seq<KeccakHash>,
    flags: Seq<bool>,
    computed: Seq<KeccakHash>,
    i: nat,
) -> (KeccakHash, KeccakHash) {
    let next = (i + trues(flags, i)) as int;
    let left = queue_at(leaves, computed, next);
    let right = if flags[i as int] {
        queue_at(leaves, computed, next + 1)
    } else {
        siblings[i - trues(flags, i)]
    };
    (left, right)
}

/// The hashes that a replay of the first `n` flags computes.
pub open spec fn replayed(
    leaves: Seq<KeccakHash>,
    siblings: Seq<KeccakHash>,
    flags: Seq<bool>,
    n: nat,
) -> Seq<KeccakHash>
    decreases n,
{
    if n == 0 {
        seq![]
    } else {
        let i = (n - 1) as nat;
        let before = replayed(leaves, siblings, flags, i);
        let pair = pair_read(leaves, siblings, flags, before, i);
        before.push(merkle::spec_hash_pair(pair.0, pair.1))
    }
}

/// One hash more than flags has to be given, counting leaves and siblings.
pub open spec fn lengths_match(leaves: nat, siblings: nat, flags: nat) -> bool {
    siblings + leaves == flags + 1
}

/// The flags call for no more nodes and no more siblings than a replay can
/// give them: their `true` flags are as many as the leaves, or one fewer.
///
/// With one fewer, each leaf and each sibling is read once and ends up under
/// the last hash. With as many, the last pair holds a zero in place of a hash
/// that is yet to be computed, and some of what is given may not end up under
/// the last hash: then a match with a root does not by itself show membership.
pub open spec fn flags_fit(leaves: nat, flags: Seq<bool>) -> bool {
    trues(flags, flags.len()) <= leaves <= trues(flags, flags.len()) + 1
}

/// Do the lengths match, and does the proof replay to the root? Without flags
/// the only hash given has to be the root itself.
pub open spec fn accepts(
    leaves: Seq<KeccakHash>,
    siblings: Seq<KeccakHash>,
    flags: Seq<bool>,
    root: KeccakHash,
) -> bool {
    &&& lengths_match(leaves.len(), siblings.len(), flags.len())
    &&& root == if flags.len() > 0 {
        replayed(leaves, siblings, flags, flags.len()).last()
    } else if leaves.len() > 0 {
        leaves[0]
    } else {
        siblings[0]
    }
}

/// `trues` counts no more than the flags it looks at, and both counts, of
/// `true` and of `false` flags, grow with their number.
pub proof fn lemma_trues_bounds(flags: Seq<bool>, m: nat, n: nat)
    requires
        m <= n,
    ensures
        trues(flags, m) <= m,
        trues(flags, m) <= trues(flags, n),
        m - trues(flags, m) <= n - trues(flags, n),
    decreases n,
{
    if m < n {
        lemma_trues_bounds(flags, m, (n - 1) as nat);
    } else if m > 0 {
        lemma_trues_bounds(flags, (m - 1) as nat, (n - 1) as nat);
    }
}

/// Each flag computes one hash.
pub proof fn lemma_replayed_len(
    leaves: Seq<KeccakHash>,
    siblings: Seq<KeccakHash>,
    flags: Seq<bool>,
    n: nat,
)
    ensures
        replayed(leaves, siblings, flags, n).len() == n,
    decreases n,
{
    if n > 0 {
        lemma_replayed_len(leaves, siblings, flags, (n - 1) as nat);
    }
}

/// Check whether the flags fit a proof with the given numbers of leaves and
/// siblings, or the lengths do not match in the first place.
pub fn fits(leaves: usize, siblings: usize, flags: &Vec<bool>) -> (r: bool)
    ensures
        r == (lengths_match(leaves as nat, siblings as nat, flags@.len()) ==> flags_fit(
            leaves as nat,
            flags@,
        )),
{
    if siblings as u128 + leaves as u128 != flags.len() as u128 + 1 {
        return true;
    }
    let mut count: usize = 0;
    let mut i: usize = 0;
    while i < flags.len()
        invariant
            i <= flags@.len(),
            count <= i,
            count == trues(flags@, i as nat),
        decreases flags@.len() - i,
    {
        if flags[i] {
            count += 1;
        }
        i += 1;
    }
    count <= leaves && leaves - count <= 1
}

/// Replay all flags of a proof, and give back the last hash.
fn replay(
    leaves: &Vec<KeccakHash>,
    siblings: &Vec<KeccakHash>,
    flags: &Vec<bool>,
) -> (last: KeccakHash)
    requires
        flags@.len() > 0,
        lengths_match(leaves@.len(), siblings@.len(), flags@.len()),
        flags_fit(leaves@.len(), flags@),
    ensures
        last == replayed(leaves@, siblings@, flags@, flags@.len()).last(),
{
    let total_hashes = flags.len();
    let leaf_len = leaves.len();
    let mut hashes: Vec<KeccakHash> = vec![KeccakHash::default(); total_hashes];
    let mut hash_pos: usize = 0;
    let mut leaf_pos: usize = 0;
    let mut sibling_pos: usize = 0;
    let mut i: usize = 0;
    while i < total_hashes
        invariant
            i <= total_hashes == flags@.len(),
            leaf_len == leaves@.len(),
            lengths_match(leaves@.len(), siblings@.len(), flags@.len()),
            flags_fit(leaves@.len(), flags@),
            hashes@.len() == total_hashes,
            leaf_pos <= leaf_len,
            hash_pos > 0 ==> leaf_pos == leaf_len,
            leaf_pos + hash_pos == i + trues(flags@, i as nat),
            sibling_pos == i - trues(flags@, i as nat),
            hashes@.take(i as int) == replayed(leaves@, siblings@, flags@, i as nat),
            forall|j: int| i <= j < total_hashes ==> hashes@[j] == keccak::zero_hash(),
        decreases total_hashes - i,
    {
        proof {
            lemma_trues_bounds(flags@, i as nat, flags@.len());
            lemma_trues_bounds(flags@, (i + 1) as nat, flags@.len());
        }
        let left = if leaf_pos < leaf_len {
            leaf_pos += 1;
            leaves[leaf_pos - 1]
        } else {
            hash_pos += 1;
            hashes[hash_pos - 1]
        };
        let right = if flags[i] {
            if leaf_pos < leaf_len {
                leaf_pos += 1;
                leaves[leaf_pos - 1]
            } else {
                hash_pos += 1;
                hashes[hash_pos - 1]
            }
        } else {
            sibling_pos += 1;
            siblings[sibling_pos - 1]
        };
        let ghost before = hashes@;
        hashes[i] = hash_pair(left, right);
        i += 1;
        assert(hashes@.take(i as int) =~= before.take(i - 1).push(hashes@[i - 1]));
    }
    assert(hashes@.take(total_hashes as int) =~= hashes@);
    hashes[total_hashes - 1]
}

/// Check that a proof with leaves of the given hashes replays to the root.
pub fn check_proof(
    leaves: &Vec<KeccakHash>,
    siblings: &Vec<KeccakHash>,
    flags: &Vec<bool>,
    root: KeccakHash,
) -> (r: bool)
    requires
        lengths_match(leaves@.len(), siblings@.len(), flags@.len()) ==> flags_fit(
            leaves@.len(),
            flags@,
        ),
    ensures
        r == accepts(leaves@, siblings@, flags@, root),
        r ==> siblings@.len() + leaves@.len() == flags@.len() + 1,
{
    if siblings.len() as u128 + leaves.len() as u128 != flags.len() as u128 + 1 {
        return false;
    }
    if flags.is_empty() {
        return if leaves.len() > 0 {
            root == leaves[0]
        } else {
            root == siblings[0]
        };
    }
    replay(leaves, siblings, flags) == root
}

} // verus!
