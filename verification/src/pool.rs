//! The storage subspace of the Ethereum bridge pool, and the Merkle tree over
//! the transfers in the pool.
use crate::hash;
use crate::hex;
use crate::keccak;
use crate::keccak::KeccakHash;
use crate::laws;
use crate::leaf_set;
use crate::leaf_set::LeafSet;
use crate::merkle;
use crate::multiproof;
use crate::multiproof::{check_proof, fits, multi_proof, Node};
use crate::sorting;
use crate::sorting::sort_by_hash;
use crate::storage::{Address, DbKeySeg, InternalAddress, Key};
use crate::storage::{AddressView, SegView};
use crate::transfer::PendingTransfer;
use vstd::prelude::*;

verus! {

/// The main address of the Ethereum bridge pool
pub open spec fn pool_address() -> AddressView {
    AddressView::Internal(InternalAddress::EthBridgePool)
}

/// The main address of the Ethereum bridge pool
pub fn bridge_pool_address() -> (address: Address)
    ensures
        address@ == pool_address(),
{
    Address::Internal(InternalAddress::EthBridgePool)
}

/// Sub-segment for getting the contents of the pool
pub const PENDING_TRANSFERS_SEG: &'static str = "pending_transfers";

/// Sub-segment for getting the latest signed root
pub const SIGNED_ROOT_SEG: &'static str = "signed_root";

/// The key under the address of the bridge pool with the given sub-segment.
pub open spec fn pool_key(seg: Seq<char>) -> Seq<SegView> {
    seq![SegView::AddressSeg(pool_address()), SegView::StringSeg(seg)]
}

/// Does the key start with the address of the bridge pool?
pub open spec fn in_pool_storage(key: Seq<SegView>) -> bool {
    key[0] == SegView::AddressSeg(pool_address())
}

/// Does the key start with the address of the bridge pool, without being the
/// key for the transfers in the pool?
pub open spec fn is_protected(key: Seq<SegView>) -> bool {
    in_pool_storage(key) && key != pool_key(PENDING_TRANSFERS_SEG@)
}

/// Get the storage key for the transfers in the pool
pub fn get_pending_key() -> (key: Key)
    ensures
        key@ == pool_key(PENDING_TRANSFERS_SEG@),
{
    let key = Key {
        segments: vec![
            DbKeySeg::AddressSeg(bridge_pool_address()),
            DbKeySeg::StringSeg(PENDING_TRANSFERS_SEG.to_string()),
        ],
    };
    assert(key@ =~= pool_key(PENDING_TRANSFERS_SEG@));
    key
}

/// Get the storage key for the root of the Merkle tree
/// containing the transfers in the pool
pub fn get_signed_root_key() -> (key: Key)
    ensures
        key@ == pool_key(SIGNED_ROOT_SEG@),
{
    let key = Key {
        segments: vec![
            DbKeySeg::AddressSeg(bridge_pool_address()),
            DbKeySeg::StringSeg(SIGNED_ROOT_SEG.to_string()),
        ],
    };
    assert(key@ =~= pool_key(SIGNED_ROOT_SEG@));
    key
}

/// Check if a key belongs to the bridge pools sub-storage
pub fn is_bridge_pool_key(key: &Key) -> (r: bool)
    requires
        key@.len() > 0,
    ensures
        r == in_pool_storage(key@),
        r == (key@[0] == SegView::AddressSeg(AddressView::Internal(InternalAddress::EthBridgePool))),
{
    match &key.segments[0] {
        DbKeySeg::AddressSeg(addr) => *addr == bridge_pool_address(),
        _ => false,
    }
}

/// Check if a key belongs to the bridge pool but is not
/// the key for the pending transaction pool. Such keys
/// may not be modified via transactions.
pub fn is_protected_storage(key: &Key) -> (r: bool)
    requires
        key@.len() > 0,
    ensures
        r == is_protected(key@),
        r ==> key@[0] == SegView::AddressSeg(AddressView::Internal(InternalAddress::EthBridgePool)),
{
    is_bridge_pool_key(key) && *key != get_pending_key()
}

/// Of the keys under the address of the bridge pool, all are protected but the
/// one for the transfers in the pool. The key for the signed root is protected.
pub proof fn law_pool_keys_are_protected(seg: Seq<char>)
    ensures
        in_pool_storage(pool_key(seg)),
        is_protected(pool_key(seg)) == (seg != PENDING_TRANSFERS_SEG@),
        is_protected(pool_key(SIGNED_ROOT_SEG@)),
{
    let pending = pool_key(PENDING_TRANSFERS_SEG@);
    assert(pool_key(seg) == pending ==> pool_key(seg)[1] == pending[1]);
    reveal_strlit("pending_transfers");
    reveal_strlit("signed_root");
    assert(SIGNED_ROOT_SEG@.len() != PENDING_TRANSFERS_SEG@.len());
    assert(pool_key(SIGNED_ROOT_SEG@)[1] != pending[1]);
}

/// What is wrong with a key that was given for a leaf of the tree.
#[derive(Clone, Copy, Debug, PartialEq, Eq, Structural)]
pub enum KeyError {
    /// It does not have exactly one segment
    SegmentCount,
    /// Its segment is not a text
    NotAString,
    /// Its segment is not the text of a hash
    NotAHash,
}

/// Generic error that may be returned by the validity predicate
#[derive(Clone, Copy, Debug, PartialEq, Eq, Structural)]
pub struct Error(pub KeyError);

impl Error {
    /// The message of the error.
    pub open spec fn message(self) -> Seq<char> {
        match self.0 {
            KeyError::SegmentCount => {
                "Key for the bridge pool should have exactly one segment."@
            },
            KeyError::NotAString => "Bridge pool keys should be strings."@,
            KeyError::NotAHash => "Could not parse key segment as a hash"@,
        }
    }

    /// The message of the error.
    pub fn to_string(&self) -> (text: String)
        ensures
            text@ == self.message(),
    {
        match self.0 {
            KeyError::SegmentCount => {
                "Key for the bridge pool should have exactly one segment.".to_string()
            },
            KeyError::NotAString => "Bridge pool keys should be strings.".to_string(),
            KeyError::NotAHash => "Could not parse key segment as a hash".to_string(),
        }
    }
}

/// The leaf hash that a key stands for: its only segment is the text of it.
pub open spec fn parsed_key(key: Seq<SegView>) -> Result<KeccakHash, Error> {
    if key.len() != 1 {
        Err(Error(KeyError::SegmentCount))
    } else {
        match key[0] {
            SegView::AddressSeg(_) => Err(Error(KeyError::NotAString)),
            SegView::StringSeg(text) => match hex::hash_of_text(text) {
                Some(hash) => Ok(hash),
                None => Err(Error(KeyError::NotAHash)),
            },
        }
    }
}

/// A simple Merkle tree for the Ethereum bridge pool
///
/// Note that an empty tree has the root [0u8; 32] by definition.
#[derive(Debug)]
pub struct BridgePoolTree {
    /// Root of the tree
    root: KeccakHash,
    /// The underlying storage, containing hashes of [`PendingTransfer`]s.
    leaves: LeafSet,
}

/// What a [`BridgePoolTree`] says.
pub struct TreeView {
    pub root: KeccakHash,
    pub leaves: Set<KeccakHash>,
}

/// The root of the tree with the given leaves, in ascending order.
pub open spec fn root_of(leaves: Set<KeccakHash>) -> KeccakHash {
    merkle::merkle_root(leaf_set::ascending(leaves))
}

impl TreeView {
    /// The tree without leaves.
    pub open spec fn empty() -> TreeView {
        TreeView { root: keccak::zero_hash(), leaves: Set::empty() }
    }

    /// Is the root that of the leaves?
    pub open spec fn consistent(self) -> bool {
        self.root == root_of(self.leaves)
    }

    /// The tree with one more leaf.
    pub open spec fn inserted(self, hash: KeccakHash) -> TreeView {
        let leaves = self.leaves.insert(hash);
        TreeView { root: root_of(leaves), leaves }
    }

    /// The tree without a leaf.
    pub open spec fn deleted(self, hash: KeccakHash) -> TreeView {
        let leaves = self.leaves.remove(hash);
        TreeView { root: root_of(leaves), leaves }
    }
}

impl View for BridgePoolTree {
    type V = TreeView;

    closed spec fn view(&self) -> TreeView {
        TreeView { root: self.root, leaves: self.leaves@ }
    }
}

/// A tree has finitely many leaves.
pub proof fn law_leaves_finite(tree: BridgePoolTree)
    ensures
        tree@.leaves.finite(),
{
    leaf_set::lemma_members_finite(tree.leaves);
}

impl Clone for BridgePoolTree {
    fn clone(&self) -> (tree: BridgePoolTree)
        ensures
            tree@ == self@,
    {
        BridgePoolTree { root: self.root, leaves: self.leaves.clone() }
    }
}

impl Default for BridgePoolTree {
    /// The tree without leaves.
    fn default() -> (tree: BridgePoolTree)
        ensures
            tree@ == TreeView::empty(),
    {
        BridgePoolTree { root: KeccakHash::default(), leaves: LeafSet::new() }
    }
}

/// `proof` is the membership proof that a tree gives for `values`.
///
/// It lists the values in the order of their hashes, and the flags and the
/// siblings of the tree of which the leaves with those hashes are marked. For
/// no values it has the root in place of the siblings.
pub open spec fn is_proof_for(
    tree: TreeView,
    values: Seq<PendingTransfer>,
    proof: BridgePoolProof,
) -> bool {
    let nodes = multiproof::marked(
        leaf_set::ascending(tree.leaves),
        sorting::hashes_of(values).to_set(),
    );
    &&& sorting::is_stable_sort(values, proof.leaves@)
    &&& proof.leaves@.len() == values.len()
    &&& proof.flags@ == multiproof::proof_flags(nodes)
    &&& proof.proof@ == if values.len() == 0 {
        seq![tree.root]
    } else {
        multiproof::proof_siblings(nodes)
    }
}

/// The values are leaves of the tree, each named once, and the root of the
/// tree is that of its leaves. For no values any root will do.
pub open spec fn is_provable(tree: TreeView, values: Seq<PendingTransfer>) -> bool {
    let hashes = sorting::hashes_of(values);
    &&& hashes.no_duplicates()
    &&& hashes.to_set().subset_of(tree.leaves)
    &&& values.len() > 0 ==> tree.consistent()
}

impl BridgePoolTree {
    /// Create a new merkle tree for the Ethereum bridge pool
    pub fn new(root: KeccakHash, store: LeafSet) -> (tree: BridgePoolTree)
        ensures
            tree@ == (TreeView { root, leaves: store@ }),
    {
        BridgePoolTree { root, leaves: store }
    }

    /// Parse the key to ensure it is of the correct type.
    ///
    /// If it is, it can be converted to a hash.
    /// Checks if the hash is in the tree.
    pub fn contains_key(&self, key: &Key) -> (r: Result<bool, Error>)
        ensures
            r == match parsed_key(key@) {
                Ok(hash) => Ok(self@.leaves.contains(hash)),
                Err(error) => Err::<bool, Error>(error),
            },
            key@.len() != 1 ==> r is Err,
    {
        match Self::parse_key(key) {
            Ok(hash) => Ok(self.leaves.contains(&hash)),
            Err(error) => Err(error),
        }
    }

    /// Update the tree with a new value.
    ///
    /// Returns the new root if successful. Will
    /// return an error if the key is malformed.
    pub fn insert_key(&mut self, key: &Key) -> (r: Result<hash::Hash, Error>)
        ensures
            match parsed_key(key@) {
                Ok(hash) => {
                    &&& final(self)@ == old(self)@.inserted(hash)
                    &&& r == Ok::<hash::Hash, Error>(hash::Hash(final(self)@.root.0))
                },
                Err(error) => {
                    &&& final(self)@ == old(self)@
                    &&& r == Err::<hash::Hash, Error>(error)
                },
            },
            key@.len() != 1 ==> r is Err && final(self)@ == old(self)@,
    {
        match Self::parse_key(key) {
            Ok(hash) => {
                self.leaves.insert(hash);
                self.root = self.compute_root();
                Ok(self.root())
            },
            Err(error) => Err(error),
        }
    }

    /// Delete a key from storage and update the root
    pub fn delete_key(&mut self, key: &Key) -> (r: Result<(), Error>)
        ensures
            match parsed_key(key@) {
                Ok(hash) => {
                    &&& final(self)@ == old(self)@.deleted(hash)
                    &&& r == Ok::<(), Error>(())
                },
                Err(error) => {
                    &&& final(self)@ == old(self)@
                    &&& r == Err::<(), Error>(error)
                },
            },
            key@.len() != 1 ==> r is Err && final(self)@ == old(self)@,
    {
        match Self::parse_key(key) {
            Ok(hash) => {
                self.leaves.remove(&hash);
                self.root = self.compute_root();
                Ok(())
            },
            Err(error) => Err(error),
        }
    }

    /// Compute the root of the merkle tree
    pub fn compute_root(&self) -> (root: KeccakHash)
        ensures
            root == root_of(self@.leaves),
    {
        merkle::compute_root(self.leaves.to_vec())
    }

    /// Return the root as a [`struct@Hash`] type.
    pub fn root(&self) -> (root: hash::Hash)
        ensures
            root == hash::Hash(self@.root.0),
    {
        hash::Hash::from(self.root)
    }

    /// Get a reference to the backing store
    pub fn store(&self) -> (store: &LeafSet)
        ensures
            store@ == self@.leaves,
    {
        &self.leaves
    }

    /// Create a batched membership proof for the provided keys
    pub fn get_membership_proof(&self, values: Vec<PendingTransfer>) -> (r: Result<
        BridgePoolProof,
        Error,
    >)
        ensures
            r is Ok,
            is_proof_for(self@, values@, r->Ok_0),
            r->Ok_0.readable(),
            is_provable(self@, values@) ==> r->Ok_0.matches_root(self@.root),
    {
        // sort the values according to their hash values
        let (sorted, hashes) = sort_by_hash(values);
        proof {
            sorting::lemma_sort_keeps_hashes(values@, sorted@);
        }

        // mark the leaves that are to be proved
        let chosen = LeafSet::from_hashes(&hashes);
        let nodes = mark(&self.leaves, &chosen);

        let (mut proof, flags) = multi_proof(nodes);
        proof {
            if sorted@.len() == 0 {
                multiproof::lemma_unmarked(nodes@);
            }
        }
        // add the root to the proof
        if flags.is_empty() && proof.is_empty() && sorted.is_empty() {
            proof.push(self.root);
        }
        let given = BridgePoolProof { proof, leaves: sorted, flags };
        proof {
            law_leaves_finite(*self);
            laws::law_made_proof_is_readable(self@, values@, given);
            if is_provable(self@, values@) {
                laws::law_membership_proof_verifies(self@, values@, given);
            }
        }
        Ok(given)
    }

    /// Parse a db key to see if it is valid for the
    /// bridge pool.
    ///
    /// It should have one string segment which should
    /// parse into a [Hash]
    pub fn parse_key(key: &Key) -> (r: Result<KeccakHash, Error>)
        ensures
            r == parsed_key(key@),
            key@.len() != 1 ==> r == Err::<KeccakHash, Error>(Error(KeyError::SegmentCount)),
    {
        if key.segments.len() == 1 {
            match &key.segments[0] {
                DbKeySeg::StringSeg(text) => match KeccakHash::from_hex(text.as_str()) {
                    Some(hash) => Ok(hash),
                    None => Err(Error(KeyError::NotAHash)),
                },
                _ => Err(Error(KeyError::NotAString)),
            }
        } else {
            Err(Error(KeyError::SegmentCount))
        }
    }
}

/// The leaves of a tree as nodes, of which the chosen ones are on a path.
fn mark(leaves: &LeafSet, chosen: &LeafSet) -> (nodes: Vec<Node>)
    ensures
        nodes@ == multiproof::marked(leaf_set::ascending(leaves@), chosen@),
{
    let hashes = leaves.as_slice();
    let mut nodes: Vec<Node> = Vec::new();
    let mut i: usize = 0;
    while i < hashes.len()
        invariant
            i <= hashes@.len(),
            nodes@ == multiproof::marked(hashes@, chosen@).take(i as int),
        decreases hashes@.len() - i,
    {
        let hash = hashes[i];
        if chosen.contains(&hash) {
            nodes.push(Node::OnPath(hash));
        } else {
            nodes.push(Node::OffPath(hash));
        }
        i += 1;
    }
    assert(nodes@ =~= multiproof::marked(hashes@, chosen@));
    nodes
}

/// A multi-leaf membership proof
pub struct BridgePoolProof {
    /// The hashes other than the provided leaves
    pub proof: Vec<KeccakHash>,
    /// The leaves; must be sorted
    pub leaves: Vec<PendingTransfer>,
    /// Flags are used to indicate which consecutive
    /// pairs of leaves in `leaves` are siblings.
    pub flags: Vec<bool>,
}

impl BridgePoolProof {
    /// The flags call for no more hashes than a proof of these lengths has. A
    /// proof whose lengths do not match is rejected before the flags are read.
    pub open spec fn readable(self) -> bool {
        multiproof::lengths_match(
            self.leaves@.len(),
            self.proof@.len(),
            self.flags@.len(),
        ) ==> multiproof::flags_fit(self.leaves@.len(), self.flags@)
    }

    /// Does the proof match the root?
    pub open spec fn matches_root(self, root: KeccakHash) -> bool {
        multiproof::accepts(sorting::hashes_of(self.leaves@), self.proof@, self.flags@, root)
    }

    /// Check whether the flags call for no more hashes than the proof has
    pub fn is_readable(&self) -> (r: bool)
        ensures
            r == self.readable(),
    {
        fits(self.leaves.len(), self.proof.len(), &self.flags)
    }

    /// Verify a membership proof matches the provided root
    pub fn verify(&self, root: KeccakHash) -> (r: bool)
        requires
            self.readable(),
        ensures
            r == self.matches_root(root),
            r ==> self.proof@.len() + self.leaves@.len() == self.flags@.len() + 1,
    {
        let mut hashes: Vec<KeccakHash> = Vec::new();
        let mut i: usize = 0;
        while i < self.leaves.len()
            invariant
                i <= self.leaves@.len(),
                hashes@ == sorting::hashes_of(self.leaves@).take(i as int),
            decreases self.leaves@.len() - i,
        {
            hashes.push(self.leaves[i].keccak256());
            i += 1;
        }
        assert(hashes@ =~= sorting::hashes_of(self.leaves@));
        check_proof(&hashes, &self.proof, &self.flags, root)
    }
}

} // verus!
