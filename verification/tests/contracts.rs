//! Single values: formulas, errors and the order of things.
use bridge_pool::hash::Hash as LedgerHash;
use bridge_pool::keccak::{keccak_hash, KeccakHash};
use bridge_pool::leaf_set::{lower_bound, LeafSet};
use bridge_pool::merkle::{compute_root, hash_pair, ordered_concat};
use bridge_pool::multiproof::{check_proof, fits, multi_proof, Node};
use bridge_pool::pool::{
    bridge_pool_address, get_pending_key, get_signed_root_key, is_bridge_pool_key,
    is_protected_storage, BridgePoolProof, BridgePoolTree, Error, KeyError,
};
use bridge_pool::sorting::sort_by_hash;
use bridge_pool::storage::{Address, DbKeySeg, InternalAddress, Key};
use bridge_pool::transfer::{Amount, EthAddress, GasFee, PendingTransfer, TransferToEthereum, Uint};

const BERTHA: &str =
    "atest1v4ehgw36xvcyyvejgvenxs34g3zygv3jxqunjd6rxyeyys3sxy6rwvfkx4qnj33hg9qnvse4lsfctw";

fn hash(text: &str) -> KeccakHash {
    KeccakHash::from_hex(text).expect("a hash")
}

fn filled(byte: u8) -> KeccakHash {
    KeccakHash([byte; 32])
}

fn transfer(i: u8) -> PendingTransfer {
    PendingTransfer {
        transfer: TransferToEthereum {
            asset: EthAddress([i; 20]),
            recipient: EthAddress([i + 1; 20]),
            amount: Amount::from(i as u64),
            nonce: Uint::from(42),
        },
        gas_fee: GasFee {
            amount: Amount::default(),
            payer: Address::Established(BERTHA.to_string()),
        },
    }
}

fn text_key(text: &str) -> Key {
    Key {
        segments: vec![DbKeySeg::StringSeg(text.to_string())],
    }
}

#[test]
fn keccak_of_known_texts() {
    assert_eq!(
        keccak_hash(b""),
        hash("c5d2460186f7233c927e7db2dcc703c0e500b653ca82273b7bfad8045d85a470")
    );
    assert_eq!(
        keccak_hash(b"hello"),
        hash("1c8aff950685c2ed4bc3174f3472287b56d9517b9c948127319a09a7a36deac8")
    );
}

#[test]
fn hash_text_round_trip() {
    let text = "00019FA0C5D2460186F7233C927E7DB2DCC703C0E500B653CA82273B7BFAD8FF";
    let read = hash(text);
    assert_eq!(read.to_string(), text);
    assert_eq!(KeccakHash::from_hex(&text.to_lowercase()), Some(read));
    assert_eq!(read.0[..4], [0x00, 0x01, 0x9f, 0xa0]);
    assert_eq!(read.0[31], 0xff);
}

#[test]
fn texts_that_are_no_hash() {
    let digits = "0".repeat(64);
    assert!(KeccakHash::from_hex(&digits).is_some());
    assert!(KeccakHash::from_hex("").is_none());
    assert!(KeccakHash::from_hex(&digits[1..]).is_none());
    assert!(KeccakHash::from_hex(&format!("{}0", digits)).is_none());
    assert!(KeccakHash::from_hex(&digits.replacen('0', "g", 1)).is_none());
    assert!(KeccakHash::from_hex(&format!("0x{}", &digits[2..])).is_none());
    assert!(KeccakHash::from_hex(&format!("{}\u{e9}", &digits[1..])).is_none());
}

#[test]
fn order_of_hashes_is_that_of_their_bytes() {
    let mut low = filled(7);
    let mut high = filled(7);
    low.0[31] = 1;
    high.0[30] = 8;
    assert!(low.less_than(&high));
    assert!(!high.less_than(&low));
    assert!(!low.less_than(&low));
    assert!(low < high);
    assert!(low != high);
    assert_eq!(low, low);
    assert_eq!(KeccakHash::default(), filled(0));
}

#[test]
fn ledger_hash_round_trip() {
    let ledger = LedgerHash::from(filled(9));
    assert_eq!(ledger.0, [9; 32]);
    assert_eq!(KeccakHash::from(ledger), filled(9));
}

#[test]
fn pairs_are_hashed_in_order() {
    let expected = [[1u8; 32], [2u8; 32]].concat();
    assert_eq!(ordered_concat(filled(1), filled(2)), expected);
    assert_eq!(ordered_concat(filled(2), filled(1)), expected);
    assert_eq!(hash_pair(filled(1), filled(2)), hash_pair(filled(2), filled(1)));
    assert_eq!(
        hash_pair(filled(0), filled(0)),
        hash("ad3228b676f7d3cd4284a5443f17f1962b36e491b30a40b2405849e597ba5fb5")
    );
}

#[test]
fn roots_of_small_levels() {
    assert_eq!(compute_root(vec![]), filled(0));
    assert_eq!(compute_root(vec![filled(5)]), filled(5));
    let left = hash_pair(filled(1), filled(2));
    let right = hash_pair(filled(3), filled(0));
    assert_eq!(
        compute_root(vec![filled(1), filled(2), filled(3)]),
        hash_pair(left, right)
    );
}

#[test]
fn transfer_encoding() {
    let mut expected = vec![0u8; 12];
    expected.extend([1u8; 20]);
    expected.extend([0u8; 32]);
    expected.extend([0u8; 12]);
    expected.extend([2u8; 20]);
    for word in [1u8, 0xc0, 42, BERTHA.len() as u8] {
        expected.extend([0u8; 31]);
        expected.push(word);
    }
    expected.extend(BERTHA.as_bytes());
    expected.extend([0u8; 12]);
    assert_eq!(transfer(1).encode(), expected);
    assert_eq!(
        transfer(1).keccak256(),
        hash("4c82c0d4fc4adbc514e1b434de1ebefe69aa6ddb1a436069a602197aa48e6561")
    );
}

#[test]
fn integers_are_encoded_with_the_highest_byte_first() {
    let mut value = transfer(1);
    value.transfer.amount = Amount::from(0x0102_0304_0506_0708);
    value.transfer.nonce = Uint([4, 3, 2, 0x0900_0000_0000_0001]);
    let bytes = value.encode();
    assert_eq!(bytes[120..128], [1, 2, 3, 4, 5, 6, 7, 8]);
    assert_eq!(bytes[160..168], [9, 0, 0, 0, 0, 0, 0, 1]);
    assert_eq!(bytes[175], 2);
    assert_eq!(bytes[183], 3);
    assert_eq!(bytes[191], 4);
}

#[test]
fn a_text_of_full_words_is_not_padded() {
    let mut value = transfer(1);
    value.gas_fee.payer = Address::Implicit("a".repeat(64));
    assert_eq!(value.encode().len(), 192 + 32 + 64);
    value.gas_fee.payer = Address::Implicit("a".repeat(65));
    assert_eq!(value.encode().len(), 192 + 32 + 96);
    value.gas_fee.payer = Address::Implicit(String::new());
    assert_eq!(value.encode().len(), 192 + 32);
}

#[test]
fn internal_payers_have_texts_of_their_own() {
    let bridge = Address::Internal(InternalAddress::EthBridge).to_string();
    let pool = Address::Internal(InternalAddress::EthBridgePool).to_string();
    assert_eq!(bridge, "ano::ETH Bridge Address");
    assert_eq!(pool, "ano::ETH Bridge Pool Address");
}

#[test]
fn root_of_three_transfers() {
    let mut tree = BridgePoolTree::default();
    for i in [2, 0, 1] {
        let _ = tree.insert_key(&Key::from(&transfer(i))).expect("a valid key");
    }
    assert_eq!(
        KeccakHash::from(tree.root()),
        hash("e4557169b95c7e640cc06c30bee40d6579606a3b11e93ae31cf29e0aec44649a")
    );
    assert_eq!(tree.compute_root(), tree.root().into());
}

#[test]
fn keys_of_the_pool() {
    let pending = get_pending_key();
    let signed = get_signed_root_key();
    assert_eq!(pending.segments.len(), 2);
    assert!(pending.segments[0] == DbKeySeg::AddressSeg(bridge_pool_address()));
    assert!(pending.segments[1] == DbKeySeg::StringSeg("pending_transfers".to_string()));
    assert!(signed.segments[1] == DbKeySeg::StringSeg("signed_root".to_string()));
    assert!(is_bridge_pool_key(&pending));
    assert!(is_bridge_pool_key(&signed));
    assert!(!is_protected_storage(&pending));
    assert!(is_protected_storage(&signed));
    assert!(pending == pending.clone());
    assert!(pending != signed);
}

#[test]
fn keys_outside_the_pool() {
    for address in [
        Address::Internal(InternalAddress::EthBridge),
        Address::Established(BERTHA.to_string()),
    ] {
        let key = Key {
            segments: vec![DbKeySeg::AddressSeg(address)],
        };
        assert!(!is_bridge_pool_key(&key));
        assert!(!is_protected_storage(&key));
    }
    assert!(!is_bridge_pool_key(&text_key("pending_transfers")));
    let longer = Key {
        segments: vec![
            DbKeySeg::AddressSeg(bridge_pool_address()),
            DbKeySeg::StringSeg("pending_transfers".to_string()),
            DbKeySeg::StringSeg("more".to_string()),
        ],
    };
    assert!(is_protected_storage(&longer));
}

#[test]
fn malformed_keys_leave_the_tree_alone() {
    let cases = [
        (Key { segments: vec![] }, KeyError::SegmentCount),
        (get_pending_key(), KeyError::SegmentCount),
        (
            Key {
                segments: vec![DbKeySeg::AddressSeg(bridge_pool_address())],
            },
            KeyError::NotAString,
        ),
        (text_key("bloop"), KeyError::NotAHash),
    ];
    let mut tree = BridgePoolTree::default();
    let _ = tree.insert_key(&Key::from(&transfer(0))).expect("a valid key");
    let root = tree.root();
    for (key, reason) in cases {
        assert_eq!(BridgePoolTree::parse_key(&key), Err(Error(reason)));
        assert_eq!(tree.contains_key(&key), Err(Error(reason)));
        assert_eq!(tree.insert_key(&key), Err(Error(reason)));
        assert_eq!(tree.delete_key(&key), Err(Error(reason)));
        assert_eq!(tree.root(), root);
        assert_eq!(tree.store().as_slice().len(), 1);
    }
}

#[test]
fn messages_of_errors() {
    assert_eq!(
        Error(KeyError::SegmentCount).to_string(),
        "Key for the bridge pool should have exactly one segment."
    );
    assert_eq!(
        Error(KeyError::NotAString).to_string(),
        "Bridge pool keys should be strings."
    );
    assert_eq!(
        Error(KeyError::NotAHash).to_string(),
        "Could not parse key segment as a hash"
    );
}

#[test]
fn leaf_set_keeps_its_members_in_order() {
    let mut set = LeafSet::new();
    for byte in [5, 1, 9, 1, 3] {
        let new = !set.contains(&filled(byte));
        assert_eq!(set.insert(filled(byte)), new);
    }
    assert_eq!(set.as_slice(), [filled(1), filled(3), filled(5), filled(9)]);
    assert!(set.remove(&filled(3)));
    assert!(!set.remove(&filled(3)));
    assert!(!set.contains(&filled(3)));
    assert_eq!(set.to_vec(), vec![filled(1), filled(5), filled(9)]);
    let copy = set.clone();
    assert_eq!(copy.as_slice(), set.as_slice());
    let same = LeafSet::from_hashes(&vec![filled(9), filled(1), filled(5), filled(9)]);
    assert_eq!(same.as_slice(), set.as_slice());
    assert!(LeafSet::default().as_slice().is_empty());
}

#[test]
fn lower_bound_comes_before_equal_hashes() {
    let hashes = vec![filled(1), filled(3), filled(3), filled(5)];
    assert_eq!(lower_bound(&hashes, &filled(0)), 0);
    assert_eq!(lower_bound(&hashes, &filled(3)), 1);
    assert_eq!(lower_bound(&hashes, &filled(4)), 3);
    assert_eq!(lower_bound(&hashes, &filled(6)), 4);
}

#[test]
fn a_new_tree_holds_what_it_is_given() {
    let store = LeafSet::from_hashes(&vec![filled(2), filled(1)]);
    let tree = BridgePoolTree::new(filled(7), store);
    assert_eq!(tree.root().0, [7; 32]);
    assert_eq!(tree.store().as_slice(), [filled(1), filled(2)]);
    assert_eq!(tree.compute_root(), hash_pair(filled(1), filled(2)));
    let copy = tree.clone();
    assert_eq!(copy.root(), tree.root());
    assert_eq!(copy.store().as_slice(), tree.store().as_slice());
}

#[test]
fn insertions_and_deletions_undo_each_other() {
    let mut tree = BridgePoolTree::default();
    let mut roots = vec![tree.root()];
    for i in 0..6 {
        roots.push(tree.insert_key(&Key::from(&transfer(i))).expect("a valid key"));
    }
    // a second insertion changes nothing
    assert_eq!(tree.insert_key(&Key::from(&transfer(5))), Ok(roots[6]));
    for i in (0..6u8).rev() {
        let key = Key::from(&transfer(i));
        assert_eq!(tree.contains_key(&key), Ok(true));
        assert_eq!(tree.delete_key(&key), Ok(()));
        assert_eq!(tree.contains_key(&key), Ok(false));
        assert_eq!(tree.root(), roots[i as usize]);
        // nor does a second deletion
        assert_eq!(tree.delete_key(&key), Ok(()));
        assert_eq!(tree.root(), roots[i as usize]);
    }
}

#[test]
fn order_of_insertion_does_not_matter() {
    let mut forward = BridgePoolTree::default();
    let mut backward = BridgePoolTree::default();
    for i in 0..7 {
        let _ = forward.insert_key(&Key::from(&transfer(i))).expect("a valid key");
        let _ = backward.insert_key(&Key::from(&transfer(6 - i))).expect("a valid key");
    }
    assert_eq!(forward.root(), backward.root());
}

#[test]
fn sorting_is_stable() {
    let mut first = transfer(2);
    let mut second = transfer(2);
    first.gas_fee.payer = Address::Established("payer".to_string());
    second.gas_fee.payer = Address::Implicit("payer".to_string());
    // both payers have the same text, so both transfers have the same hash
    assert_eq!(first.keccak256(), second.keccak256());
    let (sorted, hashes) = sort_by_hash(vec![transfer(0), first, transfer(1), second]);
    assert!(hashes.windows(2).all(|pair| pair[0] <= pair[1]));
    let payers: Vec<bool> = sorted
        .iter()
        .filter(|t| t.gas_fee.payer.to_string() == "payer")
        .map(|t| matches!(t.gas_fee.payer, Address::Established(_)))
        .collect();
    assert_eq!(payers, vec![true, false]);
    assert_eq!(hashes, sorted.iter().map(|t| t.keccak256()).collect::<Vec<_>>());
}

#[test]
fn proof_of_one_leaf_of_three() {
    let nodes = vec![
        Node::OffPath(filled(1)),
        Node::OnPath(filled(2)),
        Node::OffPath(filled(3)),
    ];
    let (siblings, flags) = multi_proof(nodes);
    let right = hash_pair(filled(3), filled(0));
    assert_eq!(siblings, vec![filled(1), right]);
    assert_eq!(flags, vec![false, false]);
    let root = hash_pair(hash_pair(filled(1), filled(2)), right);
    assert!(check_proof(&vec![filled(2)], &siblings, &flags, root));
    assert!(!check_proof(&vec![filled(4)], &siblings, &flags, root));
    assert!(!check_proof(&vec![filled(2)], &siblings, &flags, filled(2)));
}

#[test]
fn proof_of_sibling_leaves() {
    let nodes = vec![
        Node::OnPath(filled(1)),
        Node::OnPath(filled(2)),
        Node::OffPath(filled(3)),
    ];
    let (siblings, flags) = multi_proof(nodes);
    assert_eq!(siblings, vec![hash_pair(filled(3), filled(0))]);
    assert_eq!(flags, vec![true, false]);
    assert!(matches!(Node::default(), Node::OffPath(KeccakHash([0, ..]))));
}

#[test]
fn proofs_of_unmatched_lengths_are_rejected() {
    let proof = BridgePoolProof {
        proof: vec![],
        leaves: vec![],
        flags: vec![],
    };
    assert!(proof.is_readable());
    assert!(!proof.verify(KeccakHash::default()));
    let proof = BridgePoolProof {
        proof: vec![filled(1)],
        leaves: vec![transfer(0)],
        flags: vec![true, true, true],
    };
    assert!(proof.is_readable());
    assert!(!proof.verify(KeccakHash::default()));
}

#[test]
fn flags_have_to_fit_the_lengths() {
    // one leaf, and three flags that each read two nodes
    assert!(!fits(1, 3, &vec![true, true, true]));
    // three leaves, and flags that never combine two of them
    assert!(!fits(3, 0, &vec![false, false]));
    assert!(fits(2, 0, &vec![true]));
    assert!(fits(1, 1, &vec![false]));
    assert!(fits(9, 9, &vec![true]));
}

#[test]
fn nodes_that_are_not_there_read_as_zero() {
    // the only flag combines the leaf with a node behind it
    let root = hash_pair(filled(3), filled(0));
    assert!(fits(1, 1, &vec![true]));
    assert!(check_proof(&vec![filled(3)], &vec![filled(8)], &vec![true], root));
}

#[test]
fn a_leaf_named_twice_is_not_proved() {
    let mut tree = BridgePoolTree::default();
    for i in 0..3 {
        let _ = tree.insert_key(&Key::from(&transfer(i))).expect("a valid key");
    }
    let proof = tree
        .get_membership_proof(vec![transfer(1), transfer(1)])
        .expect("a proof");
    assert_eq!(proof.leaves.len(), 2);
    assert!(proof.is_readable());
    assert!(!proof.verify(tree.root().into()));
}

#[test]
fn proof_of_no_leaves_holds_the_root() {
    let tree = BridgePoolTree::new(filled(7), LeafSet::from_hashes(&vec![filled(1), filled(2)]));
    let proof = tree.get_membership_proof(vec![]).expect("a proof");
    assert_eq!(proof.proof, vec![filled(7)]);
    assert!(proof.flags.is_empty());
    assert!(proof.leaves.is_empty());
    assert!(proof.verify(filled(7)));
    assert!(!proof.verify(filled(8)));
}

#[test]
fn proof_lists_its_leaves_in_order() {
    let mut tree = BridgePoolTree::default();
    for i in 0..5 {
        let _ = tree.insert_key(&Key::from(&transfer(i))).expect("a valid key");
    }
    let values = (0..5).rev().map(transfer).collect();
    let proof = tree.get_membership_proof(values).expect("a proof");
    let hashes: Vec<KeccakHash> = proof.leaves.iter().map(|t| t.keccak256()).collect();
    assert_eq!(hashes, tree.store().to_vec());
    assert!(proof.verify(tree.root().into()));
}

/// The tree over the first transfers, and the proof for some of them
fn proved(size: u8, of: &[u8]) -> (BridgePoolTree, BridgePoolProof) {
    let mut tree = BridgePoolTree::default();
    for i in 0..size {
        let _ = tree.insert_key(&Key::from(&transfer(i))).expect("a valid key");
    }
    let values = of.iter().map(|i| transfer(*i)).collect();
    let proof = tree.get_membership_proof(values).expect("a proof");
    (tree, proof)
}

#[test]
fn a_changed_proof_is_noticed() {
    for of in [vec![3], vec![0, 2], vec![1, 4, 5], vec![0, 1, 2, 3, 4, 5, 6]] {
        let (tree, mut proof) = proved(7, &of);
        let root = KeccakHash::from(tree.root());
        assert!(proof.verify(root));
        for i in 0..proof.proof.len() {
            let kept = proof.proof[i];
            proof.proof[i].0[31] ^= 1;
            assert!(proof.is_readable());
            assert!(!proof.verify(root));
            proof.proof[i] = kept;
        }
        for i in 0..proof.leaves.len() {
            let kept = proof.leaves[i].clone();
            proof.leaves[i] = transfer(40);
            assert!(proof.is_readable());
            assert!(!proof.verify(root));
            proof.leaves[i] = kept;
        }
        assert!(proof.verify(root));
    }
}

#[test]
fn a_changed_proof_without_flags_is_noticed() {
    let (tree, mut proof) = proved(1, &[0]);
    let root = KeccakHash::from(tree.root());
    assert!(proof.flags.is_empty() && proof.verify(root));
    proof.leaves[0] = transfer(1);
    assert!(!proof.verify(root));
    let (tree, mut proof) = proved(3, &[]);
    let root = KeccakHash::from(tree.root());
    assert!(proof.flags.is_empty() && proof.verify(root));
    proof.proof[0] = filled(1);
    assert!(!proof.verify(root));
}

#[test]
fn transfers_outside_the_tree_are_not_proved() {
    for size in 0..6 {
        for of in [vec![9], vec![9, 10], vec![0, 9], vec![0, 0], vec![9, 9]] {
            let (tree, proof) = proved(size, &of);
            assert!(proof.is_readable());
            assert!(!proof.verify(tree.root().into()));
        }
    }
}

#[test]
fn leaves_of_accepted_proofs_are_in_the_tree() {
    // a proof of one tree, held against the roots of others
    for size in 1..7 {
        for other in 1..7 {
            let (_, proof) = proved(size, &[size - 1]);
            let (tree, _) = proved(other, &[]);
            if proof.verify(tree.root().into()) {
                assert_eq!(tree.contains_key(&Key::from(&transfer(size - 1))), Ok(true));
            }
            assert_eq!(proof.verify(tree.root().into()), size == other);
        }
    }
}

#[test]
fn a_match_with_as_many_true_flags_as_leaves_shows_nothing() {
    // the tree is over hashes that are none of transfers, one of them zero
    let root = compute_root(vec![filled(0), filled(1)]);
    let flags = vec![true, false];
    let siblings = vec![filled(1), filled(2)];
    assert!(fits(1, 2, &flags));
    assert!(check_proof(&vec![filled(7)], &siblings, &flags, root));
}
