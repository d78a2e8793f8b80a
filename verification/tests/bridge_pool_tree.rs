//! The tree and its membership proofs, on transfers like those of the pool.
use std::collections::BTreeSet;

use bridge_pool::keccak::KeccakHash;
use bridge_pool::merkle::hash_pair;
use bridge_pool::pool::BridgePoolTree;
use bridge_pool::storage::{Address, DbKeySeg, Key};
use bridge_pool::transfer::{EthAddress, GasFee, PendingTransfer, TransferToEthereum};

/// An established user address for testing & development
fn bertha_address() -> Address {
    Address::Established(
        "atest1v4ehgw36xvcyyvejgvenxs34g3zygv3jxqunjd6rxyeyys3sxy6rwvfkx4qnj33hg9qnvse4lsfctw"
            .to_string(),
    )
}

/// Test that if tree has a single leaf, its root is the hash
/// of that leaf
#[test]
fn test_update_single_key() {
    let mut tree = BridgePoolTree::default();
    assert_eq!(tree.root().0, [0; 32]);
    let transfer = PendingTransfer {
        transfer: TransferToEthereum {
            asset: EthAddress([1; 20]),
            recipient: EthAddress([2; 20]),
            amount: 1u64.into(),
            nonce: 42u64.into(),
        },
        gas_fee: GasFee {
            amount: 0u64.into(),
            payer: bertha_address(),
        },
    };
    let key = Key::from(&transfer);
    let root =
        KeccakHash::from(tree.insert_key(&key).expect("Test failed"));
    assert_eq!(root, transfer.keccak256());
}

#[test]
fn test_two_keys() {
    let mut tree = BridgePoolTree::default();
    let mut transfers = vec![];
    for i in 0..2 {
        let transfer = PendingTransfer {
            transfer: TransferToEthereum {
                asset: EthAddress([i; 20]),
                recipient: EthAddress([i + 1; 20]),
                amount: (i as u64).into(),
                nonce: 42u64.into(),
            },
            gas_fee: GasFee {
                amount: 0u64.into(),
                payer: bertha_address(),
            },
        };
        let key = Key::from(&transfer);
        transfers.push(transfer);
        let _ = tree.insert_key(&key).expect("Test failed");
    }
    let expected: bridge_pool::hash::Hash =
        hash_pair(transfers[0].keccak256(), transfers[1].keccak256())
            .into();
    assert_eq!(tree.root(), expected);
}

/// This is the first number of keys to use dummy leaves
#[test]
fn test_three_leaves() {
    let mut tree = BridgePoolTree::default();
    let mut transfers = vec![];
    for i in 0..3 {
        let transfer = PendingTransfer {
            transfer: TransferToEthereum {
                asset: EthAddress([i; 20]),
                recipient: EthAddress([i + 1; 20]),
                amount: (i as u64).into(),
                nonce: 42u64.into(),
            },
            gas_fee: GasFee {
                amount: 0u64.into(),
                payer: bertha_address(),
            },
        };
        let key = Key::from(&transfer);
        transfers.push(transfer);
        let _ = tree.insert_key(&key).expect("Test failed");
    }
    transfers.sort_by_key(|t| t.keccak256());
    let hashes: BTreeSet<KeccakHash> =
        transfers.iter().map(|t| t.keccak256()).collect();
    let leaves: BTreeSet<KeccakHash> =
        tree.store().as_slice().iter().cloned().collect();
    assert_eq!(hashes, leaves);

    let left_hash =
        hash_pair(transfers[0].keccak256(), transfers[1].keccak256());
    let right_hash =
        hash_pair(transfers[2].keccak256(), Default::default());
    let expected: bridge_pool::hash::Hash = hash_pair(left_hash, right_hash).into();
    assert_eq!(tree.root(), expected);
}

/// Test removing all keys
#[test]
fn test_delete_all_keys() {
    let mut tree = BridgePoolTree::default();

    let transfer = PendingTransfer {
        transfer: TransferToEthereum {
            asset: EthAddress([1; 20]),
            recipient: EthAddress([2; 20]),
            amount: 1u64.into(),
            nonce: 42u64.into(),
        },
        gas_fee: GasFee {
            amount: 0u64.into(),
            payer: bertha_address(),
        },
    };
    let key = Key::from(&transfer);
    let root =
        KeccakHash::from(tree.insert_key(&key).expect("Test failed"));
    assert_eq!(root, transfer.keccak256());
    tree.delete_key(&key).expect("Test failed");
    assert_eq!(tree.root().0, [0; 32]);
}

/// Test deleting a key
#[test]
fn test_delete_key() {
    let mut tree = BridgePoolTree::default();
    let mut transfers = vec![];
    for i in 0..3 {
        let transfer = PendingTransfer {
            transfer: TransferToEthereum {
                asset: EthAddress([i; 20]),
                recipient: EthAddress([i + 1; 20]),
                amount: (i as u64).into(),
                nonce: 42u64.into(),
            },
            gas_fee: GasFee {
                amount: 0u64.into(),
                payer: bertha_address(),
            },
        };

        let key = Key::from(&transfer);
        transfers.push(transfer);
        let _ = tree.insert_key(&key).expect("Test failed");
    }
    transfers.sort_by_key(|t| t.keccak256());
    tree.delete_key(&Key::from(&transfers[1]))
        .expect("Test failed");

    let expected: bridge_pool::hash::Hash =
        hash_pair(transfers[0].keccak256(), transfers[2].keccak256())
            .into();
    assert_eq!(tree.root(), expected);
}

/// Test that parse key works correctly
#[test]
fn test_parse_key() {
    let transfer = PendingTransfer {
        transfer: TransferToEthereum {
            asset: EthAddress([1; 20]),
            recipient: EthAddress([2; 20]),
            amount: 1u64.into(),
            nonce: 42u64.into(),
        },
        gas_fee: GasFee {
            amount: 0u64.into(),
            payer: bertha_address(),
        },
    };
    let expected = transfer.keccak256();
    let key = Key::from(&transfer);
    assert_eq!(
        BridgePoolTree::parse_key(&key).expect("Test failed"),
        expected
    );
}

/// Test that parsing a key with multiple segments fails
#[test]
fn test_key_multiple_segments() {
    let transfer = PendingTransfer {
        transfer: TransferToEthereum {
            asset: EthAddress([1; 20]),
            recipient: EthAddress([2; 20]),
            amount: 1u64.into(),
            nonce: 42u64.into(),
        },
        gas_fee: GasFee {
            amount: 0u64.into(),
            payer: bertha_address(),
        },
    };
    let hash = transfer.keccak256().to_string();
    let key = Key {
        segments: vec![
            DbKeySeg::AddressSeg(bertha_address()),
            DbKeySeg::StringSeg(hash),
        ],
    };
    assert!(BridgePoolTree::parse_key(&key).is_err());
}

/// Test that parsing a key that is not a hash fails
#[test]
fn test_key_not_hash() {
    let key = Key {
        segments: vec![DbKeySeg::StringSeg("bloop".into())],
    };
    assert!(BridgePoolTree::parse_key(&key).is_err());
}

/// Test that [`contains_key`] works correctly
#[test]
fn test_contains_key() {
    let mut tree = BridgePoolTree::default();
    let transfer = PendingTransfer {
        transfer: TransferToEthereum {
            asset: EthAddress([1; 20]),
            recipient: EthAddress([2; 20]),
            amount: 1u64.into(),
            nonce: 42u64.into(),
        },
        gas_fee: GasFee {
            amount: 0u64.into(),
            payer: bertha_address(),
        },
    };
    tree.insert_key(&Key::from(&transfer)).expect("Test failed");
    assert!(
        tree.contains_key(&Key::from(&transfer))
            .expect("Test failed")
    );
    let transfer = PendingTransfer {
        transfer: TransferToEthereum {
            asset: EthAddress([1; 20]),
            recipient: EthAddress([0; 20]),
            amount: 1u64.into(),
            nonce: 42u64.into(),
        },
        gas_fee: GasFee {
            amount: 0u64.into(),
            payer: bertha_address(),
        },
    };
    assert!(
        !tree
            .contains_key(&Key::from(&transfer))
            .expect("Test failed")
    );
}

/// Test that the empty proof works.
#[test]
fn test_empty_proof() {
    let tree = BridgePoolTree::default();
    let values = vec![];
    let proof = tree.get_membership_proof(values).expect("Test failed");
    assert!(proof.verify(Default::default()));
}

/// Test that the proof works for proving the only leaf in the tree
#[test]
fn test_single_leaf() {
    let transfer = PendingTransfer {
        transfer: TransferToEthereum {
            asset: EthAddress([0; 20]),
            recipient: EthAddress([0; 20]),
            amount: 0u64.into(),
            nonce: 0u64.into(),
        },
        gas_fee: GasFee {
            amount: 0u64.into(),
            payer: bertha_address(),
        },
    };
    let mut tree = BridgePoolTree::default();
    let key = Key::from(&transfer);
    let _ = tree.insert_key(&key).expect("Test failed");
    let proof = tree
        .get_membership_proof(vec![transfer])
        .expect("Test failed");
    assert!(proof.verify(tree.root().into()));
}

/// Check proofs for membership of single transfer
/// in a tree with two leaves.
#[test]
fn test_one_leaf_of_two_proof() {
    let mut tree = BridgePoolTree::default();
    let mut transfers = vec![];
    for i in 0..2 {
        let transfer = PendingTransfer {
            transfer: TransferToEthereum {
                asset: EthAddress([i; 20]),
                recipient: EthAddress([i + 1; 20]),
                amount: (i as u64).into(),
                nonce: 42u64.into(),
            },
            gas_fee: GasFee {
                amount: 0u64.into(),
                payer: bertha_address(),
            },
        };

        let key = Key::from(&transfer);
        transfers.push(transfer);
        let _ = tree.insert_key(&key).expect("Test failed");
    }
    let proof = tree
        .get_membership_proof(vec![transfers.remove(0)])
        .expect("Test failed");
    assert!(proof.verify(tree.root().into()));
}

/// Test that a multiproof works for leaves who are siblings
#[test]
fn test_proof_two_out_of_three_leaves() {
    let mut tree = BridgePoolTree::default();
    let mut transfers = vec![];
    for i in 0..3 {
        let transfer = PendingTransfer {
            transfer: TransferToEthereum {
                asset: EthAddress([i; 20]),
                recipient: EthAddress([i + 1; 20]),
                amount: (i as u64).into(),
                nonce: 42u64.into(),
            },
            gas_fee: GasFee {
                amount: 0u64.into(),
                payer: bertha_address(),
            },
        };

        let key = Key::from(&transfer);
        transfers.push(transfer);
        let _ = tree.insert_key(&key).expect("Test failed");
    }
    transfers.sort_by_key(|t| t.keccak256());
    let values = vec![transfers[0].clone(), transfers[1].clone()];
    let proof = tree.get_membership_proof(values).expect("Test failed");
    assert!(proof.verify(tree.root().into()));
}

/// Test that proving an empty subset of leaves always works
#[test]
fn test_proof_no_leaves() {
    let mut tree = BridgePoolTree::default();
    let mut transfers = vec![];
    for i in 0..3 {
        let transfer = PendingTransfer {
            transfer: TransferToEthereum {
                asset: EthAddress([i; 20]),
                recipient: EthAddress([i + 1; 20]),
                amount: (i as u64).into(),
                nonce: 42u64.into(),
            },
            gas_fee: GasFee {
                amount: 0u64.into(),
                payer: bertha_address(),
            },
        };
        let key = Key::from(&transfer);
        transfers.push(transfer);
        let _ = tree.insert_key(&key).expect("Test failed");
    }
    let values = vec![];
    let proof = tree.get_membership_proof(values).expect("Test failed");
    assert!(proof.verify(tree.root().into()))
}

/// Test a proof for all the leaves
#[test]
fn test_proof_all_leaves() {
    let mut tree = BridgePoolTree::default();
    let mut transfers = vec![];
    for i in 0..2 {
        let transfer = PendingTransfer {
            transfer: TransferToEthereum {
                asset: EthAddress([i; 20]),
                recipient: EthAddress([i + 1; 20]),
                amount: (i as u64).into(),
                nonce: 42u64.into(),
            },
            gas_fee: GasFee {
                amount: 0u64.into(),
                payer: bertha_address(),
            },
        };
        let key = Key::from(&transfer);
        transfers.push(transfer);
        let _ = tree.insert_key(&key).expect("Test failed");
    }
    transfers.sort_by_key(|t| t.keccak256());
    let proof = tree.get_membership_proof(transfers).expect("Test failed");
    assert!(proof.verify(tree.root().into()));
}

/// Test a proof for all the leaves when the number of leaves is odd
#[test]
fn test_proof_all_leaves_odd() {
    let mut tree = BridgePoolTree::default();
    let mut transfers = vec![];
    for i in 0..3 {
        let transfer = PendingTransfer {
            transfer: TransferToEthereum {
                asset: EthAddress([i; 20]),
                recipient: EthAddress([i + 1; 20]),
                amount: (i as u64).into(),
                nonce: 42u64.into(),
            },
            gas_fee: GasFee {
                amount: 0u64.into(),
                payer: bertha_address(),
            },
        };
        let key = Key::from(&transfer);
        transfers.push(transfer);
        let _ = tree.insert_key(&key).expect("Test failed");
    }
    transfers.sort_by_key(|t| t.keccak256());
    let proof = tree.get_membership_proof(transfers).expect("Test failed");
    assert!(proof.verify(tree.root().into()));
}

/// Test proofs of large trees
#[test]
fn test_large_proof() {
    let mut tree = BridgePoolTree::default();
    let mut transfers = vec![];
    for i in 0..5 {
        let transfer = PendingTransfer {
            transfer: TransferToEthereum {
                asset: EthAddress([i; 20]),
                recipient: EthAddress([i + 1; 20]),
                amount: (i as u64).into(),
                nonce: 42u64.into(),
            },
            gas_fee: GasFee {
                amount: 0u64.into(),
                payer: bertha_address(),
            },
        };
        let key = Key::from(&transfer);
        transfers.push(transfer);
        let _ = tree.insert_key(&key).expect("Test failed");
    }
    transfers.sort_by_key(|t| t.keccak256());
    let values: Vec<_> = transfers.iter().step_by(2).cloned().collect();
    let proof = tree.get_membership_proof(values).expect("Test failed");
    assert!(proof.verify(tree.root().into()));
}

/// A transfer with the given address bytes and nonce
fn transfer_with(addr: [u8; 20], nonce: u64) -> PendingTransfer {
    PendingTransfer {
        transfer: TransferToEthereum {
            asset: EthAddress(addr),
            recipient: EthAddress(addr),
            amount: Default::default(),
            nonce: nonce.into(),
        },
        gas_fee: GasFee {
            amount: Default::default(),
            payer: bertha_address(),
        },
    }
}

/// The next number of a fixed sequence without an apparent pattern
fn next_number(state: &mut u64) -> u64 {
    *state ^= *state << 13;
    *state ^= *state >> 7;
    *state ^= *state << 17;
    *state
}

/// Given many trees and subsets of their leaves, verify that the constructed
/// multi-proof correctly verifies.
#[test]
fn test_verify_proof() {
    let mut state = 0x9e37_79b9_7f4a_7c15u64;
    for size in 0..=50u64 {
        let mut transfers = vec![];
        for _ in 0..size {
            let mut addr = [0u8; 20];
            for byte in addr.iter_mut() {
                *byte = next_number(&mut state) as u8;
            }
            transfers.push(transfer_with(addr, next_number(&mut state)));
        }
        let mut tree = BridgePoolTree::default();
        for transfer in &transfers {
            let _ = tree.insert_key(&Key::from(transfer)).expect("Test failed");
        }
        for _ in 0..4 {
            let mut to_prove = vec![];
            for transfer in &transfers {
                if next_number(&mut state) % 3 == 0 {
                    to_prove.push(transfer.clone());
                }
            }
            let proof = tree.get_membership_proof(to_prove).expect("Test failed");
            assert!(proof.is_readable());
            assert!(proof.verify(tree.root().into()));
        }
    }
}
