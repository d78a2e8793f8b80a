//! A Merkle tree over the transfers that wait in the pool of the Ethereum
//! bridge, with batched membership proofs.
//!
//! [`pool::BridgePoolTree`] keeps the hashes of the transfers and their root,
//! and makes a [`pool::BridgePoolProof`] for any of them. [`laws`] holds what
//! is proved of both together; [`encoding_laws`], [`key_laws`], [`tree_laws`]
//! and [`proof_laws`] say of each part what it means.
#![allow(unused_imports)]

pub mod completeness;
pub mod encoding_laws;
pub mod hash;
pub mod hex;
pub mod keccak;
pub mod key_laws;
pub mod laws;
pub mod leaf_set;
pub mod merkle;
pub mod multiproof;
pub mod pool;
pub mod proof_laws;
pub mod sorting;
pub mod soundness;
pub mod storage;
pub mod transfer;
pub mod tree_laws;
