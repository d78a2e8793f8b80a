# bridge_pool

A Merkle tree over the transfers that wait in the pool of an Ethereum bridge,
with batched membership proofs, verified with Verus.

- `src/keccak.rs`, `src/hex.rs`, `src/hash.rs`: hashes, their order and their
  text. Keccak-256 itself comes from `tiny-keccak` and is the only thing taken
  on trust.
- `src/storage.rs`, `src/transfer.rs`, `src/sorting.rs`: storage keys, pending
  transfers with their encoding, and transfers in the order of their hashes.
- `src/leaf_set.rs`, `src/merkle.rs`, `src/multiproof.rs`: the ordered set of
  leaves, the root of a tree, and how a multi-proof is made and checked.
- `src/pool.rs`: the storage subspace of the pool, `BridgePoolTree` and
  `BridgePoolProof`.
- `src/completeness.rs`, `src/soundness.rs`, `src/laws.rs`: what holds of the
  whole, above all that a proof made for leaves of a tree verifies against its
  root, and that the leaves of a proof that verifies are in the tree as long as
  the digests involved are told apart.
- `app/`: the stored form of the tree, and its errors as reported.
