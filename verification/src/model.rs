//! The tree as a mathematical object: its shape, the digest of each node, the
//! proof of each leaf and what a verifier computes from a proof.

use crate::digest::{keccak256, node_hash};
use vstd::arithmetic::power2::{lemma_pow2_strictly_increases, lemma_pow2_unfold, pow2};
use vstd::prelude::*;

verus! {

/// The depth of the tree over `n` leaves: the least `d` with `2^d >= n`.
pub open spec fn tree_depth(n: nat) -> nat
    decreases n,
{
    if n <= 1 {
        0
    } else {
        1 + tree_depth((n + 1) / 2)
    }
}

/// The padded leaf count: the smallest power of two that is at least `n`.
pub open spec fn padded_size(n: nat) -> nat {
    pow2(tree_depth(n))
}

/// The leaf at position `j` of the padded list: the caller's leaf where there
/// is one, the empty blob behind them.
pub open spec fn padded_leaf(leaves: Seq<Seq<u8>>, j: int) -> Seq<u8> {
    if 0 <= j < leaves.len() {
        leaves[j]
    } else {
        Seq::empty()
    }
}

/// The digest at index `v` of the node array. The array is a complete binary
/// tree in heap order: node 0 is the root, the children of `v` are `2v + 1`
/// and `2v + 2`, and the last `padded_size` slots are the leaves.
pub open spec fn node_at(leaves: Seq<Seq<u8>>, v: int) -> Seq<u8>
    decreases 2 * padded_size(leaves.len()) - v,
{
    let size = padded_size(leaves.len());
    if v < 0 || v + 1 >= size {
        keccak256(padded_leaf(leaves, v + 1 - size))
    } else {
        node_hash(node_at(leaves, 2 * v + 1), node_at(leaves, 2 * v + 2))
    }
}

/// The other child of the parent of `v`.
pub open spec fn sibling(v: int) -> int {
    if v % 2 == 0 {
        v - 1
    } else {
        v + 1
    }
}

/// The node above `v`.
pub open spec fn parent(v: int) -> int {
    (v - 1) / 2
}

/// The array index of leaf `i`.
pub open spec fn leaf_position(leaves: Seq<Seq<u8>>, i: int) -> int {
    padded_size(leaves.len()) - 1 + i
}

/// The digests of the siblings met on the way from node `v` up to the root,
/// nearest first. The root itself is not part of it.
pub open spec fn path_from(leaves: Seq<Seq<u8>>, v: int) -> Seq<Seq<u8>>
    decreases v,
{
    if v <= 0 {
        Seq::empty()
    } else {
        seq![node_at(leaves, sibling(v))] + path_from(leaves, parent(v))
    }
}

/// The root digest of the tree over `leaves`.
pub open spec fn root_of(leaves: Seq<Seq<u8>>) -> Seq<u8> {
    node_at(leaves, 0)
}

/// The inclusion proof of leaf `i`.
pub open spec fn proof_of(leaves: Seq<Seq<u8>>, i: int) -> Seq<Seq<u8>> {
    path_from(leaves, leaf_position(leaves, i))
}

/// What a verifier reaches when it starts from the digest `hash` and combines
/// it with each sibling of `proof` in turn.
pub open spec fn fold_proof(hash: Seq<u8>, proof: Seq<Seq<u8>>) -> Seq<u8>
    decreases proof.len(),
{
    if proof.len() == 0 {
        hash
    } else {
        fold_proof(node_hash(hash, proof[0]), proof.skip(1))
    }
}

/// Whether `proof` leads from the blob `leaf` to `root`.
pub open spec fn accepts(root: Seq<u8>, leaf: Seq<u8>, proof: Seq<Seq<u8>>) -> bool {
    fold_proof(keccak256(leaf), proof) == root
}

/// What a tree is to its users: the root and one proof per leaf.
pub struct MerkleTreeView {
    pub root: Seq<u8>,
    pub proofs: Seq<Seq<Seq<u8>>>,
}

/// The tree over `leaves`.
pub open spec fn tree_of(leaves: Seq<Seq<u8>>) -> MerkleTreeView {
    MerkleTreeView {
        root: root_of(leaves),
        proofs: Seq::new(leaves.len(), |i: int| proof_of(leaves, i)),
    }
}

/// The leaves as plain byte sequences.
pub open spec fn blobs(items: Seq<Vec<u8>>) -> Seq<Seq<u8>> {
    Seq::new(items.len(), |i: int| items[i]@)
}

/// A proof as plain byte sequences.
pub open spec fn digests(proof: Seq<[u8; 32]>) -> Seq<Seq<u8>> {
    Seq::new(proof.len(), |i: int| proof[i]@)
}

/// `2^tree_depth(n)` is at least `n`, and the power of two below it is not.
pub proof fn lemma_tree_depth_bounds(n: nat)
    ensures
        padded_size(n) >= n,
        padded_size(n) >= 1,
        tree_depth(n) > 0 ==> pow2((tree_depth(n) - 1) as nat) < n,
    decreases n,
{
    if n <= 1 {
        lemma_pow2_unfold(1);
        assert(pow2(0) == 1) by {
            vstd::arithmetic::power2::lemma2_to64();
        }
    } else {
        let m = (n + 1) / 2;
        lemma_tree_depth_bounds(m);
        lemma_pow2_unfold(tree_depth(n));
        if tree_depth(m) > 0 {
            lemma_pow2_unfold(tree_depth(m));
        } else {
            assert(pow2(0) == 1) by {
                vstd::arithmetic::power2::lemma2_to64();
            }
        }
    }
}

/// The depth is the only exponent whose power of two is the least one that
/// reaches `n`.
pub proof fn lemma_tree_depth_unique(n: nat, d: nat)
    requires
        pow2(d) >= n,
        d > 0 ==> pow2((d - 1) as nat) < n,
    ensures
        d == tree_depth(n),
{
    let t = tree_depth(n);
    lemma_tree_depth_bounds(n);
    if d < t {
        if d < t - 1 {
            lemma_pow2_strictly_increases(d, (t - 1) as nat);
        }
    } else if t < d {
        if t < d - 1 {
            lemma_pow2_strictly_increases(t, (d - 1) as nat);
        }
    }
}

/// The padded leaf count is the smallest power of two that is at least `n`:
/// no power of two below it reaches `n`.
pub proof fn lemma_padded_size_least(n: nat, e: nat)
    requires
        pow2(e) >= n,
    ensures
        padded_size(n) >= n,
        padded_size(n) <= pow2(e),
{
    lemma_tree_depth_bounds(n);
    let t = tree_depth(n);
    if e < t {
        if e < t - 1 {
            lemma_pow2_strictly_increases(e, (t - 1) as nat);
        }
    } else if t < e {
        lemma_pow2_strictly_increases(t, e);
    }
}

/// A list whose length is a power of two is not padded.
pub proof fn lemma_padded_size_of_power(e: nat)
    ensures
        tree_depth(pow2(e)) == e,
        padded_size(pow2(e)) == pow2(e),
{
    if e > 0 {
        lemma_pow2_strictly_increases((e - 1) as nat, e);
    }
    lemma_tree_depth_unique(pow2(e), e);
}

/// Padding less than doubles a non-empty list, and leaves a list whose length
/// is a power of two as it is.
pub proof fn lemma_padded_size_range(n: nat)
    requires
        n >= 1,
    ensures
        n <= padded_size(n) < 2 * n,
{
    lemma_tree_depth_bounds(n);
    if tree_depth(n) > 0 {
        lemma_pow2_unfold(tree_depth(n));
    } else {
        assert(pow2(0) == 1) by {
            vstd::arithmetic::power2::lemma2_to64();
        }
    }
}

/// A node at depth `d` of the array is `d` steps away from the root.
pub proof fn lemma_path_length(leaves: Seq<Seq<u8>>, v: int, d: nat)
    requires
        pow2(d) <= v + 1 < pow2(d + 1),
    ensures
        path_from(leaves, v).len() == d,
    decreases d,
{
    lemma_pow2_unfold(d + 1);
    if d == 0 {
        assert(pow2(0) == 1) by {
            vstd::arithmetic::power2::lemma2_to64();
        }
    } else {
        lemma_pow2_unfold(d);
        lemma_path_length(leaves, parent(v), (d - 1) as nat);
    }
}

/// Every proof of a tree has the length of the tree's depth, which is the
/// base-2 logarithm of the padded leaf count.
pub proof fn lemma_proof_length(leaves: Seq<Seq<u8>>, i: int)
    requires
        0 <= i < leaves.len(),
    ensures
        proof_of(leaves, i).len() == tree_depth(leaves.len()),
        padded_size(leaves.len()) == pow2(tree_depth(leaves.len())),
{
    let d = tree_depth(leaves.len());
    lemma_tree_depth_bounds(leaves.len());
    lemma_pow2_unfold(d + 1);
    lemma_path_length(leaves, leaf_position(leaves, i), d);
}

} // verus!
