//! Building a tree and checking a proof against its root.

use crate::digest::{
    combine, hash_eq, keccak256, keccak256_array, MerkleTreeData, MerkleTreeHash,
};
use crate::model::{
    accepts, blobs, digests, fold_proof, leaf_position, lemma_padded_size_least, lemma_path_length,
    lemma_tree_depth_bounds, lemma_tree_depth_unique, node_at, padded_size, parent, path_from,
    proof_of, root_of, sibling, tree_depth, tree_of, MerkleTreeView,
};
use vstd::arithmetic::power2::{
    lemma2_to64, lemma2_to64_rest, lemma_pow2_strictly_increases, lemma_pow2_unfold, pow2,
};
use vstd::prelude::*;

verus! {

/// The sibling digests on the way from one leaf to the root, nearest first.
pub type MerkleTreeProof = Vec<MerkleTreeHash>;

/// The root digest of a tree: the public commitment to its leaves.
#[derive(PartialEq, Eq, PartialOrd, Ord, Debug)]
pub struct MerkleTreeRoot {
    pub hash: MerkleTreeHash,
}

impl Clone for MerkleTreeRoot {
    fn clone(&self) -> (copy: Self)
        ensures
            copy == *self,
    {
        MerkleTreeRoot { hash: self.hash }
    }
}

/// A tree as its users see it: the root, and the proof of leaf `i` at index `i`.
pub struct MerkleTree {
    pub root: MerkleTreeRoot,
    pub proofs: Vec<MerkleTreeProof>,
}

impl View for MerkleTreeRoot {
    type V = Seq<u8>;

    open spec fn view(&self) -> Seq<u8> {
        self.hash@
    }
}

impl View for MerkleTree {
    type V = MerkleTreeView;

    open spec fn view(&self) -> MerkleTreeView {
        MerkleTreeView {
            root: self.root@,
            proofs: Seq::new(self.proofs@.len(), |i: int| digests(self.proofs@[i]@)),
        }
    }
}

/// The siblings met when walking a node array from index `v` up to index 0.
pub open spec fn walk(nodes: Seq<MerkleTreeHash>, v: int) -> Seq<MerkleTreeHash>
    decreases v,
{
    if v <= 0 {
        Seq::empty()
    } else {
        seq![nodes[sibling(v)]] + walk(nodes, parent(v))
    }
}

/// A walk over an array that holds the tree's digests collects the tree's path.
proof fn lemma_walk_is_path(nodes: Seq<MerkleTreeHash>, leaves: Seq<Seq<u8>>, v: int)
    requires
        nodes.len() % 2 == 1,
        0 <= v < nodes.len(),
        forall|u: int| 0 <= u < nodes.len() ==> (#[trigger] nodes[u])@ == node_at(leaves, u),
    ensures
        digests(walk(nodes, v)) == path_from(leaves, v),
    decreases v,
{
    if v > 0 {
        lemma_walk_is_path(nodes, leaves, parent(v));
    }
    assert(digests(walk(nodes, v)) =~= path_from(leaves, v));
}

/// Collects the proof of the node at `start`: at each step the sibling's
/// digest, then on to the parent, until the root is reached.
fn extract_proof(nodes: &Vec<MerkleTreeHash>, start: usize) -> (proof: MerkleTreeProof)
    requires
        nodes.len() % 2 == 1,
        start < nodes.len(),
    ensures
        proof@ == walk(nodes@, start as int),
{
    let mut result: MerkleTreeProof = Vec::new();
    let mut v: usize = start;
    while v > 0
        invariant
            nodes.len() % 2 == 1,
            v < nodes.len(),
            result@ + walk(nodes@, v as int) == walk(nodes@, start as int),
        decreases v,
    {
        let w: usize = if v % 2 == 0 {
            v - 1
        } else {
            v + 1
        };
        result.push(nodes[w]);
        proof {
            assert(result@ + walk(nodes@, parent(v as int)) =~= walk(nodes@, start as int));
        }
        v = (v - 1) / 2;
    }
    proof {
        assert(result@ =~= result@ + walk(nodes@, 0));
    }
    result
}

impl MerkleTreeRoot {
    /// The root that carries `hash`.
    pub fn new(hash: MerkleTreeHash) -> (root: Self)
        ensures
            root.hash == hash,
            root@ == hash@,
    {
        MerkleTreeRoot { hash }
    }

    /// Recomputes the root from `data` and `proof` and compares it with this
    /// one: the leaf is hashed, then combined with each sibling in turn. A
    /// mismatch is the answer `false`, never a failure.
    pub fn verify(&self, data: &MerkleTreeData, proof: &MerkleTreeProof) -> (ok: bool)
        ensures
            ok == accepts(self@, data@, digests(proof@)),
    {
        let mut hash = keccak256_array(data.as_slice());
        let ghost siblings = digests(proof@);
        let mut i: usize = 0;
        proof {
            assert(siblings.skip(0) =~= siblings);
        }
        while i < proof.len()
            invariant
                i <= proof.len(),
                siblings == digests(proof@),
                fold_proof(hash@, siblings.skip(i as int)) == fold_proof(
                    keccak256(data@),
                    siblings,
                ),
            decreases proof.len() - i,
        {
            proof {
                assert(siblings.skip(i as int).skip(1) =~= siblings.skip(i + 1));
            }
            hash = combine(&hash, &proof[i]);
            i = i + 1;
        }
        hash_eq(&self.hash, &hash)
    }
}

/// Whether a tree over `leaves` leaves can be built: there is at least one
/// leaf, and the node array of the padded tree can be indexed. That is so up
/// to half the address space, which is itself a power of two.
pub fn tree_fits(leaves: usize) -> (fits: bool)
    ensures
        fits == (leaves >= 1 && 2 * padded_size(leaves as nat) - 1 <= usize::MAX),
{
    proof {
        let half: nat = if usize::BITS == 64 {
            63
        } else {
            31
        };
        assert(pow2(half) == usize::MAX / 2 + 1) by {
            lemma2_to64();
            lemma2_to64_rest();
        }
        lemma_tree_depth_bounds(leaves as nat);
        if leaves <= pow2(half) {
            lemma_padded_size_least(leaves as nat, half);
        }
    }
    leaves >= 1 && leaves - 1 <= usize::MAX / 2
}

impl MerkleTree {
    /// Builds the tree over `items` where one can be built, and says `None`
    /// where the list is empty or too long.
    pub fn try_build(items: &Vec<MerkleTreeData>) -> (tree: Option<Self>)
        ensures
            tree is Some <==> items.len() >= 1 && 2 * padded_size(items.len() as nat) - 1
                <= usize::MAX,
            tree matches Some(built) ==> built@ == tree_of(blobs(items@)),
    {
        if tree_fits(items.len()) {
            Some(MerkleTree::build(items))
        } else {
            None
        }
    }

    /// Builds the tree over `items`.
    ///
    /// The list is padded with empty blobs to the next power of two `L`. The
    /// node array has `2L - 1` slots: the last `L` take the leaves' digests,
    /// and every slot before them the combination of its two children, from
    /// the back to the front. The proof of each leaf of `items` is then read
    /// off the array; the padding gets none.
    pub fn build(items: &Vec<MerkleTreeData>) -> (tree: Self)
        requires
            items.len() >= 1,
            2 * padded_size(items.len() as nat) - 1 <= usize::MAX,
        ensures
            tree@ == tree_of(blobs(items@)),
            tree.proofs.len() == items.len(),
            forall|i: int|
                0 <= i < items.len() ==> (#[trigger] tree.proofs[i]).len() == tree_depth(
                    items.len() as nat,
                ),
    {
        let items_len = items.len();
        let ghost leaves = blobs(items@);
        let ghost depth = tree_depth(items_len as nat);

        let mut st: usize = 1;
        let ghost mut k: nat = 0;
        proof {
            lemma_tree_depth_bounds(items_len as nat);
            assert(pow2(0) == 1) by {
                lemma2_to64();
            }
        }
        while st < items_len
            invariant
                st >= 1,
                st == pow2(k),
                k > 0 ==> pow2((k - 1) as nat) < items_len,
                k <= depth,
                depth == tree_depth(items_len as nat),
                2 * pow2(depth) - 1 <= usize::MAX,
            decreases depth - k,
        {
            proof {
                lemma_tree_depth_bounds(items_len as nat);
                lemma_pow2_unfold(k + 1);
                if k + 1 < depth {
                    lemma_pow2_strictly_increases(k + 1, depth);
                }
                k = k + 1;
            }
            st = st * 2;
        }
        proof {
            lemma_tree_depth_unique(items_len as nat, k);
        }
        let st_sum: usize = st - 1;
        let total: usize = st_sum + st;

        let mut nodes: Vec<MerkleTreeHash> = Vec::new();
        while nodes.len() < total
            invariant
                nodes.len() <= total,
            decreases total - nodes.len(),
        {
            nodes.push([0u8; 32]);
        }

        let empty: MerkleTreeData = Vec::new();
        let mut j: usize = 0;
        while j < st
            invariant
                j <= st,
                st == padded_size(leaves.len()),
                st_sum == st - 1,
                total == st_sum + st,
                nodes.len() == total,
                items_len == items.len(),
                leaves == blobs(items@),
                empty@ == Seq::<u8>::empty(),
                forall|u: int|
                    st_sum <= u < st_sum + j ==> (#[trigger] nodes[u])@ == node_at(leaves, u),
            decreases st - j,
        {
            let digest = if j < items_len {
                keccak256_array(items[j].as_slice())
            } else {
                keccak256_array(empty.as_slice())
            };
            nodes.set(st_sum + j, digest);
            j = j + 1;
        }

        let mut i: usize = st_sum;
        while i > 0
            invariant
                i <= st_sum,
                st == padded_size(leaves.len()),
                st_sum == st - 1,
                total == st_sum + st,
                nodes.len() == total,
                forall|u: int| i <= u < total ==> (#[trigger] nodes[u])@ == node_at(leaves, u),
            decreases i,
        {
            i = i - 1;
            let left = nodes[2 * i + 1];
            let right = nodes[2 * i + 2];
            let digest = combine(&left, &right);
            nodes.set(i, digest);
        }

        let mut proofs: Vec<MerkleTreeProof> = Vec::new();
        let mut t: usize = 0;
        while t < items_len
            invariant
                t <= items_len,
                items_len == leaves.len(),
                items_len <= st,
                st == padded_size(leaves.len()),
                st_sum == st - 1,
                total == st_sum + st,
                nodes.len() == total,
                depth == tree_depth(leaves.len()),
                forall|u: int| 0 <= u < total ==> (#[trigger] nodes[u])@ == node_at(leaves, u),
                proofs.len() == t,
                forall|r: int|
                    0 <= r < t ==> digests((#[trigger] proofs[r])@) == proof_of(leaves, r),
                forall|r: int| 0 <= r < t ==> (#[trigger] proofs[r]).len() == depth,
            decreases items_len - t,
        {
            let proof = extract_proof(&nodes, st_sum + t);
            proof {
                lemma_walk_is_path(nodes@, leaves, st_sum + t);
                lemma_pow2_unfold(depth + 1);
                lemma_path_length(leaves, leaf_position(leaves, t as int), depth);
            }
            proofs.push(proof);
            t = t + 1;
        }

        let tree = MerkleTree { root: MerkleTreeRoot::new(nodes[0]), proofs };
        proof {
            assert(tree@.proofs =~= tree_of(leaves).proofs);
        }
        tree
    }
}

} // verus!
