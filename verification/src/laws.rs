//! What holds of every tree: a leaf's own proof is accepted, and a proof that
//! is accepted for the wrong leaf, or a root that survives a change of the
//! leaves, exhibits a hash collision.

use crate::digest::{keccak256, lemma_combine_commutative, node_hash};
use crate::model::{
    accepts, fold_proof, leaf_position, lemma_tree_depth_bounds, node_at, padded_leaf, padded_size,
    parent, path_from, proof_of, root_of, sibling,
};
use vstd::prelude::*;

verus! {

/// Folding the path of any node into that node's digest gives the root.
pub proof fn lemma_path_reaches_root(leaves: Seq<Seq<u8>>, v: int)
    requires
        0 <= v < 2 * padded_size(leaves.len()) - 1,
    ensures
        fold_proof(node_at(leaves, v), path_from(leaves, v)) == root_of(leaves),
    decreases v,
{
    if v > 0 {
        let p = parent(v);
        let s = sibling(v);
        assert(path_from(leaves, v).skip(1) =~= path_from(leaves, p));
        // `v` and `s` are the two children of `p`, in one order or the other.
        lemma_combine_commutative(node_at(leaves, v), node_at(leaves, s));
        assert(node_hash(node_at(leaves, v), node_at(leaves, s)) == node_at(leaves, p));
        lemma_path_reaches_root(leaves, p);
    }
}

/// The array slot of a leaf holds the Keccak-256 digest of that leaf.
pub proof fn lemma_leaf_digest(leaves: Seq<Seq<u8>>, i: int)
    requires
        0 <= i < leaves.len(),
    ensures
        node_at(leaves, leaf_position(leaves, i)) == keccak256(leaves[i]),
        0 <= leaf_position(leaves, i) < 2 * padded_size(leaves.len()) - 1,
{
    lemma_tree_depth_bounds(leaves.len());
}

/// Every leaf verifies against the root with its own proof.
pub proof fn lemma_own_proof_accepted(leaves: Seq<Seq<u8>>, i: int)
    requires
        0 <= i < leaves.len(),
    ensures
        accepts(root_of(leaves), leaves[i], proof_of(leaves, i)),
{
    lemma_leaf_digest(leaves, i);
    lemma_path_reaches_root(leaves, leaf_position(leaves, i));
}

/// Two different blobs with the same leaf digest.
pub open spec fn leaf_collision(a: Seq<u8>, b: Seq<u8>) -> bool {
    a != b && keccak256(a) == keccak256(b)
}

/// Step `k` of `proof` takes the two different digests that the verifier has
/// reached from `h` and from `g` to one and the same digest: the pair hash
/// collides there.
pub open spec fn collides_at(h: Seq<u8>, g: Seq<u8>, proof: Seq<Seq<u8>>, k: int) -> bool {
    let x = fold_proof(h, proof.take(k));
    let y = fold_proof(g, proof.take(k));
    0 <= k < proof.len() && x != y && node_hash(x, proof[k]) == node_hash(y, proof[k])
}

/// The pair hash collides at some step of `proof` when the verifier starts
/// from `h` and from `g`.
pub open spec fn path_collision(h: Seq<u8>, g: Seq<u8>, proof: Seq<Seq<u8>>) -> bool {
    exists|k: int| collides_at(h, g, proof, k)
}

/// A proof takes different digests to the same result only through a
/// collision of the pair hash.
pub proof fn lemma_fold_injective(h: Seq<u8>, g: Seq<u8>, proof: Seq<Seq<u8>>)
    requires
        h != g,
        fold_proof(h, proof) == fold_proof(g, proof),
    ensures
        path_collision(h, g, proof),
    decreases proof.len(),
{
    if proof.len() > 0 {
        let x = node_hash(h, proof[0]);
        let y = node_hash(g, proof[0]);
        if x == y {
            assert(proof.take(0).len() == 0);
            assert(collides_at(h, g, proof, 0));
        } else {
            // The collision of the rest, one step later.
            let rest = proof.skip(1);
            lemma_fold_injective(x, y, rest);
            let k = choose|k: int| collides_at(x, y, rest, k);
            assert(proof.take(k + 1).skip(1) =~= rest.take(k));
            assert(collides_at(h, g, proof, k + 1));
        }
    }
}

/// A collision within the first `m` steps of a proof is one of the whole proof.
pub proof fn lemma_collision_extends(h: Seq<u8>, g: Seq<u8>, proof: Seq<Seq<u8>>, m: int)
    requires
        0 <= m <= proof.len(),
        path_collision(h, g, proof.take(m)),
    ensures
        path_collision(h, g, proof),
{
    let front = proof.take(m);
    let k = choose|k: int| collides_at(h, g, front, k);
    assert(front.take(k) =~= proof.take(k));
    assert(collides_at(h, g, proof, k));
}

/// A proof that is accepted for a leaf other than its own shows a collision:
/// of the leaf digest, or of the pair hash on the way to the root. Short of
/// that, leaf `i` does not verify with the proof of leaf `j`.
pub proof fn lemma_foreign_proof_rejected(leaves: Seq<Seq<u8>>, i: int, j: int)
    requires
        0 <= i < leaves.len(),
        0 <= j < leaves.len(),
        i != j,
        leaves[i] != leaves[j],
    ensures
        accepts(root_of(leaves), leaves[i], proof_of(leaves, j)) ==> leaf_collision(
            leaves[i],
            leaves[j],
        ) || path_collision(keccak256(leaves[i]), keccak256(leaves[j]), proof_of(leaves, j)),
{
    lemma_own_proof_accepted(leaves, j);
    if accepts(root_of(leaves), leaves[i], proof_of(leaves, j)) && keccak256(leaves[i])
        != keccak256(leaves[j]) {
        lemma_fold_injective(keccak256(leaves[i]), keccak256(leaves[j]), proof_of(leaves, j));
    }
}

/// Whether node `v` lies on the way from node `q` up to the root, both ends
/// included.
pub open spec fn on_path(q: int, v: int) -> bool
    decreases q,
{
    q == v || (q > 0 && on_path(parent(q), v))
}

/// The way up from `q` only meets nodes between the root and `q`.
pub proof fn lemma_on_path_range(q: int, v: int)
    requires
        q >= 0,
        on_path(q, v),
    ensures
        0 <= v <= q,
    decreases q,
{
    if q != v {
        lemma_on_path_range(parent(q), v);
    }
}

/// The way up from `q` that meets a node also meets its parent.
pub proof fn lemma_on_path_parent(q: int, v: int)
    requires
        v > 0,
        on_path(q, v),
    ensures
        on_path(q, parent(v)),
    decreases q,
{
    if q == v {
        assert(on_path(parent(q), parent(v)));
    } else {
        lemma_on_path_parent(parent(q), v);
    }
}

/// The way up continues from any node that it meets.
pub proof fn lemma_on_path_transitive(q: int, u: int, v: int)
    requires
        on_path(q, u),
        on_path(u, v),
    ensures
        on_path(q, v),
    decreases q,
{
    if q != u {
        lemma_on_path_transitive(parent(q), u, v);
    }
}

/// Of two nodes that the way up from `q` meets, the lower one has the upper
/// one on its own way up.
proof fn lemma_on_path_ordered(q: int, u: int, s: int)
    requires
        q >= 0,
        on_path(q, u),
        on_path(q, s),
        s < u,
    ensures
        on_path(parent(u), s),
    decreases q,
{
    lemma_on_path_range(q, u);
    if q != u {
        lemma_on_path_ordered(parent(q), u, s);
    }
}

/// The way up never meets both a node and its sibling.
pub proof fn lemma_sibling_off_path(q: int, u: int)
    requires
        q >= 0,
        u > 0,
        on_path(q, u),
    ensures
        !on_path(q, sibling(u)),
{
    let s = sibling(u);
    if on_path(q, s) {
        if s < u {
            lemma_on_path_ordered(q, u, s);
            lemma_on_path_range(parent(u), s);
        } else {
            lemma_on_path_ordered(q, s, u);
            lemma_on_path_range(parent(s), u);
        }
    }
}

/// Whether two leaf lists of one length hold the same leaves below node `v`.
pub open spec fn agree_below(a: Seq<Seq<u8>>, b: Seq<Seq<u8>>, v: int) -> bool {
    a.len() == b.len() && forall|t: int|
        on_path(#[trigger] leaf_position(a, t), v) ==> padded_leaf(a, t) == padded_leaf(b, t)
}

/// The digest of a node depends on the leaves below it alone.
pub proof fn lemma_node_depends_on_leaves_below(a: Seq<Seq<u8>>, b: Seq<Seq<u8>>, v: int)
    requires
        v >= 0,
        agree_below(a, b, v),
    ensures
        node_at(a, v) == node_at(b, v),
    decreases 2 * padded_size(a.len()) - v,
{
    let size = padded_size(a.len());
    if v + 1 >= size {
        let t = v + 1 - size;
        assert(on_path(leaf_position(a, t), v));
    } else {
        assert forall|c: int| c == 2 * v + 1 || c == 2 * v + 2 implies agree_below(a, b, c) by {
            assert forall|t: int|
                on_path(#[trigger] leaf_position(a, t), c) implies padded_leaf(a, t)
                == padded_leaf(b, t) by {
                lemma_on_path_parent(leaf_position(a, t), c);
            }
        }
        lemma_node_depends_on_leaves_below(a, b, 2 * v + 1);
        lemma_node_depends_on_leaves_below(a, b, 2 * v + 2);
    }
}

/// Replacing leaf `i` leaves the siblings on the way up from that leaf as
/// they were.
proof fn lemma_path_survives_update(leaves: Seq<Seq<u8>>, i: int, blob: Seq<u8>, u: int)
    requires
        0 <= i < leaves.len(),
        on_path(leaf_position(leaves, i), u),
    ensures
        path_from(leaves.update(i, blob), u) == path_from(leaves, u),
    decreases u,
{
    if u > 0 {
        let changed = leaves.update(i, blob);
        let q = leaf_position(leaves, i);
        let s = sibling(u);
        lemma_tree_depth_bounds(leaves.len());
        lemma_sibling_off_path(q, u);
        lemma_on_path_range(q, u);
        // Leaf `i` does not lie below the sibling.
        assert(agree_below(leaves, changed, s));
        lemma_node_depends_on_leaves_below(leaves, changed, s);
        lemma_on_path_parent(q, u);
        lemma_path_survives_update(leaves, i, blob, parent(u));
    }
}

/// Replacing one leaf by a different blob and rebuilding changes the root,
/// short of a collision of the leaf digest or of the pair hash on the way from
/// that leaf to the root.
pub proof fn lemma_changed_leaf_changes_root(leaves: Seq<Seq<u8>>, i: int, blob: Seq<u8>)
    requires
        0 <= i < leaves.len(),
        blob != leaves[i],
    ensures
        root_of(leaves.update(i, blob)) == root_of(leaves) ==> leaf_collision(blob, leaves[i])
            || path_collision(keccak256(blob), keccak256(leaves[i]), proof_of(leaves, i)),
{
    let changed = leaves.update(i, blob);
    lemma_own_proof_accepted(leaves, i);
    lemma_own_proof_accepted(changed, i);
    lemma_path_survives_update(leaves, i, blob, leaf_position(leaves, i));
    if root_of(changed) == root_of(leaves) && keccak256(blob) != keccak256(leaves[i]) {
        lemma_fold_injective(keccak256(blob), keccak256(leaves[i]), proof_of(leaves, i));
    }
}

/// The list with the leaves at `i` and `j` exchanged.
pub open spec fn swap_leaves(leaves: Seq<Seq<u8>>, i: int, j: int) -> Seq<Seq<u8>> {
    leaves.update(i, leaves[j]).update(j, leaves[i])
}

/// The siblings met on the way from node `q` up to node `v`, nearest first;
/// the sibling of `v` itself is not part of it.
pub open spec fn path_upto(leaves: Seq<Seq<u8>>, q: int, v: int) -> Seq<Seq<u8>>
    decreases q,
{
    if q <= 0 || q == v {
        Seq::empty()
    } else {
        seq![node_at(leaves, sibling(q))] + path_upto(leaves, parent(q), v)
    }
}

/// The root lies on every way up.
pub proof fn lemma_on_path_root(q: int)
    requires
        q >= 0,
    ensures
        on_path(q, 0),
    decreases q,
{
    if q > 0 {
        lemma_on_path_root(parent(q));
    }
}

/// The way up from `q` reaches a node `v` above `q` through one of the two
/// children of `v`.
proof fn lemma_on_path_child(q: int, v: int)
    requires
        on_path(q, v),
        q != v,
    ensures
        on_path(q, 2 * v + 1) || on_path(q, 2 * v + 2),
    decreases q,
{
    if parent(q) != v {
        lemma_on_path_child(parent(q), v);
    }
}

/// Folding the siblings between `q` and a node `v` above it into the digest
/// of `q` gives the digest of `v`.
proof fn lemma_path_reaches_node(leaves: Seq<Seq<u8>>, q: int, v: int)
    requires
        0 <= q < 2 * padded_size(leaves.len()) - 1,
        on_path(q, v),
    ensures
        fold_proof(node_at(leaves, q), path_upto(leaves, q, v)) == node_at(leaves, v),
    decreases q,
{
    if q > 0 && q != v {
        let p = parent(q);
        let s = sibling(q);
        assert(path_upto(leaves, q, v).skip(1) =~= path_upto(leaves, p, v));
        // `q` and `s` are the two children of `p`, in one order or the other.
        lemma_combine_commutative(node_at(leaves, q), node_at(leaves, s));
        assert(node_hash(node_at(leaves, q), node_at(leaves, s)) == node_at(leaves, p));
        lemma_path_reaches_node(leaves, p, v);
    }
}

/// The siblings between `q` and a node above it are the first ones of the
/// way from `q` to the root.
proof fn lemma_path_upto_is_prefix(leaves: Seq<Seq<u8>>, q: int, v: int)
    requires
        q >= 0,
        on_path(q, v),
    ensures
        path_upto(leaves, q, v).len() <= path_from(leaves, q).len(),
        path_upto(leaves, q, v) == path_from(leaves, q).take(
            path_upto(leaves, q, v).len() as int,
        ),
    decreases q,
{
    let short = path_upto(leaves, q, v);
    if q > 0 && q != v {
        lemma_path_upto_is_prefix(leaves, parent(q), v);
    }
    assert(short =~= path_from(leaves, q).take(short.len() as int));
}

/// Exchanging the leaves `i` and `j` leaves a node as it was if neither of
/// the two lies below it.
proof fn lemma_node_survives_swap(leaves: Seq<Seq<u8>>, i: int, j: int, w: int)
    requires
        0 <= i < leaves.len(),
        0 <= j < leaves.len(),
        w >= 0,
        !on_path(leaf_position(leaves, i), w),
        !on_path(leaf_position(leaves, j), w),
    ensures
        node_at(swap_leaves(leaves, i, j), w) == node_at(leaves, w),
{
    let swapped = swap_leaves(leaves, i, j);
    assert(agree_below(leaves, swapped, w));
    lemma_node_depends_on_leaves_below(leaves, swapped, w);
}

/// Exchanging the leaves `i` and `j` leaves the siblings between leaf `j` and
/// a node above it as they were, if leaf `i` does not lie below that node.
proof fn lemma_path_upto_survives_swap(leaves: Seq<Seq<u8>>, i: int, j: int, q: int, v: int)
    requires
        0 <= i < leaves.len(),
        0 <= j < leaves.len(),
        on_path(leaf_position(leaves, j), q),
        on_path(q, v),
        !on_path(leaf_position(leaves, i), v),
    ensures
        path_upto(swap_leaves(leaves, i, j), q, v) == path_upto(leaves, q, v),
    decreases q,
{
    if q > 0 && q != v {
        let qi = leaf_position(leaves, i);
        let qj = leaf_position(leaves, j);
        let s = sibling(q);
        lemma_tree_depth_bounds(leaves.len());
        lemma_sibling_off_path(qj, q);
        if on_path(qi, s) {
            lemma_on_path_parent(qi, s);
            lemma_on_path_transitive(qi, parent(q), v);
        }
        lemma_node_survives_swap(leaves, i, j, s);
        lemma_on_path_parent(qj, q);
        lemma_path_upto_survives_swap(leaves, i, j, parent(q), v);
    }
}

/// A node above leaf `j` but not above leaf `i` that keeps its digest when the
/// two leaves are exchanged shows a collision.
proof fn lemma_swap_changes_node(leaves: Seq<Seq<u8>>, i: int, j: int, v: int)
    requires
        0 <= i < leaves.len(),
        0 <= j < leaves.len(),
        i != j,
        leaves[i] != leaves[j],
        on_path(leaf_position(leaves, j), v),
        !on_path(leaf_position(leaves, i), v),
        node_at(swap_leaves(leaves, i, j), v) == node_at(leaves, v),
    ensures
        leaf_collision(leaves[i], leaves[j]) || path_collision(
            keccak256(leaves[i]),
            keccak256(leaves[j]),
            proof_of(leaves, j),
        ),
{
    let swapped = swap_leaves(leaves, i, j);
    let qj = leaf_position(leaves, j);
    let below = path_upto(leaves, qj, v);
    lemma_leaf_digest(leaves, j);
    lemma_leaf_digest(swapped, j);
    lemma_path_reaches_node(leaves, qj, v);
    lemma_path_reaches_node(swapped, qj, v);
    lemma_path_upto_survives_swap(leaves, i, j, qj, v);
    if keccak256(leaves[i]) != keccak256(leaves[j]) {
        lemma_fold_injective(keccak256(leaves[i]), keccak256(leaves[j]), below);
        lemma_path_upto_is_prefix(leaves, qj, v);
        lemma_collision_extends(
            keccak256(leaves[i]),
            keccak256(leaves[j]),
            proof_of(leaves, j),
            below.len() as int,
        );
    }
}

/// If the siblings above a node that lies over leaf `i` alone are the same
/// before and after the exchange of `i` and `j`, a collision shows.
proof fn lemma_swap_changes_path(leaves: Seq<Seq<u8>>, i: int, j: int, u: int)
    requires
        0 <= i < leaves.len(),
        0 <= j < leaves.len(),
        i != j,
        leaves[i] != leaves[j],
        on_path(leaf_position(leaves, i), u),
        !on_path(leaf_position(leaves, j), u),
        path_from(swap_leaves(leaves, i, j), u) == path_from(leaves, u),
    ensures
        leaf_collision(leaves[i], leaves[j]) || path_collision(
            keccak256(leaves[i]),
            keccak256(leaves[j]),
            proof_of(leaves, j),
        ),
    decreases u,
{
    let swapped = swap_leaves(leaves, i, j);
    let qi = leaf_position(leaves, i);
    let qj = leaf_position(leaves, j);
    lemma_tree_depth_bounds(leaves.len());
    lemma_on_path_range(qi, u);
    lemma_on_path_root(qj);
    let p = parent(u);
    let s = sibling(u);
    let before = path_from(leaves, u);
    let after = path_from(swapped, u);
    // Equal paths have equal heads and equal tails.
    assert(before[0] == node_at(leaves, s) && after[0] == node_at(swapped, s));
    assert(before.skip(1) =~= path_from(leaves, p));
    assert(after.skip(1) =~= path_from(swapped, p));
    lemma_on_path_parent(qi, u);
    if on_path(qj, p) {
        lemma_on_path_child(qj, p);
        lemma_sibling_off_path(qi, u);
        lemma_swap_changes_node(leaves, i, j, s);
    } else {
        lemma_swap_changes_path(leaves, i, j, p);
    }
}

/// Exchanging two different leaves and rebuilding changes the proof at each
/// of the two positions, short of a collision of the leaf digest or of the
/// pair hash: a proof at position `i` that is the same before and after shows
/// one.
pub proof fn lemma_swap_changes_proof(leaves: Seq<Seq<u8>>, i: int, j: int)
    requires
        0 <= i < leaves.len(),
        0 <= j < leaves.len(),
        i != j,
        leaves[i] != leaves[j],
    ensures
        proof_of(swap_leaves(leaves, i, j), i) == proof_of(leaves, i) ==> leaf_collision(
            leaves[i],
            leaves[j],
        ) || path_collision(keccak256(leaves[i]), keccak256(leaves[j]), proof_of(leaves, j)),
{
    let qi = leaf_position(leaves, i);
    let qj = leaf_position(leaves, j);
    lemma_tree_depth_bounds(leaves.len());
    if on_path(qj, qi) {
        lemma_on_path_range(parent(qj), qi);
    }
    if proof_of(swap_leaves(leaves, i, j), i) == proof_of(leaves, i) {
        lemma_swap_changes_path(leaves, i, j, qi);
    }
}

} // verus!
