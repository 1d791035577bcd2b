//! The two ways in which a caller commits to the transactions of a block:
//! to their identifiers, or to the serialised records themselves.

use crate::digest::{hash_eq, sha256, string_to_crypto_hash, MerkleTreeData, MerkleTreeHash};
use crate::merkle::{MerkleTree, MerkleTreeProof, MerkleTreeRoot};
use crate::model::{blobs, digests, padded_size, proof_of, root_of, tree_of};
use vstd::prelude::*;
use vstd::slice::slice_to_vec;
use vstd::utf8::encode_utf8;

verus! {

/// The JSON text that `serde_json` writes for a 32-byte hash of type
/// `ethers::types::H256`.
pub uninterp spec fn json_h256(hash: Seq<u8>) -> Seq<char>;

/// Serialises an identifier as an `ethers::types::H256` with
/// `serde_json::to_string`.
///
/// Trusted: the text depends on the 32 bytes alone. `H256` serialises itself
/// as one string, which `to_string` cannot refuse, so the `Ok` arm is the only
/// one that is ever taken.
#[verifier::external_body]
fn serialize_hash(hash: &MerkleTreeHash) -> (json: String)
    ensures
        json@ == json_h256(hash@),
{
    serde_json::to_string(&ethers::types::H256(*hash)).unwrap()
}

/// The leaf that stands for the identifier `hash`: the SHA-256 digest of the
/// identifier's JSON text.
pub open spec fn identifier_leaf(hash: Seq<u8>) -> Seq<u8> {
    sha256(encode_utf8(json_h256(hash)))
}

/// The leaves that stand for a list of identifiers, in the same order.
pub open spec fn identifier_leaves(hashes: Seq<Seq<u8>>) -> Seq<Seq<u8>> {
    Seq::new(hashes.len(), |i: int| identifier_leaf(hashes[i]))
}

/// The identifiers of a block: its transaction hashes in order, then the
/// transactions root as one more.
pub open spec fn block_identifiers(transactions: Seq<Seq<u8>>, transactions_root: Seq<u8>) -> Seq<
    Seq<u8>,
> {
    transactions.push(transactions_root)
}

/// The first position at which `target` stands in `hashes`, or the length of
/// `hashes` if it stands nowhere.
pub open spec fn position_of(hashes: Seq<Seq<u8>>, target: Seq<u8>) -> int
    decreases hashes.len(),
{
    if hashes.len() == 0 {
        0
    } else if hashes[0] == target {
        0
    } else {
        1 + position_of(hashes.skip(1), target)
    }
}

/// The position that a caller asks for: that of the given identifier, or the
/// first one if none is given.
pub open spec fn wanted_position(hashes: Seq<Seq<u8>>, target: Option<Seq<u8>>) -> int {
    match target {
        Some(hash) => position_of(hashes, hash),
        None => 0,
    }
}

/// The position of the last entry of `indices` that equals `wanted`, or 0 if
/// there is none.
pub open spec fn last_position(indices: Seq<u64>, wanted: u64) -> int
    decreases indices.len(),
{
    if indices.len() == 0 {
        0
    } else if indices.last() == wanted {
        indices.len() - 1
    } else {
        last_position(indices.drop_last(), wanted)
    }
}

/// The record that a caller asks for: the last one with the given transaction
/// index, or the first record if there is none or no index is given.
pub open spec fn wanted_record(indices: Seq<u64>, index: Option<u64>) -> int {
    match index {
        Some(wanted) => last_position(indices, wanted),
        None => 0,
    }
}

/// The position is within the list exactly if the target occurs, and it is
/// the first occurrence.
pub proof fn lemma_position_of(hashes: Seq<Seq<u8>>, target: Seq<u8>)
    ensures
        0 <= position_of(hashes, target) <= hashes.len(),
        position_of(hashes, target) < hashes.len() ==> hashes[position_of(hashes, target)]
            == target,
        forall|m: int| 0 <= m < position_of(hashes, target) ==> hashes[m] != target,
        hashes.contains(target) <==> position_of(hashes, target) < hashes.len(),
    decreases hashes.len(),
{
    if hashes.len() > 0 && hashes[0] != target {
        let rest = hashes.skip(1);
        lemma_position_of(rest, target);
        assert forall|m: int| 0 <= m < position_of(hashes, target) implies hashes[m]
            != target by {
            if m > 0 {
                assert(hashes[m] == rest[m - 1]);
            }
        }
    }
}

/// The last position is within a non-empty list, and holds the wanted index
/// if any entry does.
pub proof fn lemma_last_position(indices: Seq<u64>, wanted: u64)
    ensures
        0 <= last_position(indices, wanted),
        indices.len() > 0 ==> last_position(indices, wanted) < indices.len(),
        indices.contains(wanted) ==> indices[last_position(indices, wanted)] == wanted,
        forall|m: int|
            last_position(indices, wanted) < m < indices.len() ==> indices[m] != wanted,
    decreases indices.len(),
{
    if indices.len() > 0 && indices.last() != wanted {
        let front = indices.drop_last();
        lemma_last_position(front, wanted);
        if indices.contains(wanted) {
            let k = choose|k: int| 0 <= k < indices.len() && indices[k] == wanted;
            assert(front[k] == wanted);
        }
        assert forall|m: int|
            last_position(indices, wanted) < m < indices.len() implies indices[m] != wanted by {
            if m < front.len() {
                assert(indices[m] == front[m]);
            }
        }
    }
}

/// Where `target` first stands in `hashes`, if anywhere.
pub fn find_hash(hashes: &Vec<MerkleTreeHash>, target: &MerkleTreeHash) -> (found: Option<usize>)
    ensures
        found == (if position_of(digests(hashes@), target@) < hashes.len() {
            Some(position_of(digests(hashes@), target@) as usize)
        } else {
            None
        }),
        found is Some <==> digests(hashes@).contains(target@),
{
    let ghost all = digests(hashes@);
    let mut i: usize = 0;
    proof {
        assert(all.skip(0) =~= all);
        lemma_position_of(all, target@);
    }
    while i < hashes.len()
        invariant
            i <= hashes.len(),
            all == digests(hashes@),
            position_of(all, target@) == i + position_of(all.skip(i as int), target@),
        decreases hashes.len() - i,
    {
        proof {
            assert(all.skip(i as int).skip(1) =~= all.skip(i + 1));
        }
        if hash_eq(&hashes[i], target) {
            return Some(i);
        }
        i = i + 1;
    }
    None
}

/// Turns each identifier into its leaf: the identifier is serialised as JSON
/// and the text hashed with SHA-256.
pub fn data_slice(datas: &Vec<MerkleTreeHash>) -> (leaves: Vec<MerkleTreeData>)
    ensures
        leaves.len() == datas.len(),
        blobs(leaves@) == identifier_leaves(digests(datas@)),
{
    let mut leaves: Vec<MerkleTreeData> = Vec::new();
    let mut i: usize = 0;
    while i < datas.len()
        invariant
            i <= datas.len(),
            leaves.len() == i,
            forall|k: int| 0 <= k < i ==> (#[trigger] leaves[k])@ == identifier_leaf(datas@[k]@),
        decreases datas.len() - i,
    {
        let json = serialize_hash(&datas[i]);
        let digest = string_to_crypto_hash(json.as_str());
        leaves.push(slice_to_vec(digest.as_slice()));
        i = i + 1;
    }
    proof {
        assert(blobs(leaves@) =~= identifier_leaves(digests(datas@)));
    }
    leaves
}

/// The commitment to a block's identifiers, and the proof of one of them.
///
/// The identifiers are the transaction hashes in order, followed by the
/// transactions root. Each becomes a leaf as `data_slice` says, and the tree
/// is built over these leaves. The proof returned is that of the first
/// position at which `transaction_hash` stands, or of position 0 where none is
/// asked for. An identifier that is asked for has to be among them.
pub fn get_hash_merkle(
    transactions: &Vec<MerkleTreeHash>,
    transactions_root: &MerkleTreeHash,
    transaction_hash: Option<MerkleTreeHash>,
) -> (commitment: (MerkleTreeRoot, MerkleTreeProof))
    requires
        2 * padded_size((transactions.len() + 1) as nat) - 1 <= usize::MAX,
        transaction_hash matches Some(hash) ==> block_identifiers(
            digests(transactions@),
            transactions_root@,
        ).contains(hash@),
    ensures
        ({
            let hashes = block_identifiers(digests(transactions@), transactions_root@);
            let wanted = match transaction_hash {
                Some(hash) => Some(hash@),
                None => None,
            };
            &&& commitment.0@ == root_of(identifier_leaves(hashes))
            &&& digests(commitment.1@) == proof_of(
                identifier_leaves(hashes),
                wanted_position(hashes, wanted),
            )
        }),
{
    let mut tx_hashs: Vec<MerkleTreeHash> = Vec::new();
    let mut i: usize = 0;
    while i < transactions.len()
        invariant
            i <= transactions.len(),
            tx_hashs@ == transactions@.take(i as int),
        decreases transactions.len() - i,
    {
        tx_hashs.push(transactions[i]);
        proof {
            assert(tx_hashs@ =~= transactions@.take(i + 1));
        }
        i = i + 1;
    }
    tx_hashs.push(*transactions_root);
    let ghost hashes = block_identifiers(digests(transactions@), transactions_root@);
    proof {
        assert(transactions@.take(transactions.len() as int) =~= transactions@);
        assert(digests(tx_hashs@) =~= hashes);
    }
    let index: usize = match transaction_hash {
        Some(hash) => {
            proof {
                lemma_position_of(hashes, hash@);
            }
            let found = find_hash(&tx_hashs, &hash);
            match found {
                Some(position) => position,
                None => 0,
            }
        },
        None => 0,
    };
    let hash_items = data_slice(&tx_hashs);
    let mut merkle = MerkleTree::build(&hash_items);
    proof {
        let leaves = identifier_leaves(hashes);
        assert(tree_of(leaves).proofs[index as int] == proof_of(leaves, index as int));
    }
    let proof = merkle.proofs.swap_remove(index);
    (merkle.root, proof)
}

/// The commitment to a block's serialised records, with the proof and the
/// blob of one of them.
///
/// `items[k]` is the serialised record of the transaction whose index within
/// the block is `tx_indices[k]`. The tree is built over `items`. The record
/// returned is the last one whose transaction index is `index`, or the first
/// record where there is none or no index is asked for.
pub fn get_root_merkle(
    items: &Vec<MerkleTreeData>,
    tx_indices: &Vec<u64>,
    index: Option<u64>,
) -> (commitment: (MerkleTreeRoot, MerkleTreeProof, MerkleTreeData))
    requires
        items.len() >= 1,
        items.len() == tx_indices.len(),
        2 * padded_size(items.len() as nat) - 1 <= usize::MAX,
    ensures
        commitment.0@ == root_of(blobs(items@)),
        digests(commitment.1@) == proof_of(blobs(items@), wanted_record(tx_indices@, index)),
        commitment.2@ == items@[wanted_record(tx_indices@, index)]@,
        0 <= wanted_record(tx_indices@, index) < items.len(),
{
    let mut i: usize = 0;
    match index {
        Some(wanted) => {
            let mut count: usize = 0;
            while count < tx_indices.len()
                invariant
                    count <= tx_indices.len(),
                    i as int == last_position(tx_indices@.take(count as int), wanted),
                decreases tx_indices.len() - count,
            {
                proof {
                    assert(tx_indices@.take(count + 1).drop_last() =~= tx_indices@.take(
                        count as int,
                    ));
                }
                if tx_indices[count] == wanted {
                    i = count;
                }
                count = count + 1;
            }
            proof {
                assert(tx_indices@.take(tx_indices.len() as int) =~= tx_indices@);
                lemma_last_position(tx_indices@, wanted);
            }
        },
        None => {},
    }
    let mut merkle = MerkleTree::build(items);
    proof {
        let leaves = blobs(items@);
        assert(tree_of(leaves).proofs[i as int] == proof_of(leaves, i as int));
    }
    let proof = merkle.proofs.swap_remove(i);
    let item = slice_to_vec(items[i].as_slice());
    (merkle.root, proof, item)
}

} // verus!
