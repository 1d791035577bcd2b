use eth_merkle::digest::{
    combine, hash_eq, hash_less, keccak256_array, sort_hash_pair, string_to_crypto_hash,
    MerkleTreeData, MerkleTreeHash,
};
use eth_merkle::merkle::{tree_fits, MerkleTree, MerkleTreeProof, MerkleTreeRoot};

fn single_byte_leaves(count: u8) -> Vec<MerkleTreeData> {
    let mut items = Vec::<MerkleTreeData>::new();
    for i in 0..count {
        items.push(vec![i]);
    }
    items
}

fn pair_json(first: &MerkleTreeHash, second: &MerkleTreeHash) -> String {
    let left: Vec<String> = first.iter().map(|b| format!("{}", b)).collect();
    let right: Vec<String> = second.iter().map(|b| format!("{}", b)).collect();
    format!("[[{}],[{}]]", left.join(","), right.join(","))
}

#[test]
pub fn correct_proofs() {
    let mut items = Vec::<MerkleTreeData>::new();

    for i in 0..8 {
        items.push(vec![i]);
    }

    let merkle_tree = MerkleTree::build(&items);

    assert_eq!(merkle_tree.proofs.len(), 8);

    for proof in merkle_tree.proofs {
        assert_eq!(proof.len(), 3);
    }
}

#[test]
pub fn verify_correct_data() {
    let mut items = Vec::<MerkleTreeData>::new();

    for i in 0..4 {
        items.push(vec![i]);
    }

    let merkle_tree = MerkleTree::build(&items);
    println!("root - {:?}", merkle_tree.root);
    println!("proof - {:?} ---  {:?}", merkle_tree.proofs[0], items[0]);

    for i in 0..items.len() {
        assert!(merkle_tree.root.verify(&items[i], &merkle_tree.proofs[i]));
    }
}

#[test]
pub fn verify_incorrect_data() {
    let mut items = Vec::<MerkleTreeData>::new();

    for i in 0..4 {
        items.push(vec![i]);
    }

    let merkle_tree = MerkleTree::build(&items);

    assert!(!merkle_tree.root.verify(&items[0], &merkle_tree.proofs[2]));
}

#[test]
fn test_make_crypt_hash() {
    let s = "abcd".to_string();
    for x in 0..10 {
        let stx = format!("{}:{}", x, &s);
        let hash = string_to_crypto_hash(&stx);
        println!("hash - 0x{}", hex::encode(hash));
    }
}

#[test]
fn testx() {
    let s = "abcd";
    let hash = keccak256_array(s.as_bytes());
    println!("h--{:?} ", hash);
}

#[test]
fn keccak256_of_known_inputs() {
    assert_eq!(
        hex::encode(keccak256_array(b"")),
        "c5d2460186f7233c927e7db2dcc703c0e500b653ca82273b7bfad8045d85a470"
    );
    assert_eq!(
        hex::encode(keccak256_array(b"abc")),
        "4e03657aea45a94fc7d47ba826c8d667c0d1e6e33a64a036ec44f58fa12d6c45"
    );
}

#[test]
fn sha256_of_known_inputs() {
    assert_eq!(
        hex::encode(string_to_crypto_hash("")),
        "e3b0c44298fc1c149afbf4c8996fb92427ae41e4649b934ca495991b7852b855"
    );
    assert_eq!(
        hex::encode(string_to_crypto_hash("abc")),
        "ba7816bf8f01cfea414140de5dae2223b00361a396177a9cb410ff61f20015ad"
    );
}

#[test]
fn sha256_hashes_the_utf8_bytes() {
    // U+00E9 is the two bytes C3 A9.
    let hash = string_to_crypto_hash("\u{e9}");
    assert_ne!(hash, string_to_crypto_hash("e"));
    assert_ne!(hash, string_to_crypto_hash(""));
    assert_eq!(hash, string_to_crypto_hash(std::str::from_utf8(&[0xc3, 0xa9]).unwrap()));
}

#[test]
fn hash_less_is_byte_lexicographic() {
    let zero = [0u8; 32];
    let mut low_last = [0u8; 32];
    low_last[31] = 1;
    let mut high_first = [0u8; 32];
    high_first[0] = 1;
    let mut big = [0xffu8; 32];
    big[0] = 0;

    assert!(hash_less(&zero, &low_last));
    assert!(!hash_less(&low_last, &zero));
    assert!(!hash_less(&zero, &zero));
    assert!(hash_less(&low_last, &high_first));
    // The first byte decides, whatever follows.
    assert!(hash_less(&big, &high_first));
    assert!(!hash_less(&high_first, &big));
    assert_eq!(hash_less(&big, &high_first), big < high_first);
}

#[test]
fn hash_eq_compares_all_bytes() {
    let a = keccak256_array(b"a");
    let mut b = a;
    assert!(hash_eq(&a, &b));
    b[31] ^= 1;
    assert!(!hash_eq(&a, &b));
    b[31] ^= 1;
    b[0] ^= 0x80;
    assert!(!hash_eq(&a, &b));
}

#[test]
fn sort_hash_pair_puts_the_smaller_first() {
    let mut small = [7u8; 32];
    small[5] = 6;
    let large = [7u8; 32];

    assert_eq!(sort_hash_pair(&small, &large), (small, large));
    assert_eq!(sort_hash_pair(&large, &small), (small, large));
    assert_eq!(sort_hash_pair(&large, &large), (large, large));
}

#[test]
fn combine_hashes_the_json_of_the_ordered_pair() {
    let a = keccak256_array(&[1]);
    let b = keccak256_array(&[2]);
    let (first, second) = sort_hash_pair(&a, &b);
    let expected = keccak256_array(pair_json(&first, &second).as_bytes());

    assert_eq!(combine(&a, &b), expected);
    assert_ne!(combine(&a, &b), a);
    assert_ne!(combine(&a, &b), b);
}

#[test]
fn combine_of_fixed_digests() {
    let zero = [0u8; 32];
    let mut one = [0u8; 32];
    one[31] = 1;
    let text = format!(
        "[[{}0],[{}1]]",
        "0,".repeat(31),
        "0,".repeat(31)
    );
    assert_eq!(combine(&one, &zero), keccak256_array(text.as_bytes()));
}

#[test]
fn combine_is_commutative() {
    for x in 0..6u8 {
        for y in 0..6u8 {
            let a = keccak256_array(&[x]);
            let b = keccak256_array(&[y, y]);
            assert_eq!(combine(&a, &b), combine(&b, &a));
        }
    }
    let same = keccak256_array(b"same");
    assert_eq!(combine(&same, &same), keccak256_array(pair_json(&same, &same).as_bytes()));
}

#[test]
fn root_new_keeps_the_hash() {
    let hash = keccak256_array(b"root");
    let root = MerkleTreeRoot::new(hash);
    assert_eq!(root.hash, hash);
    assert_eq!(root.clone(), root);
}

#[test]
fn eight_leaves() {
    let items = single_byte_leaves(8);
    let tree = MerkleTree::build(&items);

    assert_eq!(tree.proofs.len(), 8);
    for proof in &tree.proofs {
        assert_eq!(proof.len(), 3);
    }
    assert!(tree.root.verify(&vec![3], &tree.proofs[3]));
    assert!(!tree.root.verify(&vec![0], &tree.proofs[2]));
}

#[test]
fn four_leaves_need_no_padding() {
    let items = single_byte_leaves(4);
    let tree = MerkleTree::build(&items);

    assert_eq!(tree.proofs.len(), 4);
    for proof in &tree.proofs {
        assert_eq!(proof.len(), 2);
    }
    let again = MerkleTree::build(&items);
    assert_eq!(again.root, tree.root);
    assert_eq!(again.proofs, tree.proofs);
}

#[test]
fn single_leaf() {
    let items: Vec<MerkleTreeData> = vec![vec![9]];
    let tree = MerkleTree::build(&items);

    assert_eq!(tree.proofs.len(), 1);
    assert_eq!(tree.proofs[0].len(), 0);
    assert_eq!(tree.root.hash, keccak256_array(&[9]));
    assert!(tree.root.verify(&vec![9], &MerkleTreeProof::new()));
    assert!(!tree.root.verify(&vec![8], &MerkleTreeProof::new()));
}

#[test]
fn two_leaves_by_hand() {
    let items: Vec<MerkleTreeData> = vec![vec![1, 2, 3], vec![4, 5]];
    let tree = MerkleTree::build(&items);
    let left = keccak256_array(&[1, 2, 3]);
    let right = keccak256_array(&[4, 5]);

    assert_eq!(tree.root.hash, combine(&left, &right));
    assert_eq!(tree.proofs, vec![vec![right], vec![left]]);
}

#[test]
fn four_leaves_by_hand() {
    let items = single_byte_leaves(4);
    let tree = MerkleTree::build(&items);
    let leaf: Vec<MerkleTreeHash> = items.iter().map(|b| keccak256_array(b)).collect();
    let low = combine(&leaf[0], &leaf[1]);
    let high = combine(&leaf[2], &leaf[3]);

    assert_eq!(tree.root.hash, combine(&low, &high));
    // Siblings come nearest first: the other leaf, then the other half.
    assert_eq!(tree.proofs[0], vec![leaf[1], high]);
    assert_eq!(tree.proofs[1], vec![leaf[0], high]);
    assert_eq!(tree.proofs[2], vec![leaf[3], low]);
    assert_eq!(tree.proofs[3], vec![leaf[2], low]);
}

#[test]
fn three_leaves_are_padded_with_an_empty_blob() {
    let items = single_byte_leaves(3);
    let tree = MerkleTree::build(&items);
    let leaf: Vec<MerkleTreeHash> = items.iter().map(|b| keccak256_array(b)).collect();
    let padding = keccak256_array(&[]);
    let low = combine(&leaf[0], &leaf[1]);
    let high = combine(&leaf[2], &padding);

    assert_eq!(tree.proofs.len(), 3);
    assert_eq!(tree.root.hash, combine(&low, &high));
    assert_eq!(tree.proofs[2], vec![padding, low]);
    assert_eq!(tree.proofs[0], vec![leaf[1], high]);

    // The same root as the list with the empty blob written out.
    let mut padded = items.clone();
    padded.push(Vec::new());
    let full = MerkleTree::build(&padded);
    assert_eq!(full.root, tree.root);
    assert_eq!(full.proofs.len(), 4);
    assert_eq!(&full.proofs[..3], &tree.proofs[..]);
}

#[test]
fn proof_count_and_length_for_each_size() {
    let depths = [0usize, 1, 2, 2, 3, 3, 3, 3, 4, 4, 4, 4, 4, 4, 4, 4, 5];
    for count in 1..=17u8 {
        let items = single_byte_leaves(count);
        let tree = MerkleTree::build(&items);
        assert_eq!(tree.proofs.len(), count as usize);
        for proof in &tree.proofs {
            assert_eq!(proof.len(), depths[count as usize - 1]);
        }
    }
}

#[test]
fn every_leaf_verifies_with_its_own_proof() {
    for count in 1..=11u8 {
        let items = single_byte_leaves(count);
        let tree = MerkleTree::build(&items);
        for i in 0..items.len() {
            assert!(tree.root.verify(&items[i], &tree.proofs[i]));
        }
    }
}

#[test]
fn no_leaf_verifies_with_the_proof_of_another() {
    for count in 2..=9u8 {
        let items = single_byte_leaves(count);
        let tree = MerkleTree::build(&items);
        for i in 0..items.len() {
            for j in 0..items.len() {
                assert_eq!(tree.root.verify(&items[i], &tree.proofs[j]), i == j);
            }
        }
    }
}

#[test]
fn equal_leaves_share_their_proofs_between_siblings() {
    let items: Vec<MerkleTreeData> = vec![vec![0], vec![0]];
    let tree = MerkleTree::build(&items);
    assert!(tree.root.verify(&items[0], &tree.proofs[1]));
}

#[test]
fn tampering_is_rejected() {
    let items = single_byte_leaves(8);
    let tree = MerkleTree::build(&items);

    let mut proof = tree.proofs[5].clone();
    proof[1][0] ^= 1;
    assert!(!tree.root.verify(&items[5], &proof));

    let mut short = tree.proofs[5].clone();
    short.pop();
    assert!(!tree.root.verify(&items[5], &short));

    let mut reordered = tree.proofs[5].clone();
    reordered.swap(0, 2);
    assert!(!tree.root.verify(&items[5], &reordered));

    let mut root = tree.root.clone();
    root.hash[31] ^= 1;
    assert!(!root.verify(&items[5], &tree.proofs[5]));

    assert!(!tree.root.verify(&vec![5, 0], &tree.proofs[5]));
}

#[test]
fn changing_one_byte_of_a_leaf_changes_the_root() {
    let items: Vec<MerkleTreeData> = vec![vec![1, 2], vec![3, 4], vec![5, 6], vec![7, 8], vec![9]];
    let tree = MerkleTree::build(&items);
    for i in 0..items.len() {
        for k in 0..items[i].len() {
            let mut changed = items.clone();
            changed[i][k] ^= 0x10;
            let other = MerkleTree::build(&changed);
            assert_ne!(other.root, tree.root);
            // The siblings of the changed leaf are what they were.
            assert_eq!(other.proofs[i], tree.proofs[i]);
        }
    }
}

#[test]
fn exchanging_two_leaves_changes_their_proofs() {
    let items = single_byte_leaves(6);
    let tree = MerkleTree::build(&items);
    for i in 0..items.len() {
        for j in 0..items.len() {
            if i != j {
                let mut swapped = items.clone();
                swapped.swap(i, j);
                let other = MerkleTree::build(&swapped);
                assert_ne!(other.proofs[i], tree.proofs[i]);
                assert_ne!(other.proofs[j], tree.proofs[j]);
            }
        }
    }
}

#[test]
fn the_order_of_the_leaves_matters() {
    let items = single_byte_leaves(4);
    let mut moved = items.clone();
    moved.swap(1, 2);
    assert_ne!(MerkleTree::build(&moved).root, MerkleTree::build(&items).root);

    // Two siblings may change places: the pair hash takes no side.
    let mut mirrored = items.clone();
    mirrored.swap(0, 1);
    assert_eq!(MerkleTree::build(&mirrored).root, MerkleTree::build(&items).root);
}

#[test]
fn leaves_are_hashed_as_they_are() {
    // A leaf that is itself a digest is hashed once more.
    let inner = string_to_crypto_hash("identifier");
    let items: Vec<MerkleTreeData> = vec![inner.to_vec()];
    let tree = MerkleTree::build(&items);
    assert_eq!(tree.root.hash, keccak256_array(&inner));
    assert_ne!(tree.root.hash, inner);
}

#[test]
fn tree_fits_from_one_leaf_up_to_the_address_space() {
    assert!(!tree_fits(0));
    assert!(tree_fits(1));
    assert!(tree_fits(2));
    assert!(tree_fits(1000));
    // The padded size may be half the address space, and no more.
    let half = (usize::MAX / 2) + 1;
    assert!(tree_fits(half));
    assert!(tree_fits(half / 2 + 1));
    assert!(!tree_fits(half + 1));
    assert!(!tree_fits(usize::MAX));
}

#[test]
fn try_build_refuses_the_empty_list() {
    assert!(MerkleTree::try_build(&Vec::new()).is_none());

    let items = single_byte_leaves(5);
    let tree = MerkleTree::try_build(&items).unwrap();
    let same = MerkleTree::build(&items);
    assert_eq!(tree.root, same.root);
    assert_eq!(tree.proofs, same.proofs);
}
