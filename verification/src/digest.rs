//! Digests, their byte-lexicographic order and the order-independent pair hash.

use sha2::Sha256;
use sha3::{Digest, Keccak256};
use vstd::prelude::*;
use vstd::string::StringSliceAdditionalSpecFns;

verus! {

/// A leaf as the caller hands it over.
pub type MerkleTreeData = Vec<u8>;

/// A 32-byte digest.
pub type MerkleTreeHash = [u8; 32];

/// The Keccak-256 digest of `data`.
pub uninterp spec fn keccak256(data: Seq<u8>) -> Seq<u8>;

/// The SHA-256 digest of `data`.
pub uninterp spec fn sha256(data: Seq<u8>) -> Seq<u8>;

/// Hashes `data` with `Digest::digest` of `sha3::Keccak256`.
///
/// Trusted: the 32 bytes that come back are the Keccak-256 digest of exactly
/// the bytes of `data`, and depend on nothing else.
#[verifier::external_body]
pub fn keccak256_array(data: &[u8]) -> (digest: MerkleTreeHash)
    ensures
        digest@ == keccak256(data@),
{
    Keccak256::digest(data).into()
}

/// Hashes `data` with `Digest::digest` of `sha2::Sha256`.
///
/// Trusted: the 32 bytes that come back are the SHA-256 digest of exactly the
/// bytes of `data`, and depend on nothing else.
#[verifier::external_body]
fn sha256_array(data: &[u8]) -> (digest: MerkleTreeHash)
    ensures
        digest@ == sha256(data@),
{
    Sha256::digest(data).into()
}

/// The SHA-256 digest of the UTF-8 bytes of `input`.
pub fn string_to_crypto_hash(input: &str) -> (digest: MerkleTreeHash)
    ensures
        digest@ == sha256(input.spec_bytes()),
{
    sha256_array(input.as_bytes())
}

/// The JSON text that `serde_json` writes for the pair `(first, second)` of
/// byte arrays.
pub uninterp spec fn json_pair(first: Seq<u8>, second: Seq<u8>) -> Seq<u8>;

/// Serialises a pair of digests with `serde_json::to_vec`.
///
/// Trusted: the text depends on the bytes of the two digests alone, in the
/// order given. `to_vec` fails only where a `Serialize` impl fails or a map has
/// a key that is no string; a tuple of two byte arrays is neither, and the
/// writer is a `Vec`, so the `Ok` arm is the only one that is ever taken.
#[verifier::external_body]
fn serialize_pair(pair: &(MerkleTreeHash, MerkleTreeHash)) -> (json: Vec<u8>)
    ensures
        json@ == json_pair(pair.0@, pair.1@),
{
    serde_json::to_vec(pair).unwrap()
}

/// Byte-lexicographic "strictly less": the first byte at which the two
/// sequences differ decides, and a proper prefix is less than what extends it.
pub open spec fn lex_less(a: Seq<u8>, b: Seq<u8>) -> bool
    decreases a.len(),
{
    if b.len() == 0 {
        false
    } else if a.len() == 0 {
        true
    } else if a[0] != b[0] {
        a[0] < b[0]
    } else {
        lex_less(a.skip(1), b.skip(1))
    }
}

/// The pair with the smaller digest first.
pub open spec fn ordered_pair(a: Seq<u8>, b: Seq<u8>) -> (Seq<u8>, Seq<u8>) {
    if lex_less(a, b) {
        (a, b)
    } else {
        (b, a)
    }
}

/// The digest of an inner node whose children carry `a` and `b`: the
/// Keccak-256 digest of the JSON text of the ordered pair.
pub open spec fn node_hash(a: Seq<u8>, b: Seq<u8>) -> Seq<u8> {
    let pair = ordered_pair(a, b);
    keccak256(json_pair(pair.0, pair.1))
}

/// Of two different sequences exactly one is less than the other, and no
/// sequence is less than itself.
pub proof fn lemma_lex_less_total(a: Seq<u8>, b: Seq<u8>)
    ensures
        lex_less(a, b) ==> !lex_less(b, a),
        !lex_less(a, b) && !lex_less(b, a) ==> a == b,
    decreases a.len(),
{
    if a.len() == 0 || b.len() == 0 {
        if a.len() == 0 && b.len() == 0 {
            assert(a =~= b);
        }
    } else if a[0] == b[0] {
        lemma_lex_less_total(a.skip(1), b.skip(1));
        if a.skip(1) == b.skip(1) {
            assert forall|i: int| 0 <= i < a.len() implies a[i] == b[i] by {
                if i > 0 {
                    assert(a[i] == a.skip(1)[i - 1]);
                    assert(b[i] == b.skip(1)[i - 1]);
                }
            }
            assert(a =~= b);
        }
    }
}

/// The order of the two arguments does not matter to the pair that comes out.
pub proof fn lemma_ordered_pair_symmetric(a: Seq<u8>, b: Seq<u8>)
    ensures
        ordered_pair(a, b) == ordered_pair(b, a),
{
    lemma_lex_less_total(a, b);
}

/// Pair hashing is commutative: `combine(a, b)` and `combine(b, a)` are the
/// same digest, for all digests `a` and `b`.
pub proof fn lemma_combine_commutative(a: Seq<u8>, b: Seq<u8>)
    ensures
        node_hash(a, b) == node_hash(b, a),
{
    lemma_ordered_pair_symmetric(a, b);
}

/// Whether `first` is byte-lexicographically less than `second`.
pub fn hash_less(first: &MerkleTreeHash, second: &MerkleTreeHash) -> (less: bool)
    ensures
        less == lex_less(first@, second@),
{
    let mut i: usize = 0;
    proof {
        assert(first@.skip(0) =~= first@);
        assert(second@.skip(0) =~= second@);
    }
    while i < 32
        invariant
            i <= 32,
            first@.len() == 32,
            second@.len() == 32,
            lex_less(first@, second@) == lex_less(first@.skip(i as int), second@.skip(i as int)),
        decreases 32 - i,
    {
        let x: u8 = first[i];
        let y: u8 = second[i];
        proof {
            let a = first@.skip(i as int);
            let b = second@.skip(i as int);
            assert(a.skip(1) =~= first@.skip(i + 1));
            assert(b.skip(1) =~= second@.skip(i + 1));
        }
        if x != y {
            return x < y;
        }
        i = i + 1;
    }
    false
}

/// Whether two digests hold the same bytes.
pub fn hash_eq(a: &MerkleTreeHash, b: &MerkleTreeHash) -> (same: bool)
    ensures
        same == (a@ == b@),
{
    let mut i: usize = 0;
    while i < 32
        invariant
            i <= 32,
            forall|j: int| 0 <= j < i ==> a@[j] == b@[j],
        decreases 32 - i,
    {
        if a[i] != b[i] {
            return false;
        }
        i = i + 1;
    }
    proof {
        assert(a@ =~= b@);
    }
    true
}

/// Orders a pair of digests: the byte-lexicographically smaller one comes
/// first. Equal digests stay as they are.
pub fn sort_hash_pair(first: &MerkleTreeHash, second: &MerkleTreeHash) -> (pair: (
    MerkleTreeHash,
    MerkleTreeHash,
))
    ensures
        (pair.0@, pair.1@) == ordered_pair(first@, second@),
        pair == (if lex_less(first@, second@) {
            (*first, *second)
        } else {
            (*second, *first)
        }),
{
    if hash_less(first, second) {
        (*first, *second)
    } else {
        (*second, *first)
    }
}

/// The digest of the inner node above two children: the pair is ordered, then
/// serialised, then hashed. The result is the same whichever child is named
/// first.
pub fn combine(a: &MerkleTreeHash, b: &MerkleTreeHash) -> (digest: MerkleTreeHash)
    ensures
        digest@ == node_hash(a@, b@),
        digest@ == node_hash(b@, a@),
{
    proof {
        lemma_combine_commutative(a@, b@);
    }
    let pair = sort_hash_pair(a, b);
    let json = serialize_pair(&pair);
    keccak256_array(json.as_slice())
}

} // verus!
