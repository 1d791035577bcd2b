//! Binary Merkle commitments over ordered lists of byte blobs.
//!
//! A tree is built once from a fixed list of leaves. It yields a 32-byte root
//! and one inclusion proof per leaf; a verifier that holds a leaf, its proof
//! and the root can recompute the root without the rest of the list.

pub mod commit;
pub mod digest;
pub mod laws;
pub mod merkle;
pub mod model;
pub mod sync;
