//! Rows of the stored mapping from digest to plaintext.

use vstd::prelude::*;

verus! {

/// A stored row as read back: the digest as text and its plaintext.
#[derive(Debug)]
pub struct HashMapping {
    pub md5: String,
    pub filename: String,
}

/// A row to store: the 16-byte digest of `filename`, and `filename` itself.
#[derive(Debug)]
pub struct NewHashMapping {
    pub md5: [u8; 16],
    pub filename: String,
}

} // verus!
