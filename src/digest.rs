//! The hash stage: a candidate's characters, each narrowed to one byte, are
//! digested with MD5.

use md5::{Digest, Md5};
use vstd::prelude::*;

verus! {

/// The MD5 digest of `data`.
pub uninterp spec fn md5_of(data: Seq<u8>) -> Seq<u8>;

/// Relies on `Digest::digest` for `md5::Md5` (md-5): the MD5 digest of the
/// bytes, a function of the bytes alone.
#[verifier::external_body]
fn md5_digest(data: &[u8]) -> (r: [u8; 16])
    ensures
        r@ == md5_of(data@),
{
    Md5::digest(data).into()
}

/// A character narrowed to one byte: its code point, truncated.
pub open spec fn narrow(c: char) -> u8 {
    (c as u32 % 256) as u8
}

/// The digest input for a string: each character narrowed to one byte.
pub open spec fn narrowed(s: Seq<char>) -> Seq<u8> {
    s.map_values(|c: char| narrow(c))
}

/// The digest of a candidate string.
pub open spec fn digest_of(s: Seq<char>) -> Seq<u8> {
    md5_of(narrowed(s))
}

/// Digests `string`, each of its characters narrowed to one byte.
///
/// Only characters below U+0100 survive the narrowing unchanged: two strings
/// that differ above that range may share a digest.
pub fn hash_string(string: &str) -> (r: [u8; 16])
    ensures
        r@ == digest_of(string@),
{
    let mut bytes: Vec<u8> = Vec::new();
    for c in it: string.chars()
        invariant
            it.seq() == string@,
            bytes@ == narrowed(it.seq().take(it.index() as int)),
    {
        bytes.push((c as u32 % 256) as u8);
        assert(bytes@ =~= narrowed(it.seq().take(it.index() + 1)));
    }
    assert(string@.take(string@.len() as int) =~= string@);
    md5_digest(bytes.as_slice())
}

/// The digest is a function of the narrowed characters alone: strings that
/// narrow to the same bytes, in particular equal strings, get the same digest
/// in every call and every process.
pub proof fn lemma_digest_deterministic(a: Seq<char>, b: Seq<char>)
    requires
        narrowed(a) == narrowed(b),
    ensures
        digest_of(a) == digest_of(b),
{
}

} // verus!
