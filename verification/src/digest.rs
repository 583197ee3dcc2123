//! The digest by which the index tells whether a note's content changed.

use crate::text::{hexadecimal, push_hexadecimal, string_of};
use vstd::prelude::*;

verus! {

/// What std's `DefaultHasher`, freshly made, gives for a string: a 64-bit
/// number that depends on the characters alone.
pub uninterp spec fn default_hash(content: Seq<char>) -> u64;

/// The digest of a note's content as the index keeps it: the hash in
/// lower-case hexadecimal, without leading zeros.
pub open spec fn content_hash(content: Seq<char>) -> Seq<char> {
    hexadecimal(default_hash(content) as nat)
}

/// Feeds `content` to a fresh `DefaultHasher` (through
/// `BuildHasher::hash_one`) and returns what it finishes with. The result is
/// named, not described: it is [`default_hash`] of the content.
#[verifier::external_body]
pub(crate) fn hash_content(content: &str) -> (hash: u64)
    ensures
        hash == default_hash(content@),
{
    std::hash::BuildHasher::hash_one(
        &std::hash::BuildHasherDefault::<std::collections::hash_map::DefaultHasher>::default(),
        content,
    )
}

/// A hash as the index keeps it: in lower-case hexadecimal, without leading
/// zeros.
pub fn hex_digest(hash: u64) -> (digest: String)
    ensures
        digest@ == hexadecimal(hash as nat),
{
    let mut out: Vec<char> = Vec::new();
    push_hexadecimal(&mut out, hash);
    assert(Seq::<char>::empty() + hexadecimal(hash as nat) =~= hexadecimal(hash as nat));
    string_of(&out)
}

/// The digest of a note's content.
pub fn compute_hash(content: &str) -> (digest: String)
    ensures
        digest@ == content_hash(content@),
{
    hex_digest(hash_content(content))
}

} // verus!
