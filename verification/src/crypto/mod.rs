//! Keys, hashes and the generators that are built on them.

use vstd::prelude::*;

pub mod prf;
pub mod prg;

pub use prf::KeyTree;
pub use prf::TreePRF;
pub use prg::PRG;

verus! {

/// Length of a key in bytes.
pub const KEY_SIZE: usize = 32;

/// Length of a hash in bytes.
pub const HASH_SIZE: usize = 32;

/// What BLAKE3 derives from key material under a context string.
pub uninterp spec fn derived_key(context: Seq<char>, material: Seq<u8>) -> [u8; 32];

/// The BLAKE3 hash of a byte string under a key.
pub uninterp spec fn keyed_digest(key: Seq<u8>, input: Seq<u8>) -> [u8; 32];

/// The BLAKE3 hash of a byte string.
pub uninterp spec fn digest(input: Seq<u8>) -> [u8; 32];

/// Derives a key from key material, separately for each context.
///
/// Calls `blake3::derive_key`. Trusted: the key is a function of the
/// characters of the context and the bytes of the material alone, and is
/// given the name [`derived_key`].
#[verifier::external_body]
pub(crate) fn kdf(context: &str, key_material: &[u8]) -> (key: [u8; KEY_SIZE])
    ensures
        key == derived_key(context@, key_material@),
{
    blake3::derive_key(context, key_material)
}

/// Hashes a byte string under a key.
///
/// Calls `blake3::keyed_hash`. Trusted: the hash is a function of the bytes of
/// the key and of the input alone, and is given the name [`keyed_digest`].
#[verifier::external_body]
pub(crate) fn keyed_hash(key: &[u8; KEY_SIZE], input: &[u8]) -> (hash: [u8; HASH_SIZE])
    ensures
        hash == keyed_digest(key@, input@),
{
    *blake3::keyed_hash(key, input).as_bytes()
}

/// Hashes a byte string.
///
/// Calls `blake3::hash`. Trusted: the hash is a function of the bytes of the
/// input alone, and is given the name [`digest`].
#[verifier::external_body]
fn hash_bytes(input: &[u8]) -> (hash: [u8; HASH_SIZE])
    ensures
        hash == digest(input@),
{
    *blake3::hash(input).as_bytes()
}

/// A hash, used as a commitment.
#[derive(Clone, Copy, Debug, PartialEq, Eq)]
pub struct Hash {
    pub bytes: [u8; HASH_SIZE],
}

impl Hash {
    /// The bytes of the hash.
    pub fn as_bytes(&self) -> (bytes: &[u8; HASH_SIZE])
        ensures
            *bytes == self.bytes,
    {
        &self.bytes
    }

    /// The hash of a byte string.
    pub fn of(input: &[u8]) -> (hash: Hash)
        ensures
            hash.bytes == digest(input@),
    {
        Hash { bytes: hash_bytes(input) }
    }
}

/// The bytes of a list of hashes, one behind the other.
pub open spec fn joined(hashes: Seq<Hash>) -> Seq<u8>
    decreases hashes.len(),
{
    if hashes.len() == 0 {
        Seq::empty()
    } else {
        joined(hashes.drop_last()) + hashes.last().bytes@
    }
}

/// The bytes of a list of hashes hold every byte of every hash at its place,
/// and nothing else.
pub proof fn joined_holds_every_hash(hashes: Seq<Hash>, i: int, k: int)
    requires
        0 <= i < hashes.len(),
        0 <= k < 32,
    ensures
        joined(hashes).len() == 32 * hashes.len(),
        joined(hashes)[32 * i + k] == hashes[i].bytes@[k],
    decreases hashes.len(),
{
    lemma_joined_len(hashes);
    lemma_joined_len(hashes.drop_last());
    if i < hashes.len() - 1 {
        joined_holds_every_hash(hashes.drop_last(), i, k);
    }
}

/// The bytes of a list of hashes are as many as the hashes have.
pub proof fn lemma_joined_len(hashes: Seq<Hash>)
    ensures
        joined(hashes).len() == 32 * hashes.len(),
    decreases hashes.len(),
{
    if hashes.len() > 0 {
        lemma_joined_len(hashes.drop_last());
    }
}

} // verus!
