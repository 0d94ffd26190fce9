//! Checksum utilities.
//!
//! Two hash functions serve different purposes: `per_chunk_checksum` is a fast xxHash3 for the
//! detection of bitrot, and `object_hash` is a Blake3 hash for object-level ETags.
use crate::bytes::get_le;
use crate::errors::{StorageError, StorageResult};
use vstd::prelude::*;

verus! {

use crate::bytes::le_value;

/// The xxHash3 128-bit hash of a byte string.
pub uninterp spec fn xxh3(data: Seq<u8>) -> u128;

/// The 32 bytes of the Blake3 hash of a byte string.
pub uninterp spec fn blake3_hash(data: Seq<u8>) -> Seq<u8>;

/// The bytes that a Blake3 hasher has been fed so far.
pub uninterp spec fn hasher_input(hasher: blake3::Hasher) -> Seq<u8>;

#[verifier::external_type_specification]
#[verifier::external_body]
pub struct ExBlake3Hasher(blake3::Hasher);

/// The object hash of a byte string: the first sixteen bytes of its Blake3 hash, read as a
/// little-endian number.
pub open spec fn object_hash_of(data: Seq<u8>) -> nat {
    le_value(blake3_hash(data).subrange(0, 16))
}

/// Calls `xxhash_rust::xxh3::xxh3_128`. The result is named `xxh3` of the bytes.
#[verifier::external_body]
fn xxh3_128(data: &[u8]) -> (r: u128)
    ensures
        r == xxh3(data@),
{
    xxhash_rust::xxh3::xxh3_128(data)
}

/// Calls `blake3::Hasher::new`: a hasher that has been fed nothing.
#[verifier::external_body]
fn hasher_new() -> (h: blake3::Hasher)
    ensures
        hasher_input(h) == Seq::<u8>::empty(),
{
    blake3::Hasher::new()
}

/// Calls `blake3::Hasher::update`: the bytes are added to what the hasher has been fed.
#[verifier::external_body]
fn hasher_update(h: &mut blake3::Hasher, data: &[u8])
    ensures
        hasher_input(*final(h)) == hasher_input(*old(h)) + data@,
{
    h.update(data);
}

/// Calls `blake3::Hasher::finalize` and hands out the hash as its 32 bytes. They are named
/// `blake3_hash` of what the hasher has been fed.
#[verifier::external_body]
fn hasher_finalize(h: &blake3::Hasher) -> (r: Vec<u8>)
    ensures
        r@ == blake3_hash(hasher_input(*h)),
        r@.len() == 32,
{
    h.finalize().as_bytes().to_vec()
}

/// `blake3::Hasher::clone` gives a hasher that has been fed the same bytes.
pub assume_specification[ <blake3::Hasher as Clone>::clone ](h: &blake3::Hasher) -> (r:
    blake3::Hasher)
    ensures
        hasher_input(r) == hasher_input(*h),
;

/// Fast xxHash3 128-bit checksum of a chunk or shard, for bitrot detection.
pub fn per_chunk_checksum(data: &[u8]) -> (r: u128)
    ensures
        r == xxh3(data@),
{
    xxh3_128(data)
}

/// Verify chunk data against an expected checksum.
pub fn verify_chunk_checksum(data: &[u8], expected: u128) -> (r: StorageResult<()>)
    ensures
        r is Ok <==> xxh3(data@) == expected,
        r matches Err(e) ==> e == (StorageError::ChecksumMismatch {
            expected,
            actual: xxh3(data@),
        }),
{
    let actual: u128 = per_chunk_checksum(data);
    check_hash(expected, actual)
}

/// Hash of an object's content, for its ETag. It covers the raw data, all chunks concatenated.
pub fn object_hash(data: &[u8]) -> (r: u128)
    ensures
        r == object_hash_of(data@),
{
    let mut h = StreamingObjectHash::new();
    h.update(data);
    assert(Seq::<u8>::empty() + data@ =~= data@);
    h.finalize()
}

/// Verify object data against an expected content hash.
pub fn verify_object_hash(data: &[u8], expected: u128) -> (r: StorageResult<()>)
    ensures
        r is Ok <==> object_hash_of(data@) == expected,
        r matches Err(e) ==> e == (StorageError::ChecksumMismatch {
            expected,
            actual: object_hash_of(data@) as u128,
        }),
{
    let actual: u128 = object_hash(data);
    check_hash(expected, actual)
}

/// Compare a checksum that was found with the one that was expected.
pub fn check_hash(expected: u128, actual: u128) -> (r: StorageResult<()>)
    ensures
        r is Ok <==> actual == expected,
        r matches Err(e) ==> e == (StorageError::ChecksumMismatch { expected, actual }),
{
    if actual == expected {
        Ok(())
    } else {
        Err(StorageError::ChecksumMismatch { expected, actual })
    }
}

/// Streaming hasher for an object's content. Data is accumulated by `update`; `finalize` gives
/// what `object_hash` gives for all of it.
pub struct StreamingObjectHash {
    hasher: blake3::Hasher,
}

impl View for StreamingObjectHash {
    type V = Seq<u8>;

    /// The bytes fed so far.
    closed spec fn view(&self) -> Seq<u8> {
        hasher_input(self.hasher)
    }
}

impl StreamingObjectHash {
    /// Create a new streaming hasher.
    pub fn new() -> (h: Self)
        ensures
            h@ == Seq::<u8>::empty(),
    {
        StreamingObjectHash { hasher: hasher_new() }
    }

    /// Feed more data into the hash.
    pub fn update(&mut self, data: &[u8])
        ensures
            final(self)@ == old(self)@ + data@,
    {
        hasher_update(&mut self.hasher, data);
    }

    /// Finalize and return the 128-bit content hash.
    pub fn finalize(self) -> (r: u128)
        ensures
            r == object_hash_of(self@),
    {
        let bytes = hasher_finalize(&self.hasher);
        get_le(bytes.as_slice(), 0, 16)
    }
}

impl Clone for StreamingObjectHash {
    fn clone(&self) -> (h: Self)
        ensures
            h@ == self@,
    {
        StreamingObjectHash { hasher: self.hasher.clone() }
    }
}

impl Default for StreamingObjectHash {
    fn default() -> (h: Self)
        ensures
            h@ == Seq::<u8>::empty(),
    {
        StreamingObjectHash::new()
    }
}

/// Another name of the streaming hasher.
pub type StreamingChecksum = StreamingObjectHash;

} // verus!
